//! Notices of started programs, as the kernel sends them over its connector.
//!
//! A notice is a message header of 16 bytes, a connector header of 20 bytes and
//! an event: what happened, on which processor, when, and for which process.
//! Numbers are in the byte order of the machine.

use vstd::prelude::*;

verus! {

/// Length of the message header.
pub const NL_HDR_SZ: usize = 16;

/// Length of the connector header.
pub const CN_SZ: usize = 20;

/// Length of the part of an event before the process.
pub const EVT_HDR_SZ: usize = 16;

/// Length of the shortest notice of a started program.
pub const MIN_LEN: usize = 60;

/// The event that a program was started.
pub const PROC_EVENT_EXEC: u32 = 2;

/// The four bytes of a number.
pub open spec fn word_bytes(n: u32, big: bool) -> Seq<u8> {
    let (a, b, c, d) = (
        (n / 0x100_0000) as u8,
        (n / 0x1_0000 % 0x100) as u8,
        (n / 0x100 % 0x100) as u8,
        (n % 0x100) as u8,
    );
    if big {
        seq![a, b, c, d]
    } else {
        seq![d, c, b, a]
    }
}

/// The two bytes of a number.
pub open spec fn half_bytes(n: u16, big: bool) -> Seq<u8> {
    let (a, b) = ((n / 0x100) as u8, (n % 0x100) as u8);
    if big {
        seq![a, b]
    } else {
        seq![b, a]
    }
}

/// The number that four bytes hold.
#[verifier::opaque]
pub open spec fn word_at(d: Seq<u8>, at: int, big: bool) -> u32 {
    (if big {
        d[at] * 0x100_0000 + d[at + 1] * 0x1_0000 + d[at + 2] * 0x100 + d[at + 3]
    } else {
        d[at + 3] * 0x100_0000 + d[at + 2] * 0x1_0000 + d[at + 1] * 0x100 + d[at]
    }) as u32
}

/// A length brought to a multiple of four.
pub open spec fn aligned(n: int) -> int {
    (n + 3) / 4 * 4
}

/// The processes that started a program, from received notices. Reading ends at a
/// message that is too short or that is not there to its end.
pub open spec fn exec_pids(d: Seq<u8>, big: bool) -> Seq<u32>
    decreases d.len(),
{
    if d.len() < MIN_LEN {
        Seq::empty()
    } else {
        let n = word_at(d, 0, big) as int;
        if n < MIN_LEN || n > d.len() {
            Seq::empty()
        } else {
            let first = if word_at(d, NL_HDR_SZ + CN_SZ, big) == PROC_EVENT_EXEC {
                seq![word_at(d, NL_HDR_SZ + CN_SZ + EVT_HDR_SZ, big)]
            } else {
                Seq::empty()
            };
            if aligned(n) >= d.len() {
                first
            } else {
                first + exec_pids(d.skip(aligned(n)), big)
            }
        }
    }
}

fn read_word(d: &[u8], at: usize, big: bool) -> (r: u32)
    requires
        at + 4 <= d@.len(),
    ensures
        r == word_at(d@, at as int, big),
{
    let n: usize = d.len();
    assert(at + 4 <= n);
    reveal(word_at);
    let (a, b, c, e) = (d[at] as u32, d[at + 1] as u32, d[at + 2] as u32, d[at + 3] as u32);
    if big {
        a * 0x100_0000 + b * 0x1_0000 + c * 0x100 + e
    } else {
        e * 0x100_0000 + c * 0x1_0000 + b * 0x100 + a
    }
}

proof fn lemma_word_shift(d: Seq<u8>, at: int, k: int, big: bool)
    requires
        0 <= k,
        0 <= at,
        at + k + 4 <= d.len(),
    ensures
        word_at(d.skip(k), at, big) == word_at(d, at + k, big),
{
    reveal(word_at);
}

/// Read the processes that started a program from what was received at once,
/// which may hold several notices.
pub fn parse_events(buf: &[u8], big: bool) -> (r: Vec<u32>)
    ensures
        r@ == exec_pids(buf@, big),
{
    let len: usize = buf.len();
    let mut out: Vec<u32> = Vec::new();
    let mut pos: usize = 0;
    assert(buf@.skip(0) =~= buf@);
    assert(out@ + exec_pids(buf@, big) =~= exec_pids(buf@, big));
    while pos < len && len - pos >= MIN_LEN
        invariant
            len == buf@.len(),
            pos <= len,
            out@ + exec_pids(buf@.skip(pos as int), big) == exec_pids(buf@, big),
        decreases len - pos,
    {
        let ghost rest = buf@.skip(pos as int);
        let ghost before = out@;
        proof {
            lemma_word_shift(buf@, 0, pos as int, big);
            lemma_word_shift(buf@, NL_HDR_SZ + CN_SZ, pos as int, big);
            lemma_word_shift(buf@, NL_HDR_SZ + CN_SZ + EVT_HDR_SZ, pos as int, big);
        }
        let n: u64 = read_word(buf, pos, big) as u64;
        if n < MIN_LEN as u64 || n > (len - pos) as u64 {
            assert(out@ + exec_pids(rest, big) =~= out@);
            return out;
        }
        let n: usize = n as usize;
        if read_word(buf, pos + NL_HDR_SZ + CN_SZ, big) == PROC_EVENT_EXEC {
            out.push(read_word(buf, pos + NL_HDR_SZ + CN_SZ + EVT_HDR_SZ, big));
        }
        let over: usize = n % 4;
        let pad: usize = if over == 0 {
            0
        } else {
            4 - over
        };
        assert(aligned(n as int) == n + pad);
        if pad >= len - pos - n {
            assert(out@ =~= before + exec_pids(rest, big));
            return out;
        }
        pos = pos + n + pad;
        proof {
            assert(rest.skip(aligned(n as int)) =~= buf@.skip(pos as int));
            assert(out@ + exec_pids(buf@.skip(pos as int), big) =~= before + exec_pids(rest, big));
        }
    }
    proof {
        assert(out@ + exec_pids(buf@.skip(pos as int), big) =~= out@);
    }
    out
}

fn push_word(v: &mut Vec<u8>, n: u32, big: bool)
    ensures
        final(v)@ == old(v)@ + word_bytes(n, big),
{
    let a: u8 = (n / 0x100_0000) as u8;
    let b: u8 = (n / 0x1_0000 % 0x100) as u8;
    let c: u8 = (n / 0x100 % 0x100) as u8;
    let d: u8 = (n % 0x100) as u8;
    if big {
        v.push(a);
        v.push(b);
        v.push(c);
        v.push(d);
    } else {
        v.push(d);
        v.push(c);
        v.push(b);
        v.push(a);
    }
    assert(v@ =~= old(v)@ + word_bytes(n, big));
}

fn push_half(v: &mut Vec<u8>, n: u16, big: bool)
    ensures
        final(v)@ == old(v)@ + half_bytes(n, big),
{
    let a: u8 = (n / 0x100) as u8;
    let b: u8 = (n % 0x100) as u8;
    if big {
        v.push(a);
        v.push(b);
    } else {
        v.push(b);
        v.push(a);
    }
    assert(v@ =~= old(v)@ + half_bytes(n, big));
}

/// The header of a message to the kernel: its length, its type, no flags, no
/// sequence number, and the sender.
pub open spec fn message_header(len: u32, pid: u32, big: bool) -> Seq<u8> {
    word_bytes(len, big) + half_bytes(1, big) + half_bytes(0, big) + word_bytes(0, big)
        + word_bytes(pid, big)
}

/// The header of the process connector: its two numbers, no sequence number, no
/// acknowledgement, the length of what follows, and no flags.
pub open spec fn connector_header(len: u16, big: bool) -> Seq<u8> {
    word_bytes(1, big) + word_bytes(1, big) + word_bytes(0, big) + word_bytes(0, big)
        + half_bytes(len, big) + half_bytes(0, big)
}

/// The message that subscribes to notices: the two headers and the order to
/// listen.
pub fn subscribe(pid: u32, big: bool) -> (r: Vec<u8>)
    ensures
        r@ == message_header(40, pid, big) + connector_header(4, big) + word_bytes(1, big),
        r@.len() == 40,
{
    let mut v: Vec<u8> = Vec::new();
    push_word(&mut v, 40, big);
    push_half(&mut v, 1, big);
    push_half(&mut v, 0, big);
    push_word(&mut v, 0, big);
    push_word(&mut v, pid, big);
    assert(v@ =~= message_header(40, pid, big));
    let ghost head = v@;
    push_word(&mut v, 1, big);
    push_word(&mut v, 1, big);
    push_word(&mut v, 0, big);
    push_word(&mut v, 0, big);
    push_half(&mut v, 4, big);
    push_half(&mut v, 0, big);
    assert(v@ =~= head + connector_header(4, big));
    push_word(&mut v, 1, big);
    v
}

/// Whether `m` is one whole message, as long as it says.
pub open spec fn is_message(m: Seq<u8>, big: bool) -> bool {
    m.len() >= MIN_LEN && m.len() % 4 == 0 && word_at(m, 0, big) == m.len()
}

/// What is received at once is read message by message: what follows a whole
/// message is read as if it had come alone.
pub proof fn law_messages_in_sequence(m: Seq<u8>, rest: Seq<u8>, big: bool)
    requires
        is_message(m, big),
    ensures
        exec_pids(m + rest, big) == exec_pids(m, big) + exec_pids(rest, big),
{
    let d = m + rest;
    let n = m.len() as int;
    reveal(word_at);
    assert(word_at(d, 0, big) == word_at(m, 0, big));
    assert(word_at(d, NL_HDR_SZ + CN_SZ, big) == word_at(m, NL_HDR_SZ + CN_SZ, big));
    assert(word_at(d, NL_HDR_SZ + CN_SZ + EVT_HDR_SZ, big) == word_at(
        m,
        NL_HDR_SZ + CN_SZ + EVT_HDR_SZ,
        big,
    ));
    assert(aligned(n) == n);
    assert(d.skip(n) =~= rest);
    assert(exec_pids(d, big) =~= exec_pids(m, big) + exec_pids(rest, big));
}

/// A number stands in four bytes, in the order of the machine.
pub proof fn law_words_are_read(d: Seq<u8>, at: int)
    requires
        0 <= at <= d.len() - 4,
    ensures
        word_at(d, at, false) == d[at] + d[at + 1] * 0x100 + d[at + 2] * 0x1_0000 + d[at + 3]
            * 0x100_0000,
        word_at(d, at, true) == d[at] * 0x100_0000 + d[at + 1] * 0x1_0000 + d[at + 2] * 0x100
            + d[at + 3],
{
    reveal(word_at);
}

/// A number that is written is read back.
pub proof fn law_words_are_read_back(a: Seq<u8>, n: u32, b: Seq<u8>, big: bool)
    ensures
        word_at(a + word_bytes(n, big) + b, a.len() as int, big) == n,
        word_bytes(n, big).len() == 4,
{
    reveal(word_at);
    let d = a + word_bytes(n, big) + b;
    let at = a.len() as int;
    let w = word_bytes(n, big);
    assert(d[at] == w[0] && d[at + 1] == w[1] && d[at + 2] == w[2] && d[at + 3] == w[3]);
}

/// One whole notice names the process that it is about, if it is that a program was
/// started, and none otherwise.
pub proof fn law_notice_is_read(m: Seq<u8>, big: bool)
    requires
        m.len() >= 60,
        m.len() % 4 == 0,
        word_at(m, 0, big) == m.len(),
    ensures
        word_at(m, 36, big) == 2 ==> exec_pids(m, big) == seq![word_at(m, 52, big)],
        word_at(m, 36, big) != 2 ==> exec_pids(m, big) == Seq::<u32>::empty(),
{
}

/// What is too short for a notice, or claims to be longer than it is, names no process.
pub proof fn law_broken_notices_are_ignored(d: Seq<u8>, big: bool)
    ensures
        d.len() < 60 ==> exec_pids(d, big) == Seq::<u32>::empty(),
        d.len() >= 60 && word_at(d, 0, big) < 60 ==> exec_pids(d, big) == Seq::<u32>::empty(),
        d.len() >= 60 && word_at(d, 0, big) > d.len() ==> exec_pids(d, big) == Seq::<u32>::empty(),
{
}

/// The subscription states its length and its sender, names the process connector, and
/// carries one number, the order to listen.
pub proof fn law_subscription(pid: u32, big: bool)
    ensures
        ({
            let m = message_header(40, pid, big) + connector_header(4, big) + word_bytes(1, big);
            &&& m.len() == 40
            &&& word_at(m, 0, big) == 40
            &&& word_at(m, 8, big) == 0
            &&& word_at(m, 12, big) == pid
            &&& word_at(m, 16, big) == 1
            &&& word_at(m, 20, big) == 1
            &&& word_at(m, 24, big) == 0
            &&& word_at(m, 28, big) == 0
            &&& word_at(m, 36, big) == 1
            &&& m.subrange(4, 8) == if big {
                seq![0u8, 1, 0, 0]
            } else {
                seq![1u8, 0, 0, 0]
            }
            &&& m.subrange(32, 36) == if big {
                seq![0u8, 4, 0, 0]
            } else {
                seq![4u8, 0, 0, 0]
            }
        }),
{
    let h = message_header(40, pid, big);
    let c = connector_header(4, big);
    let m = h + c + word_bytes(1, big);
    lemma_message_header(40, pid, big);
    lemma_connector_header(4, big);
    lemma_part(m, 0, h, 0, 40, big);
    lemma_part(m, 0, h, 8, 0, big);
    lemma_part(m, 0, h, 12, pid, big);
    lemma_part(m, 16, c, 0, 1, big);
    lemma_part(m, 16, c, 4, 1, big);
    lemma_part(m, 16, c, 8, 0, big);
    lemma_part(m, 16, c, 12, 0, big);
    lemma_word_in(m, 36, 1, big);
    assert(m.subrange(4, 8) =~= h.subrange(4, 6) + h.subrange(6, 8));
    assert(m.subrange(32, 36) =~= c.subrange(16, 18) + c.subrange(18, 20));
}

proof fn lemma_word_in(m: Seq<u8>, at: int, n: u32, big: bool)
    requires
        0 <= at <= m.len() - 4,
        m.subrange(at, at + 4) =~= word_bytes(n, big),
    ensures
        word_at(m, at, big) == n,
{
    law_words_are_read_back(m.take(at), n, m.skip(at + 4), big);
    assert(m =~= m.take(at) + m.subrange(at, at + 4) + m.skip(at + 4));
}

proof fn lemma_part(m: Seq<u8>, from: int, part: Seq<u8>, at: int, n: u32, big: bool)
    requires
        0 <= from <= m.len() - part.len(),
        m.subrange(from, from + part.len()) =~= part,
        0 <= at <= part.len() - 4,
        word_at(part, at, big) == n,
    ensures
        word_at(m, from + at, big) == n,
{
    reveal(word_at);
    assert forall|i: int| 0 <= i < part.len() implies #[trigger] part[i] == m[from + i] by {
        assert(m.subrange(from, from + part.len())[i] == m[from + i]);
    }
    assert(part[at] == m[from + at]);
    assert(part[at + 1] == m[from + (at + 1)]);
    assert(part[at + 2] == m[from + (at + 2)]);
    assert(part[at + 3] == m[from + (at + 3)]);
}

proof fn lemma_message_header(len: u32, pid: u32, big: bool)
    ensures
        ({
            let h = message_header(len, pid, big);
            &&& h.len() == 16
            &&& word_at(h, 0, big) == len
            &&& word_at(h, 8, big) == 0
            &&& word_at(h, 12, big) == pid
            &&& h.subrange(4, 6) == half_bytes(1, big)
            &&& h.subrange(6, 8) == half_bytes(0, big)
        }),
{
    let h = message_header(len, pid, big);
    lemma_word_in(h, 0, len, big);
    lemma_word_in(h, 8, 0, big);
    lemma_word_in(h, 12, pid, big);
    assert(h.subrange(4, 6) =~= half_bytes(1, big));
    assert(h.subrange(6, 8) =~= half_bytes(0, big));
}

proof fn lemma_connector_header(len: u16, big: bool)
    ensures
        ({
            let h = connector_header(len, big);
            &&& h.len() == 20
            &&& word_at(h, 0, big) == 1
            &&& word_at(h, 4, big) == 1
            &&& word_at(h, 8, big) == 0
            &&& word_at(h, 12, big) == 0
            &&& h.subrange(16, 18) == half_bytes(len, big)
            &&& h.subrange(18, 20) == half_bytes(0, big)
        }),
{
    let h = connector_header(len, big);
    lemma_word_in(h, 0, 1, big);
    lemma_word_in(h, 4, 1, big);
    lemma_word_in(h, 8, 0, big);
    lemma_word_in(h, 12, 0, big);
    assert(h.subrange(16, 18) =~= half_bytes(len, big));
    assert(h.subrange(18, 20) =~= half_bytes(0, big));
}

} // verus!
