//! The framing of messages on the control socket: each message is a length of
//! four bytes, most significant first, and that many bytes.

use tokio_util::codec::{Decoder, Encoder, LengthDelimitedCodec};
use vstd::prelude::*;

use crate::addr::{be_value, lemma_be4};

verus! {

/// The longest message, in bytes.
pub const MAX_FRAME_LEN: usize = 8_388_608;

/// The four bytes of a length, most significant first.
pub open spec fn length_bytes(n: nat) -> Seq<u8> {
    seq![
        (n / 0x100_0000 % 0x100) as u8,
        (n / 0x1_0000 % 0x100) as u8,
        (n / 0x100 % 0x100) as u8,
        (n % 0x100) as u8,
    ]
}

/// A message with its length in front.
pub open spec fn framed(payload: Seq<u8>) -> Seq<u8> {
    length_bytes(payload.len()) + payload
}

/// What received bytes begin with.
pub enum Arrival {
    /// A whole message, and what follows it.
    Frame { payload: Seq<u8>, rest: Seq<u8> },
    /// Less than a whole message.
    Partial,
    /// A length that no message has.
    TooLong,
}

/// What received bytes begin with.
pub open spec fn arrival(buf: Seq<u8>) -> Arrival {
    if buf.len() < 4 {
        Arrival::Partial
    } else {
        let n = be_value(buf.take(4)) as int;
        if n > MAX_FRAME_LEN {
            Arrival::TooLong
        } else if buf.len() < 4 + n {
            Arrival::Partial
        } else {
            Arrival::Frame { payload: buf.subrange(4, 4 + n), rest: buf.skip(4 + n) }
        }
    }
}

/// `LengthDelimitedCodec::encode` in its default configuration puts the length in
/// front of the payload, and refuses one that is longer than the longest message.
#[verifier::external_body]
fn codec_encode(payload: &[u8]) -> (r: Option<Vec<u8>>)
    ensures
        r is Some <==> payload@.len() <= MAX_FRAME_LEN,
        r is Some ==> r->0@ == framed(payload@),
{
    let mut out = Default::default();
    match LengthDelimitedCodec::new().encode(payload, &mut out) {
        Ok(()) => Some(out.to_vec()),
        Err(_) => None,
    }
}

/// `LengthDelimitedCodec::decode` in its default configuration, on a fresh codec,
/// takes the first whole message from the buffer and leaves what follows it. It
/// has no result where there is less than one, and fails where the length is that
/// of no message.
#[verifier::external_body]
fn codec_decode(buf: &[u8]) -> (r: Result<Option<(Vec<u8>, Vec<u8>)>, ()>)
    ensures
        r is Err <==> arrival(buf@) is TooLong,
        r is Ok && r->Ok_0 is None <==> arrival(buf@) is Partial,
        r is Ok && r->Ok_0 is Some ==> arrival(buf@) == (Arrival::Frame {
            payload: (r->Ok_0->0).0@,
            rest: (r->Ok_0->0).1@,
        }),
{
    let mut src = buf.into();
    match LengthDelimitedCodec::new().decode(&mut src) {
        Ok(Some(frame)) => Ok(Some((frame.to_vec(), src.to_vec()))),
        Ok(None) => Ok(None),
        Err(_) => Err(()),
    }
}

/// Frame a message. One that is too long cannot be sent.
pub fn encode(payload: &[u8]) -> (r: Option<Vec<u8>>)
    ensures
        r is Some <==> payload@.len() <= MAX_FRAME_LEN,
        r is Some ==> r->0@ == framed(payload@),
{
    codec_encode(payload)
}

/// What the receiving end does next.
#[derive(Debug)]
pub enum Next {
    /// Handle a message.
    Message(Vec<u8>),
    /// Read more bytes.
    Read,
    /// Drop the connection: the announced length is that of no message.
    TooLong,
}

/// How a connection ended.
#[derive(Debug, Clone, Copy, PartialEq, Eq, Structural)]
pub enum Ending {
    /// Between two messages.
    Clean,
    /// Inside a message.
    Broken,
}

/// The receiving end of a connection: bytes that were received and not yet
/// handled.
pub struct Inbox {
    pub buf: Vec<u8>,
}

impl Inbox {
    /// Nothing was received yet.
    pub fn new() -> (r: Inbox)
        ensures
            r.buf@ == Seq::<u8>::empty(),
    {
        let r: Inbox = Inbox { buf: Vec::new() };
        assert(r.buf@ =~= Seq::<u8>::empty());
        r
    }

    /// Take in received bytes.
    pub fn feed(&mut self, bytes: &[u8])
        ensures
            final(self).buf@ == old(self).buf@ + bytes@,
    {
        self.buf.extend_from_slice(bytes);
        assert(self.buf@ =~= old(self).buf@ + bytes@);
    }

    /// Take the next message out, if it is there.
    pub fn next(&mut self) -> (r: Next)
        ensures
            match arrival(old(self).buf@) {
                Arrival::Frame { payload, rest } => r is Message && r->Message_0@ == payload
                    && final(self).buf@ == rest,
                Arrival::Partial => r is Read && final(self).buf@ == old(self).buf@,
                Arrival::TooLong => r is TooLong && final(self).buf@ == old(self).buf@,
            },
    {
        match codec_decode(self.buf.as_slice()) {
            Ok(Some((payload, rest))) => {
                self.buf = rest;
                Next::Message(payload)
            },
            Ok(None) => Next::Read,
            Err(_) => Next::TooLong,
        }
    }

    /// Judge the end of the connection by what was left unhandled: nothing, or a
    /// length without its message, is a clean end.
    pub fn close(&self) -> (r: Ending)
        ensures
            r == if self.buf@.len() == 0 || self.buf@.len() == 4 {
                Ending::Clean
            } else {
                Ending::Broken
            },
    {
        if self.buf.len() == 0 || self.buf.len() == 4 {
            Ending::Clean
        } else {
            Ending::Broken
        }
    }
}

// ---- Laws --------------------------------------------------------------------

proof fn lemma_length(n: nat)
    requires
        n <= MAX_FRAME_LEN,
    ensures
        be_value(length_bytes(n)) == n,
{
    let (a, b, c, d) = (
        (n / 0x100_0000 % 0x100) as u8,
        (n / 0x1_0000 % 0x100) as u8,
        (n / 0x100 % 0x100) as u8,
        (n % 0x100) as u8,
    );
    lemma_be4(a, b, c, d);
}

/// A message that was framed is received as it was, whatever follows it.
pub proof fn law_frame_roundtrip(payload: Seq<u8>, rest: Seq<u8>)
    requires
        payload.len() <= MAX_FRAME_LEN,
    ensures
        arrival(framed(payload) + rest) == (Arrival::Frame { payload, rest }),
{
    let buf = framed(payload) + rest;
    let n = payload.len();
    lemma_length(n);
    assert(buf.take(4) =~= length_bytes(n));
    assert(buf.subrange(4, 4 + n as int) =~= payload);
    assert(buf.skip(4 + n as int) =~= rest);
}

/// Bytes that arrive later change nothing of what has arrived: a whole message
/// stays the same, and a bad length stays bad.
pub proof fn law_later_bytes_change_nothing(buf: Seq<u8>, more: Seq<u8>)
    ensures
        arrival(buf) is TooLong ==> arrival(buf + more) is TooLong,
        arrival(buf) is Frame ==> arrival(buf + more) == (Arrival::Frame {
            payload: arrival(buf)->payload,
            rest: arrival(buf)->rest + more,
        }),
{
    if buf.len() >= 4 {
        let n = be_value(buf.take(4)) as int;
        assert((buf + more).take(4) =~= buf.take(4));
        if n <= MAX_FRAME_LEN && buf.len() >= 4 + n {
            assert((buf + more).subrange(4, 4 + n) =~= buf.subrange(4, 4 + n));
            assert((buf + more).skip(4 + n) =~= buf.skip(4 + n) + more);
        }
    }
}

/// Messages and the bytes of all of them in a row.
pub open spec fn stream(messages: Seq<Seq<u8>>) -> Seq<u8>
    decreases messages.len(),
{
    if messages.len() == 0 {
        Seq::empty()
    } else {
        framed(messages[0]) + stream(messages.skip(1))
    }
}

/// The messages that received bytes hold, up to the first that is not whole.
pub open spec fn received(buf: Seq<u8>) -> Seq<Seq<u8>>
    decreases buf.len(),
{
    match arrival(buf) {
        Arrival::Frame { payload, rest } => {
            if rest.len() < buf.len() {
                seq![payload] + received(rest)
            } else {
                seq![payload]
            }
        },
        _ => Seq::empty(),
    }
}

/// What is sent is what is received: the messages of a connection arrive whole
/// and in order.
pub proof fn law_stream_roundtrip(messages: Seq<Seq<u8>>)
    requires
        forall|i: int| 0 <= i < messages.len() ==> (#[trigger] messages[i]).len() <= MAX_FRAME_LEN,
    ensures
        received(stream(messages)) == messages,
    decreases messages.len(),
{
    if messages.len() > 0 {
        let rest = messages.skip(1);
        law_frame_roundtrip(messages[0], stream(rest));
        law_stream_roundtrip(rest);
        assert(stream(rest).len() < stream(messages).len());
        assert(received(stream(messages)) =~= seq![messages[0]] + rest);
        assert(seq![messages[0]] + rest =~= messages);
    } else {
        assert(received(stream(messages)) =~= messages);
    }
}

/// A message is sent as the number of its bytes, in four bytes of which the first is the
/// most significant, and then its bytes.
pub proof fn law_frame_layout(payload: Seq<u8>)
    requires
        payload.len() <= 8_388_608,
    ensures
        ({
            let f = framed(payload);
            &&& f.len() == 4 + payload.len()
            &&& f.skip(4) == payload
            &&& f[0] * 0x100_0000 + f[1] * 0x1_0000 + f[2] * 0x100 + f[3] == payload.len()
        }),
{
    assert(framed(payload).skip(4) =~= payload);
}

/// A message is there once all its bytes are, and a length above eight mebibytes is
/// refused as soon as it is there.
pub proof fn law_arrivals(buf: Seq<u8>)
    ensures
        buf.len() < 4 ==> arrival(buf) is Partial,
        buf.len() >= 4 ==> {
            let n = buf[0] * 0x100_0000 + buf[1] * 0x1_0000 + buf[2] * 0x100 + buf[3];
            &&& arrival(buf) is TooLong <==> n > 8_388_608
            &&& arrival(buf) is Frame <==> n <= 8_388_608 && buf.len() >= 4 + n
            &&& arrival(buf) is Frame ==> arrival(buf)->payload == buf.subrange(4, 4 + n)
                && arrival(buf)->rest == buf.skip(4 + n)
        },
{
    if buf.len() >= 4 {
        assert(buf.take(4) =~= seq![buf[0], buf[1], buf[2], buf[3]]);
        lemma_be4(buf[0], buf[1], buf[2], buf[3]);
    }
}

} // verus!
