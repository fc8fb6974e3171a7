//! The directory name of the group of an application.

use std::collections::hash_map::DefaultHasher;
use std::hash::{BuildHasher, BuildHasherDefault};

use vstd::prelude::*;

use crate::number::{
    copies, digit, digits_value, hex, lemma_leading_zeros, lemma_numeral_value, numeral, pad_left,
    right_aligned,
};
use crate::text::{base_of, basename, chars};

verus! {

/// The hash of a path.
pub uninterp spec fn path_hash(path: Seq<char>) -> u64;

/// `BuildHasher::hash_one` with hashers made by `DefaultHasher::default`. All of
/// them are alike, so the hash depends on the path alone. How it is computed is
/// not specified by the standard library, and may change with its releases.
#[verifier::external_body]
fn hash_path(path: &str) -> (r: u64)
    ensures
        r == path_hash(path@),
{
    BuildHasherDefault::<DefaultHasher>::default().hash_one(path)
}

/// Whether a character may stand in a directory name.
pub open spec fn is_safe(c: char) -> bool {
    ||| 'a' <= c <= 'z'
    ||| 'A' <= c <= 'Z'
    ||| '0' <= c <= '9'
    ||| c == '-'
    ||| c == '_'
}

/// A character, or what stands for it in a directory name.
pub open spec fn safe(c: char) -> char {
    if is_safe(c) {
        c
    } else {
        '_'
    }
}

/// The part of a directory name that is taken from the path: at most 24
/// characters of its last component, made safe.
pub open spec fn safe_base(exe: Seq<char>) -> Seq<char> {
    let b = base_of(exe);
    b.take(if b.len() < 24 {
        b.len() as int
    } else {
        24
    }).map_values(|c: char| safe(c))
}

/// The directory name for a path and its hash.
pub open spec fn dir_text(exe: Seq<char>, hash: u64) -> Seq<char> {
    safe_base(exe) + "-"@ + right_aligned(
        numeral((hash % 0x1_0000_0000) as nat, 16),
        8,
        '0',
    )
}

/// Make a directory name from a path and its hash: the last component of the
/// path, made safe, and the low half of the hash.
pub fn dir_name(exe: &str, hash: u64) -> (r: String)
    ensures
        r@ == dir_text(exe@, hash),
{
    let base: Vec<char> = chars(basename(exe).as_str());
    let n: usize = if base.len() < 24 {
        base.len()
    } else {
        24
    };
    let mut r: String = String::new();
    assert(r@ =~= safe_base(exe@).take(0));
    for i in 0..n
        invariant
            base@ == base_of(exe@),
            n <= base@.len(),
            n == safe_base(exe@).len(),
            r@ == safe_base(exe@).take(i as int),
    {
        let c: char = base[i];
        let keep: bool = ('a' <= c && c <= 'z') || ('A' <= c && c <= 'Z') || ('0' <= c && c <= '9')
            || c == '-' || c == '_';
        r.push(if keep {
            c
        } else {
            '_'
        });
        assert(r@ =~= safe_base(exe@).take(i + 1));
    }
    assert(r@ =~= safe_base(exe@));
    r.append("-");
    let h: String = pad_left(hex(hash % 0x1_0000_0000).as_str(), 8, '0');
    r.append(h.as_str());
    r
}

/// The directory name of the group of an application: stable for a path, and safe
/// as a file name.
pub fn sanitize_dir(exe: &str) -> (r: String)
    ensures
        r@ == dir_text(exe@, path_hash(exe@)),
{
    dir_name(exe, hash_path(exe))
}

proof fn lemma_hex_digits(n: nat)
    ensures
        forall|i: int|
            0 <= i < numeral(n, 16).len() ==> is_safe(#[trigger] numeral(n, 16)[i]),
    decreases n,
{
    let s = numeral(n, 16);
    if n < 16 {
        assert(s =~= seq![digit(n as int)]);
        assert(is_safe(digit(n as int)));
    } else {
        lemma_hex_digits(n / 16);
        let d = digit((n % 16) as int);
        assert(is_safe(d));
        assert(s == numeral(n / 16, 16).push(d));
        assert forall|i: int| 0 <= i < s.len() implies is_safe(#[trigger] s[i]) by {
            if i < s.len() - 1 {
                assert(s[i] == numeral(n / 16, 16)[i]);
            }
        }
    }
}

/// The name of a group holds letters, digits, hyphens and underscores only, so it
/// is one directory and not a path, whatever the path of the application holds.
pub proof fn law_dir_is_safe(exe: Seq<char>, hash: u64)
    ensures
        forall|i: int| 0 <= i < dir_text(exe, hash).len() ==> is_safe(#[trigger] dir_text(exe, hash)[i]),
        dir_text(exe, hash).len() >= 9,
{
    reveal_strlit("-");
    let n = (hash % 0x1_0000_0000) as nat;
    lemma_hex_digits(n);
    let b = safe_base(exe);
    let h = right_aligned(numeral(n, 16), 8, '0');
    let d = dir_text(exe, hash);
    assert forall|i: int| 0 <= i < d.len() implies is_safe(#[trigger] d[i]) by {
        if i < b.len() {
            assert(d[i] == b[i]);
        } else if i == b.len() {
            assert(d[i] == '-');
        } else {
            let k = i - b.len() - 1;
            assert(d[i] == h[k]);
            let z = h.len() - numeral(n, 16).len();
            if k < z {
                assert(h[k] == '0');
            } else {
                assert(h[k] == numeral(n, 16)[k - z]);
            }
        }
    }
}

proof fn lemma_low_half(n: nat)
    requires
        n < 0x1_0000_0000,
    ensures
        right_aligned(numeral(n, 16), 8, '0').len() == 8,
        digits_value(right_aligned(numeral(n, 16), 8, '0'), 16) == n,
{
    lemma_numeral_value(n, 16);
    reveal_with_fuel(numeral, 9);
    assert(numeral(n, 16).len() <= 8);
    lemma_leading_zeros(copies('0', 8 - numeral(n, 16).len()), numeral(n, 16), 16);
}

/// Two applications share a group name only if the safe parts of their paths agree and
/// the low halves of their hashes do. Paths that differ in either never collide.
pub proof fn law_names_differ(a: Seq<char>, ha: u64, b: Seq<char>, hb: u64)
    ensures
        dir_text(a, ha) == dir_text(b, hb) <==> safe_base(a) == safe_base(b) && ha % 0x1_0000_0000
            == hb % 0x1_0000_0000,
{
    reveal_strlit("-");
    let (x, y) = ((ha % 0x1_0000_0000) as nat, (hb % 0x1_0000_0000) as nat);
    lemma_low_half(x);
    lemma_low_half(y);
    if dir_text(a, ha) == dir_text(b, hb) {
        let s = dir_text(a, ha);
        let n = s.len() as int;
        assert(s.skip(n - 8) =~= right_aligned(numeral(x, 16), 8, '0'));
        assert(dir_text(b, hb).skip(n - 8) =~= right_aligned(numeral(y, 16), 8, '0'));
        assert(s.take(n - 9) =~= safe_base(a));
        assert(dir_text(b, hb).take(n - 9) =~= safe_base(b));
    }
}

/// The name of a group begins with the last component of the path, of which letters,
/// digits, dashes and underscores are kept and all others are replaced, up to 24
/// characters. A dash and eight hexadecimal digits follow, which are the low half of the
/// hash.
pub proof fn law_group_name_parts(exe: Seq<char>, hash: u64, i: int)
    ensures
        ({
            let b = base_of(exe);
            let n: int = if b.len() < 24 {
                b.len() as int
            } else {
                24
            };
            let d = dir_text(exe, hash);
            &&& d.len() == n + 9
            &&& d[n] == '-'
            &&& 0 <= i < n && ('a' <= b[i] <= 'z' || 'A' <= b[i] <= 'Z' || '0' <= b[i] <= '9'
                || b[i] == '-' || b[i] == '_') ==> d[i] == b[i]
            &&& 0 <= i < n && !('a' <= b[i] <= 'z' || 'A' <= b[i] <= 'Z' || '0' <= b[i] <= '9'
                || b[i] == '-' || b[i] == '_') ==> d[i] == '_'
            &&& digits_value(d.skip(n + 1), 16) == hash % 0x1_0000_0000
        }),
{
    reveal_strlit("-");
    let b = base_of(exe);
    let n: int = if b.len() < 24 {
        b.len() as int
    } else {
        24
    };
    let low = (hash % 0x1_0000_0000) as nat;
    lemma_numeral_value(low, 16);
    lemma_low_half(low);
    let h = numeral(low, 16);
    let zeros = copies('0', 8 - h.len());
    lemma_leading_zeros(zeros, h, 16);
    let d = dir_text(exe, hash);
    assert(d.skip(n + 1) =~= zeros + h);
}

} // verus!
