//! Rates as people write them, such as `10mbit` or `2MB`.

use vstd::prelude::*;

use crate::binary64::binary64;
use crate::decimal::{
    denominator, is_nonzero, law_signs_are_read, law_whole_eighths_are_exact,
    law_whole_numbers_are_exact, numerator, read_number, signed_number, whole, whole_product,
    Magnitude, Number,
};
use crate::number::{decimal, digit_value, lemma_numeral_value};
use crate::text::{
    chars, ends_with, find, is_space, lemma_find, strip_suffix, trim, trim_end, trim_start,
};

verus! {

/// Why a text is no rate.
#[derive(Debug, Clone, Copy, PartialEq, Eq, Structural)]
pub enum RateError {
    /// What stands before the unit is no number.
    InvalidNumber,
    /// The number before the unit is below zero.
    Negative,
    /// There is no unit, and the text is no number.
    Unrecognized,
}

impl RateError {
    /// What is said of the text.
    pub open spec fn text(self, s: Seq<char>) -> Seq<char> {
        match self {
            RateError::InvalidNumber => "invalid number in rate '"@ + s + "'"@,
            RateError::Negative => "rate cannot be negative: '"@ + s + "'"@,
            RateError::Unrecognized => "unrecognized rate '"@ + s + "' (try e.g. 10mbit, 2MB)"@,
        }
    }

    /// Say why the text is no rate.
    pub fn message(&self, s: &str) -> (r: String)
        ensures
            r@ == self.text(s@),
    {
        let (head, tail): (&str, &str) = match self {
            RateError::InvalidNumber => ("invalid number in rate '", "'"),
            RateError::Negative => ("rate cannot be negative: '", "'"),
            RateError::Unrecognized => ("unrecognized rate '", "' (try e.g. 10mbit, 2MB)"),
        };
        let mut r: String = head.to_string();
        r.append(s);
        r.append(tail);
        r
    }
}

/// A character in lower case, where it is an ASCII letter.
pub open spec fn lower(c: char) -> char {
    if 'A' <= c <= 'Z' {
        (c as u32 + 32) as u8 as char
    } else {
        c
    }
}

/// Text in lower case and without spaces.
pub open spec fn squeezed(s: Seq<char>) -> Seq<char>
    decreases s.len(),
{
    if s.len() == 0 {
        Seq::empty()
    } else if s.last() == ' ' {
        squeezed(s.drop_last())
    } else {
        squeezed(s.drop_last()).push(lower(s.last()))
    }
}

/// A unit: its name, and the bytes per second that it stands for as
/// `factor * 2^shift`.
pub struct Unit {
    pub name: Seq<char>,
    pub factor: nat,
    pub shift: int,
}

/// The units, in the order in which they are tried: `mbit` before `bit`, and `mb`
/// before `b`.
pub open spec fn units() -> Seq<Unit> {
    seq![
        Unit { name: "gbit"@, factor: 125_000_000, shift: 0 },
        Unit { name: "mbit"@, factor: 125_000, shift: 0 },
        Unit { name: "kbit"@, factor: 125, shift: 0 },
        Unit { name: "bit"@, factor: 1, shift: -3 },
        Unit { name: "gbyte"@, factor: 0x4000_0000, shift: 0 },
        Unit { name: "mbyte"@, factor: 0x10_0000, shift: 0 },
        Unit { name: "kbyte"@, factor: 0x400, shift: 0 },
        Unit { name: "gb"@, factor: 0x4000_0000, shift: 0 },
        Unit { name: "mb"@, factor: 0x10_0000, shift: 0 },
        Unit { name: "kb"@, factor: 0x400, shift: 0 },
        Unit { name: "b"@, factor: 1, shift: 0 },
    ]
}

/// The first unit from the index `i` on that a text ends with.
pub open spec fn unit_of(t: Seq<char>, i: int) -> Option<Unit>
    decreases units().len() - i,
{
    if i < 0 || i >= units().len() {
        None
    } else if ends_with(t, units()[i].name) {
        Some(units()[i])
    } else {
        unit_of(t, i + 1)
    }
}

/// The rate for a number in front of a unit.
pub open spec fn rate_in(number: Option<(bool, Magnitude)>, u: Unit) -> Result<u64, RateError> {
    match number {
        None => Err(RateError::InvalidNumber),
        Some((negative, Magnitude::Nan)) => Ok(0),
        Some((negative, Magnitude::Infinite)) => if negative {
            Err(RateError::Negative)
        } else {
            Ok(u64::MAX)
        },
        Some((negative, Magnitude::Finite { digits, exp })) => {
            let num = numerator(digits, exp);
            let den = denominator(exp);
            if negative && is_nonzero(num, den) {
                Err(RateError::Negative)
            } else {
                Ok(whole_product(num, den, u.factor, u.shift))
            }
        },
    }
}

/// The rate for a number without unit, in bytes per second. Below zero it is zero.
pub open spec fn bare_rate(number: Option<(bool, Magnitude)>) -> Result<u64, RateError> {
    match number {
        None => Err(RateError::Unrecognized),
        Some((negative, Magnitude::Nan)) => Ok(0),
        Some((negative, Magnitude::Infinite)) => if negative {
            Ok(0)
        } else {
            Ok(u64::MAX)
        },
        Some((negative, Magnitude::Finite { digits, exp })) => if negative {
            Ok(0)
        } else {
            Ok(whole(numerator(digits, exp), denominator(exp)))
        },
    }
}

/// The rate that a text stands for. Numbers are rounded to the binary64 format,
/// and so is their product with the unit; of that the integer part counts.
pub open spec fn rate_of(s: Seq<char>) -> Result<u64, RateError> {
    let t = squeezed(trim_end(trim_start(s)));
    match unit_of(t, 0) {
        Some(u) => rate_in(signed_number(t.take(t.len() - u.name.len())), u),
        None => bare_rate(signed_number(t)),
    }
}

fn lower_char(c: char) -> (r: char)
    ensures
        r == lower(c),
{
    if 'A' <= c && c <= 'Z' {
        (c as u32 + 32) as u8 as char
    } else {
        c
    }
}

fn squeeze(s: &str) -> (r: String)
    ensures
        r@ == squeezed(s@),
{
    let v: Vec<char> = chars(s);
    let mut r: String = String::new();
    assert(r@ =~= Seq::<char>::empty());
    assert(v@.take(0) =~= Seq::<char>::empty());
    for i in 0..v.len()
        invariant
            r@ == squeezed(v@.take(i as int)),
    {
        assert(v@.take(i + 1).drop_last() =~= v@.take(i as int));
        if v[i] != ' ' {
            r.push(lower_char(v[i]));
        }
    }
    assert(v@.take(v@.len() as int) =~= v@);
    r
}

fn unit_at(i: usize) -> (r: (&'static str, u32, i64))
    requires
        i < 11,
    ensures
        r.0@ == units()[i as int].name,
        r.1 == units()[i as int].factor,
        r.2 == units()[i as int].shift,
        1 <= r.1 <= 0x4000_0000,
        -3 <= r.2 <= 0,
{
    if i == 0 {
        ("gbit", 125_000_000, 0)
    } else if i == 1 {
        ("mbit", 125_000, 0)
    } else if i == 2 {
        ("kbit", 125, 0)
    } else if i == 3 {
        ("bit", 1, -3)
    } else if i == 4 {
        ("gbyte", 0x4000_0000, 0)
    } else if i == 5 {
        ("mbyte", 0x10_0000, 0)
    } else if i == 6 {
        ("kbyte", 0x400, 0)
    } else if i == 7 {
        ("gb", 0x4000_0000, 0)
    } else if i == 8 {
        ("mb", 0x10_0000, 0)
    } else if i == 9 {
        ("kb", 0x400, 0)
    } else {
        ("b", 1, 0)
    }
}

fn in_unit(number: &str, factor: u32, shift: i64) -> (r: Result<u64, RateError>)
    requires
        1 <= factor <= 0x4000_0000,
        -3 <= shift <= 0,
    ensures
        forall|u: Unit|
            u.factor == factor && u.shift == shift ==> r == #[trigger] rate_in(
                signed_number(number@),
                u,
            ),
{
    match read_number(number) {
        None => Err(RateError::InvalidNumber),
        Some((_, Number::Nan)) => Ok(0),
        Some((negative, Number::Infinite)) => if negative {
            Err(RateError::Negative)
        } else {
            Ok(u64::MAX)
        },
        Some((negative, Number::Finite(d))) => {
            if negative && d.nonzero() {
                Err(RateError::Negative)
            } else {
                Ok(d.whole_part_of_product(factor, shift))
            }
        },
    }
}

fn without_unit(number: &str) -> (r: Result<u64, RateError>)
    ensures
        r == bare_rate(signed_number(number@)),
{
    match read_number(number) {
        None => Err(RateError::Unrecognized),
        Some((_, Number::Nan)) => Ok(0),
        Some((negative, Number::Infinite)) => if negative {
            Ok(0)
        } else {
            Ok(u64::MAX)
        },
        Some((negative, Number::Finite(d))) => if negative {
            Ok(0)
        } else {
            Ok(d.whole_part())
        },
    }
}

/// Parse a rate into bytes per second.
///
/// Accepts bit units (`kbit`, `mbit`, `gbit`) and byte units (`kb` or `kbyte`,
/// `mb` or `mbyte`, `gb` or `gbyte`); a bare number is bytes per second. Letters
/// may be in either case, and spaces may stand anywhere: `10mbit` is 1250000 and
/// `2MB` is 2097152.
pub fn parse_rate(s: &str) -> (r: Result<u64, RateError>)
    ensures
        r == rate_of(s@),
{
    let t: String = squeeze(trim(s).as_str());
    for i in 0..11
        invariant
            t@ == squeezed(trim_end(trim_start(s@))),
            unit_of(t@, 0) == unit_of(t@, i as int),
    {
        let (name, factor, shift) = unit_at(i);
        match strip_suffix(t.as_str(), name) {
            Some(number) => {
                assert(unit_of(t@, i as int) == Some(units()[i as int]));
                return in_unit(number.as_str(), factor, shift);
            },
            None => {},
        }
    }
    without_unit(t.as_str())
}

// ---- Laws --------------------------------------------------------------------

proof fn lemma_case_trim_start(a: Seq<char>, b: Seq<char>)
    requires
        a.len() == b.len(),
        forall|i: int| 0 <= i < a.len() ==> lower(#[trigger] a[i]) == lower(b[i]),
    ensures
        trim_start(a).len() == trim_start(b).len(),
        forall|i: int|
            0 <= i < trim_start(a).len() ==> lower(#[trigger] trim_start(a)[i]) == lower(
                trim_start(b)[i],
            ),
    decreases a.len(),
{
    if a.len() > 0 {
        assert(lower(a[0]) == lower(b[0]));
        assert(is_space(a[0]) == is_space(b[0]));
        if is_space(a[0]) {
            assert forall|i: int| 0 <= i < a.skip(1).len() implies lower(#[trigger] a.skip(1)[i])
                == lower(b.skip(1)[i]) by {
                assert(lower(a[i + 1]) == lower(b[i + 1]));
            }
            lemma_case_trim_start(a.skip(1), b.skip(1));
        }
    }
}

proof fn lemma_case_trim_end(a: Seq<char>, b: Seq<char>)
    requires
        a.len() == b.len(),
        forall|i: int| 0 <= i < a.len() ==> lower(#[trigger] a[i]) == lower(b[i]),
    ensures
        trim_end(a).len() == trim_end(b).len(),
        forall|i: int|
            0 <= i < trim_end(a).len() ==> lower(#[trigger] trim_end(a)[i]) == lower(
                trim_end(b)[i],
            ),
    decreases a.len(),
{
    if a.len() > 0 {
        let n = a.len() - 1;
        assert(lower(a[n]) == lower(b[n]));
        assert(is_space(a[n]) == is_space(b[n]));
        if is_space(a[n]) {
            assert forall|i: int| 0 <= i < a.drop_last().len() implies lower(
                #[trigger] a.drop_last()[i],
            ) == lower(b.drop_last()[i]) by {
                assert(lower(a[i]) == lower(b[i]));
            }
            lemma_case_trim_end(a.drop_last(), b.drop_last());
        }
    }
}

proof fn lemma_case_squeeze(a: Seq<char>, b: Seq<char>)
    requires
        a.len() == b.len(),
        forall|i: int| 0 <= i < a.len() ==> lower(#[trigger] a[i]) == lower(b[i]),
    ensures
        squeezed(a) == squeezed(b),
    decreases a.len(),
{
    if a.len() > 0 {
        let n = a.len() - 1;
        assert(lower(a[n]) == lower(b[n]));
        assert forall|i: int| 0 <= i < a.drop_last().len() implies lower(
            #[trigger] a.drop_last()[i],
        ) == lower(b.drop_last()[i]) by {
            assert(lower(a[i]) == lower(b[i]));
        }
        lemma_case_squeeze(a.drop_last(), b.drop_last());
    }
}

/// Letters may be in either case: texts that differ in nothing else stand for the
/// same rate.
pub proof fn law_case_is_ignored(a: Seq<char>, b: Seq<char>)
    requires
        a.len() == b.len(),
        forall|i: int| 0 <= i < a.len() ==> lower(#[trigger] a[i]) == lower(b[i]),
    ensures
        rate_of(a) == rate_of(b),
{
    lemma_case_trim_start(a, b);
    lemma_case_trim_end(trim_start(a), trim_start(b));
    lemma_case_squeeze(trim_end(trim_start(a)), trim_end(trim_start(b)));
}

/// Whether a text is white space throughout.
spec fn all_space(s: Seq<char>) -> bool {
    forall|i: int| 0 <= i < s.len() ==> is_space(#[trigger] s[i])
}

proof fn lemma_trim_start_concat(a: Seq<char>, b: Seq<char>)
    ensures
        all_space(a) ==> trim_start(a + b) == trim_start(b),
        !all_space(a) ==> trim_start(a + b) == trim_start(a) + b,
        !all_space(a) ==> trim_start(a).len() > 0 && !all_space(trim_start(a)),
    decreases a.len(),
{
    if a.len() == 0 {
        assert(a + b =~= b);
    } else {
        assert((a + b)[0] == a[0]);
        assert((a + b).skip(1) =~= a.skip(1) + b);
        if is_space(a[0]) {
            lemma_trim_start_concat(a.skip(1), b);
            if all_space(a) {
                assert forall|i: int| 0 <= i < a.skip(1).len() implies is_space(
                    #[trigger] a.skip(1)[i],
                ) by {
                    assert(is_space(a[i + 1]));
                }
            }
            if all_space(a.skip(1)) {
                assert forall|i: int| 0 <= i < a.len() implies is_space(#[trigger] a[i]) by {
                    if i > 0 {
                        assert(is_space(a.skip(1)[i - 1]));
                    }
                }
            }
        } else {
            assert(!all_space(a));
        }
    }
}

proof fn lemma_trim_end_concat(a: Seq<char>, b: Seq<char>)
    ensures
        all_space(b) ==> trim_end(a + b) == trim_end(a),
        !all_space(b) ==> trim_end(a + b) == a + trim_end(b),
    decreases b.len(),
{
    if b.len() == 0 {
        assert(a + b =~= a);
    } else {
        let n = b.len() - 1;
        assert((a + b).last() == b[n]);
        assert((a + b).drop_last() =~= a + b.drop_last());
        if is_space(b[n]) {
            lemma_trim_end_concat(a, b.drop_last());
            if all_space(b) {
                assert forall|i: int| 0 <= i < b.drop_last().len() implies is_space(
                    #[trigger] b.drop_last()[i],
                ) by {
                    assert(is_space(b[i]));
                }
            }
            if all_space(b.drop_last()) {
                assert forall|i: int| 0 <= i < b.len() implies is_space(#[trigger] b[i]) by {
                    if i < n {
                        assert(is_space(b.drop_last()[i]));
                    }
                }
            }
        } else {
            assert(!all_space(b));
        }
    }
}

proof fn lemma_squeeze_concat(a: Seq<char>, b: Seq<char>)
    ensures
        squeezed(a + b) == squeezed(a) + squeezed(b),
    decreases b.len(),
{
    if b.len() == 0 {
        assert(a + b =~= a);
        assert(squeezed(a) + squeezed(b) =~= squeezed(a));
    } else {
        lemma_squeeze_concat(a, b.drop_last());
        assert((a + b).drop_last() =~= a + b.drop_last());
        assert((a + b).last() == b.last());
        assert(squeezed(a + b) =~= squeezed(a) + squeezed(b));
    }
}

/// What is left of a text after trimming and squeezing, from that of its halves.
proof fn lemma_trimmed(x: Seq<char>, b: Seq<char>)
    ensures
        squeezed(trim_end(x + seq![' '] + b)) == squeezed(trim_end(x + b)),
{
    let gap = seq![' '];
    assert(squeezed(gap) =~= Seq::<char>::empty()) by {
        reveal_with_fuel(squeezed, 3);
        assert(gap.last() == ' ');
        assert(gap.drop_last() =~= Seq::<char>::empty());
    }
    lemma_trim_end_concat(x + gap, b);
    lemma_trim_end_concat(x, b);
    if all_space(b) {
        assert(all_space(gap));
        lemma_trim_end_concat(x, gap);
    } else {
        lemma_squeeze_concat(x + gap, trim_end(b));
        lemma_squeeze_concat(x, gap);
        lemma_squeeze_concat(x, trim_end(b));
        assert(squeezed(x) + squeezed(gap) =~= squeezed(x));
    }
}

/// Spaces may stand anywhere: one more changes nothing.
pub proof fn law_spaces_are_ignored(a: Seq<char>, b: Seq<char>)
    ensures
        rate_of(a + seq![' '] + b) == rate_of(a + b),
{
    let gap = seq![' '];
    assert(a + gap + b =~= a + (gap + b));
    lemma_trim_start_concat(a, gap + b);
    lemma_trim_start_concat(a, b);
    if all_space(a) {
        assert(all_space(gap));
        lemma_trim_start_concat(gap, b);
    } else {
        let x = trim_start(a);
        assert(x + (gap + b) =~= x + gap + b);
        lemma_trimmed(x, b);
    }
}

proof fn lemma_digits_of(n: nat)
    ensures
        decimal(n).len() > 0,
        forall|i: int| 0 <= i < decimal(n).len() ==> '0' <= #[trigger] decimal(n)[i] <= '9',
{
    lemma_numeral_value(n, 10);
    let d = decimal(n);
    assert forall|i: int| 0 <= i < d.len() implies '0' <= #[trigger] d[i] <= '9' by {
        assert(digit_value(d[i]) is Some && digit_value(d[i])->0 < 10);
    }
}

/// Text of digits, small letters and dashes is taken as it stands.
proof fn lemma_plain(s: Seq<char>)
    requires
        forall|i: int|
            0 <= i < s.len() ==> '0' <= #[trigger] s[i] <= '9' || 'a' <= s[i] <= 'z' || s[i]
                == '-',
    ensures
        trim_end(trim_start(s)) == s,
        squeezed(s) == s,
    decreases s.len(),
{
    if s.len() > 0 {
        let h = s.drop_last();
        assert('0' <= s[0] <= '9' || 'a' <= s[0] <= 'z' || s[0] == '-');
        assert('0' <= s.last() <= '9' || 'a' <= s.last() <= 'z' || s.last() == '-');
        assert forall|i: int| 0 <= i < h.len() implies '0' <= #[trigger] h[i] <= '9' || 'a' <= h[i]
            <= 'z' || h[i] == '-' by {
            assert(h[i] == s[i]);
        }
        lemma_plain(h);
        assert(h.push(s.last()) =~= s);
    }
}

proof fn lemma_unit_name(i: int)
    requires
        0 <= i < units().len(),
    ensures
        i == 0 ==> units()[i].name == seq!['g', 'b', 'i', 't'],
        i == 1 ==> units()[i].name == seq!['m', 'b', 'i', 't'],
        i == 2 ==> units()[i].name == seq!['k', 'b', 'i', 't'],
        i == 3 ==> units()[i].name == seq!['b', 'i', 't'],
        i == 4 ==> units()[i].name == seq!['g', 'b', 'y', 't', 'e'],
        i == 5 ==> units()[i].name == seq!['m', 'b', 'y', 't', 'e'],
        i == 6 ==> units()[i].name == seq!['k', 'b', 'y', 't', 'e'],
        i == 7 ==> units()[i].name == seq!['g', 'b'],
        i == 8 ==> units()[i].name == seq!['m', 'b'],
        i == 9 ==> units()[i].name == seq!['k', 'b'],
        i == 10 ==> units()[i].name == seq!['b'],
{
    reveal_strlit("gbit");
    reveal_strlit("mbit");
    reveal_strlit("kbit");
    reveal_strlit("bit");
    reveal_strlit("gbyte");
    reveal_strlit("mbyte");
    reveal_strlit("kbyte");
    reveal_strlit("gb");
    reveal_strlit("mb");
    reveal_strlit("kb");
    reveal_strlit("b");
    assert("gbit"@ =~= seq!['g', 'b', 'i', 't']);
    assert("mbit"@ =~= seq!['m', 'b', 'i', 't']);
    assert("kbit"@ =~= seq!['k', 'b', 'i', 't']);
    assert("bit"@ =~= seq!['b', 'i', 't']);
    assert("gbyte"@ =~= seq!['g', 'b', 'y', 't', 'e']);
    assert("mbyte"@ =~= seq!['m', 'b', 'y', 't', 'e']);
    assert("kbyte"@ =~= seq!['k', 'b', 'y', 't', 'e']);
    assert("gb"@ =~= seq!['g', 'b']);
    assert("mb"@ =~= seq!['m', 'b']);
    assert("kb"@ =~= seq!['k', 'b']);
    assert("b"@ =~= seq!['b']);
}

proof fn lemma_unit_names()
    ensures
        forall|i: int, x: int|
            #![trigger units()[i].name[x]]
            0 <= i < units().len() && 0 <= x < units()[i].name.len() ==> 'a' <= units()[i].name[x]
                <= 'z',
        forall|i: int| 0 <= i < units().len() ==> 1 <= (#[trigger] units()[i]).name.len() <= 5,
{
    assert forall|i: int| 0 <= i < units().len() implies 1 <= (#[trigger] units()[i]).name.len()
        <= 5 by {
        lemma_unit_name(i);
    }
    assert forall|i: int, x: int|
        #![trigger units()[i].name[x]]
        0 <= i < units().len() && 0 <= x < units()[i].name.len() implies 'a' <= units()[i].name[x]
        <= 'z' by {
        lemma_unit_name(i);
    }
}

/// The last characters of a text with a given ending.
proof fn lemma_ending(s: Seq<char>, e: Seq<char>)
    requires
        ends_with(s, e),
    ensures
        e.len() >= 1 ==> s[s.len() - 1] == e[e.len() - 1],
        e.len() >= 2 ==> s[s.len() - 2] == e[e.len() - 2],
        e.len() >= 3 ==> s[s.len() - 3] == e[e.len() - 3],
        e.len() >= 4 ==> s[s.len() - 4] == e[e.len() - 4],
{
    let t = s.skip(s.len() - e.len());
    let n = e.len();
    if n >= 1 {
        assert(t[n - 1] == s[s.len() - 1]);
    }
    if n >= 2 {
        assert(t[n - 2] == s[s.len() - 2]);
    }
    if n >= 3 {
        assert(t[n - 3] == s[s.len() - 3]);
    }
    if n >= 4 {
        assert(t[n - 4] == s[s.len() - 4]);
    }
}

/// A unit after a digit is not taken for one that is tried before it.
proof fn lemma_unit_is_clear(d: Seq<char>, i: int, j: int)
    requires
        d.len() > 0,
        '0' <= d.last() <= '9',
        0 <= j < i < units().len(),
    ensures
        !ends_with(d + units()[i].name, units()[j].name),
{
    lemma_unit_name(i);
    lemma_unit_name(j);
    let u = units()[i].name;
    let s = d + u;
    if ends_with(s, units()[j].name) {
        lemma_ending(s, units()[j].name);
        let n = s.len() as int;
        let k = u.len() as int;
        assert(s[n - 1] == u[k - 1]);
        assert(k >= 2 ==> s[n - 2] == u[k - 2]);
        assert(k >= 3 ==> s[n - 3] == u[k - 3]);
        assert(k >= 4 ==> s[n - 4] == u[k - 4]);
        assert(s[n - k - 1] == d.last());
    }
}

proof fn lemma_unit_found(t: Seq<char>, i: int, from: int)
    requires
        0 <= from <= i < units().len(),
        ends_with(t, units()[i].name),
        forall|j: int| 0 <= j < i ==> !ends_with(t, (#[trigger] units()[j]).name),
    ensures
        unit_of(t, from) == Some(units()[i]),
    decreases i - from,
{
    if from < i {
        assert(!ends_with(t, units()[from].name));
        lemma_unit_found(t, i, from + 1);
    }
}

/// Digits are read as the number that they spell.
proof fn lemma_number_of_digits(n: nat)
    ensures
        signed_number(decimal(n)) == Some((false, Magnitude::Finite { digits: decimal(n), exp: 0 })),
        numerator(decimal(n), 0) == n,
        denominator(0) == 1,
{
    let d = decimal(n);
    lemma_digits_of(n);
    lemma_numeral_value(n, 10);
    lemma_find(d, 'e');
    lemma_find(d, '.');
    assert('0' <= d[0] <= '9');
    reveal_strlit("nan");
    reveal_strlit("inf");
    reveal_strlit("infinity");
    if find(d, 'e') < d.len() {
        assert('0' <= d[find(d, 'e')] <= '9');
    }
    if find(d, '.') < d.len() {
        assert('0' <= d[find(d, '.')] <= '9');
    }
    assert(n * 1 == n) by (nonlinear_arith);
}

/// A whole number in front of a unit is exactly that many units, of which the
/// integer part counts, as long as it has at most 53 bits.
pub proof fn law_whole_rates_are_exact(n: nat, i: int)
    requires
        0 <= i < units().len(),
        n * units()[i].factor < 0x20_0000_0000_0000,
    ensures
        rate_of(decimal(n) + units()[i].name) == Ok::<u64, RateError>(
            (if units()[i].shift == 0 {
                n * units()[i].factor
            } else {
                n * units()[i].factor / 8
            }) as u64,
        ),
{
    let d = decimal(n);
    let u = units()[i];
    let t = d + u.name;
    lemma_digits_of(n);
    lemma_unit_names();
    assert forall|x: int| 0 <= x < t.len() implies '0' <= #[trigger] t[x] <= '9' || 'a' <= t[x]
        <= 'z' by {
        if x < d.len() {
            assert(t[x] == d[x]);
        } else {
            assert(t[x] == units()[i].name[x - d.len()]);
        }
    }
    lemma_plain(t);
    assert(t.skip(t.len() - u.name.len()) =~= u.name);
    assert forall|j: int| 0 <= j < i implies !ends_with(t, (#[trigger] units()[j]).name) by {
        assert('0' <= d[d.len() - 1] <= '9');
        lemma_unit_is_clear(d, i, j);
    }
    lemma_unit_found(t, i, 0);
    assert(t.take(t.len() - u.name.len()) =~= d);
    lemma_number_of_digits(n);
    if u.shift == 0 {
        law_whole_numbers_are_exact(n, u.factor);
    } else {
        assert(i == 3);
        assert(n * 1 == n) by (nonlinear_arith);
        law_whole_eighths_are_exact(n);
    }
}

/// A whole number without a unit is that many bytes per second, as long as it has
/// at most 53 bits.
pub proof fn law_bare_rates_are_exact(n: nat)
    requires
        n < 0x20_0000_0000_0000,
    ensures
        rate_of(decimal(n)) == Ok::<u64, RateError>(n as u64),
{
    let d = decimal(n);
    lemma_digits_of(n);
    lemma_plain(d);
    lemma_unit_names();
    assert('0' <= d[d.len() - 1] <= '9');
    assert forall|j: int| 0 <= j < units().len() implies !ends_with(
        d,
        (#[trigger] units()[j]).name,
    ) by {
        let e = units()[j].name;
        if ends_with(d, e) {
            lemma_ending(d, e);
            assert('a' <= units()[j].name[e.len() - 1] <= 'z');
        }
    }
    lemma_no_unit(d, 0);
    lemma_number_of_digits(n);
    assert(n * 1 == n) by (nonlinear_arith);
    law_whole_numbers_are_exact(n, 1);
}

proof fn lemma_no_unit(t: Seq<char>, from: int)
    requires
        0 <= from <= units().len(),
        forall|j: int| 0 <= j < units().len() ==> !ends_with(t, (#[trigger] units()[j]).name),
    ensures
        unit_of(t, from) is None,
    decreases units().len() - from,
{
    if from < units().len() {
        assert(!ends_with(t, units()[from].name));
        lemma_no_unit(t, from + 1);
    }
}

/// Bits are told by `bit`, come in powers of a thousand, and eight of them make a byte.
pub proof fn law_units_of_bits(n: nat)
    ensures
        n * 125_000_000 < 0x20_0000_0000_0000 ==> rate_of(decimal(n) + "gbit"@) == Ok::<u64, RateError>(
            (n * 125_000_000) as u64,
        ),
        n * 125_000 < 0x20_0000_0000_0000 ==> rate_of(decimal(n) + "mbit"@) == Ok::<u64, RateError>(
            (n * 125_000) as u64,
        ),
        n * 125 < 0x20_0000_0000_0000 ==> rate_of(decimal(n) + "kbit"@) == Ok::<u64, RateError>(
            (n * 125) as u64,
        ),
        n < 0x20_0000_0000_0000 ==> rate_of(decimal(n) + "bit"@) == Ok::<u64, RateError>(
            (n / 8) as u64,
        ),
{
    assert(n * 1 == n) by (nonlinear_arith);
    if n * 125_000_000 < 0x20_0000_0000_0000 {
        lemma_rate_in_unit(n, 0, "gbit"@, 125_000_000);
    }
    if n * 125_000 < 0x20_0000_0000_0000 {
        lemma_rate_in_unit(n, 1, "mbit"@, 125_000);
    }
    if n * 125 < 0x20_0000_0000_0000 {
        lemma_rate_in_unit(n, 2, "kbit"@, 125);
    }
    if n < 0x20_0000_0000_0000 {
        lemma_rate_in_unit(n, 3, "bit"@, 1);
    }
}

/// Bytes are told by `byte`, and come in powers of 1024.
pub proof fn law_units_of_bytes(n: nat)
    ensures
        n * 0x4000_0000 < 0x20_0000_0000_0000 ==> rate_of(decimal(n) + "gbyte"@) == Ok::<u64, RateError>(
            (n * 0x4000_0000) as u64,
        ),
        n * 0x10_0000 < 0x20_0000_0000_0000 ==> rate_of(decimal(n) + "mbyte"@) == Ok::<u64, RateError>(
            (n * 0x10_0000) as u64,
        ),
        n * 0x400 < 0x20_0000_0000_0000 ==> rate_of(decimal(n) + "kbyte"@) == Ok::<u64, RateError>(
            (n * 0x400) as u64,
        ),
{
    assert(n * 1 == n) by (nonlinear_arith);
    if n * 0x4000_0000 < 0x20_0000_0000_0000 {
        lemma_rate_in_unit(n, 4, "gbyte"@, 0x4000_0000);
    }
    if n * 0x10_0000 < 0x20_0000_0000_0000 {
        lemma_rate_in_unit(n, 5, "mbyte"@, 0x10_0000);
    }
    if n * 0x400 < 0x20_0000_0000_0000 {
        lemma_rate_in_unit(n, 6, "kbyte"@, 0x400);
    }
}

/// Bytes are told by `b` as well.
pub proof fn law_short_units_of_bytes(n: nat)
    ensures
        n * 0x4000_0000 < 0x20_0000_0000_0000 ==> rate_of(decimal(n) + "gb"@) == Ok::<u64, RateError>(
            (n * 0x4000_0000) as u64,
        ),
        n * 0x10_0000 < 0x20_0000_0000_0000 ==> rate_of(decimal(n) + "mb"@) == Ok::<u64, RateError>(
            (n * 0x10_0000) as u64,
        ),
        n * 0x400 < 0x20_0000_0000_0000 ==> rate_of(decimal(n) + "kb"@) == Ok::<u64, RateError>(
            (n * 0x400) as u64,
        ),
        n < 0x20_0000_0000_0000 ==> rate_of(decimal(n) + "b"@) == Ok::<u64, RateError>(
            n as u64,
        ),
{
    assert(n * 1 == n) by (nonlinear_arith);
    if n * 0x4000_0000 < 0x20_0000_0000_0000 {
        lemma_rate_in_unit(n, 7, "gb"@, 0x4000_0000);
    }
    if n * 0x10_0000 < 0x20_0000_0000_0000 {
        lemma_rate_in_unit(n, 8, "mb"@, 0x10_0000);
    }
    if n * 0x400 < 0x20_0000_0000_0000 {
        lemma_rate_in_unit(n, 9, "kb"@, 0x400);
    }
    if n < 0x20_0000_0000_0000 {
        lemma_rate_in_unit(n, 10, "b"@, 1);
    }
}

proof fn lemma_rate_in_unit(n: nat, i: int, name: Seq<char>, factor: nat)
    requires
        0 <= i < units().len(),
        units()[i].name == name,
        units()[i].factor == factor,
        n * factor < 0x20_0000_0000_0000,
    ensures
        rate_of(decimal(n) + name) == Ok::<u64, RateError>(
            (if units()[i].shift == 0 {
                n * factor
            } else {
                n * factor / 8
            }) as u64,
        ),
{
    law_whole_rates_are_exact(n, i);
}

/// A number below zero in front of a unit is no rate.
pub proof fn law_negative_rates_are_refused(n: nat, i: int)
    requires
        0 <= i < units().len(),
        0 < n < 0x20_0000_0000_0000,
    ensures
        rate_of(seq!['-'] + decimal(n) + units()[i].name) == Err::<u64, RateError>(
            RateError::Negative,
        ),
{
    let d = decimal(n);
    let s = seq!['-'] + d;
    let u = units()[i];
    let t = s + u.name;
    lemma_digits_of(n);
    lemma_unit_names();
    assert forall|x: int| 0 <= x < t.len() implies '0' <= #[trigger] t[x] <= '9' || 'a' <= t[x]
        <= 'z' || t[x] == '-' by {
        if x == 0 {
            assert(t[x] == '-');
        } else if x < s.len() {
            assert(t[x] == d[x - 1]);
        } else {
            assert(t[x] == units()[i].name[x - s.len()]);
        }
    }
    lemma_plain(t);
    assert(t.skip(t.len() - u.name.len()) =~= u.name);
    assert forall|j: int| 0 <= j < i implies !ends_with(t, (#[trigger] units()[j]).name) by {
        assert(s.last() == d[d.len() - 1]);
        assert('0' <= d[d.len() - 1] <= '9');
        lemma_unit_is_clear(s, i, j);
    }
    lemma_unit_found(t, i, 0);
    assert(t.take(t.len() - u.name.len()) =~= s);
    lemma_number_of_digits(n);
    assert('0' <= d[0] <= '9');
    law_signs_are_read(d);
    lemma_not_zero(n);
}

proof fn lemma_not_zero(n: nat)
    requires
        0 < n < 0x20_0000_0000_0000,
    ensures
        is_nonzero(n, 1),
{
    law_whole_numbers_are_exact(n, 1);
    assert(n * 1 == n) by (nonlinear_arith);
    if binary64(n, 1).0 == 0 {
        assert(whole_product(n, 1, 1, 0) == 0);
    }
}

/// What stands in front of a unit, or alone, must be a number. Alone, a number below zero
/// is no traffic at all.
pub proof fn law_rates_need_a_number(h: Seq<char>, i: int)
    requires
        0 <= i < units().len(),
        h.len() > 0,
        '0' <= h.last() <= '9',
        forall|x: int|
            0 <= x < h.len() ==> '0' <= #[trigger] h[x] <= '9' || 'a' <= h[x] <= 'z' || h[x]
                == '-',
    ensures
        signed_number(h) is None ==> rate_of(h + units()[i].name) == Err::<u64, RateError>(
            RateError::InvalidNumber,
        ),
        signed_number(h) is None ==> rate_of(h) == Err::<u64, RateError>(RateError::Unrecognized),
        signed_number(h) is Some && (signed_number(h)->0).0 ==> rate_of(h) == Ok::<u64, RateError>(
            0u64,
        ),
{
    let u = units()[i];
    let t = h + u.name;
    lemma_unit_names();
    assert forall|x: int| 0 <= x < t.len() implies '0' <= #[trigger] t[x] <= '9' || 'a' <= t[x]
        <= 'z' || t[x] == '-' by {
        if x < h.len() {
            assert(t[x] == h[x]);
        } else {
            assert(t[x] == units()[i].name[x - h.len()]);
        }
    }
    lemma_plain(t);
    lemma_plain(h);
    assert(t.skip(t.len() - u.name.len()) =~= u.name);
    assert forall|j: int| 0 <= j < i implies !ends_with(t, (#[trigger] units()[j]).name) by {
        lemma_unit_is_clear(h, i, j);
    }
    lemma_unit_found(t, i, 0);
    assert(t.take(t.len() - u.name.len()) =~= h);
    assert forall|j: int| 0 <= j < units().len() implies !ends_with(
        h,
        (#[trigger] units()[j]).name,
    ) by {
        let e = units()[j].name;
        if ends_with(h, e) {
            lemma_ending(h, e);
            assert('a' <= units()[j].name[e.len() - 1] <= 'z');
        }
    }
    lemma_no_unit(h, 0);
}

/// What is said of a text that is no rate repeats the text.
pub proof fn law_refusals_repeat_the_text(s: Seq<char>)
    ensures
        RateError::InvalidNumber.text(s) == "invalid number in rate '"@ + s + "'"@,
        RateError::Negative.text(s) == "rate cannot be negative: '"@ + s + "'"@,
        RateError::Unrecognized.text(s) == "unrecognized rate '"@ + s
            + "' (try e.g. 10mbit, 2MB)"@,
{
}

} // verus!
