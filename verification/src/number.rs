//! Unsigned integers as text: writing them in base ten and sixteen, and reading
//! them back.

use vstd::prelude::*;

use crate::text::chars;

verus! {

/// The digit of value `d`, for `d` below sixteen, letters in lower case.
pub open spec fn digit(d: int) -> char {
    if d < 10 {
        (48 + d) as char
    } else {
        (87 + d) as char
    }
}

/// `n` written in base `radix`, without leading zeros.
pub open spec fn numeral(n: nat, radix: nat) -> Seq<char>
    decreases n,
{
    if radix < 2 || n < radix {
        seq![digit(n as int)]
    } else {
        proof {
            assert(n / radix < n) by (nonlinear_arith)
                requires
                    n >= radix,
                    radix >= 2,
            ;
        }
        numeral(n / radix, radix).push(digit((n % radix) as int))
    }
}

/// `n` in base ten.
pub open spec fn decimal(n: nat) -> Seq<char> {
    numeral(n, 10)
}

fn digit_char(d: u64) -> (r: char)
    requires
        d < 16,
    ensures
        r == digit(d as int),
{
    let b: u8 = d as u8;
    if b < 10 {
        (48 + b) as char
    } else {
        (87 + b) as char
    }
}

fn push_numeral(out: &mut String, n: u64, radix: u64)
    requires
        2 <= radix <= 16,
    ensures
        final(out)@ == old(out)@ + numeral(n as nat, radix as nat),
    decreases n,
{
    if n < radix {
        out.push(digit_char(n));
        assert(out@ =~= old(out)@ + numeral(n as nat, radix as nat));
    } else {
        assert(n / radix < n) by (nonlinear_arith)
            requires
                n >= radix,
                radix >= 2,
        ;
        push_numeral(out, n / radix, radix);
        let d: u64 = n % radix;
        assert(d < radix) by (nonlinear_arith)
            requires
                d == n % radix,
                radix >= 2,
        ;
        out.push(digit_char(d));
        assert(out@ =~= old(out)@ + numeral(n as nat, radix as nat));
    }
}

/// An integer in base ten.
pub fn dec(n: u64) -> (r: String)
    ensures
        r@ == decimal(n as nat),
{
    let mut r: String = String::new();
    push_numeral(&mut r, n, 10);
    assert(r@ =~= decimal(n as nat));
    r
}

/// An integer in base sixteen, in lower case.
pub fn hex(n: u64) -> (r: String)
    ensures
        r@ == numeral(n as nat, 16),
{
    let mut r: String = String::new();
    push_numeral(&mut r, n, 16);
    assert(r@ =~= numeral(n as nat, 16));
    r
}

// ---- Padding -----------------------------------------------------------------

/// `n` copies of a character.
pub open spec fn copies(c: char, n: int) -> Seq<char> {
    Seq::new(if n > 0 {
        n as nat
    } else {
        0
    }, |i: int| c)
}

/// Text brought to at least `width` characters by fill in front of it.
pub open spec fn right_aligned(s: Seq<char>, width: int, fill: char) -> Seq<char> {
    copies(fill, width - s.len()) + s
}

/// Text brought to at least `width` characters by fill after it.
pub open spec fn left_aligned(s: Seq<char>, width: int, fill: char) -> Seq<char> {
    s + copies(fill, width - s.len())
}

/// A run of one character.
pub fn repeat(c: char, n: usize) -> (r: String)
    ensures
        r@ == copies(c, n as int),
{
    let mut r: String = String::new();
    for i in 0..n
        invariant
            r@ == copies(c, i as int),
    {
        r.push(c);
        assert(r@ =~= copies(c, i + 1));
    }
    r
}

/// Align text to the right of a field.
pub fn pad_left(s: &str, width: usize, fill: char) -> (r: String)
    ensures
        r@ == right_aligned(s@, width as int, fill),
{
    let n: usize = chars(s).len();
    let mut r: String = repeat(fill, if n < width {
        width - n
    } else {
        0
    });
    r.append(s);
    assert(r@ =~= right_aligned(s@, width as int, fill));
    r
}

/// Align text to the left of a field.
pub fn pad_right(s: &str, width: usize, fill: char) -> (r: String)
    ensures
        r@ == left_aligned(s@, width as int, fill),
{
    let n: usize = chars(s).len();
    let mut r: String = s.to_string();
    let p: String = repeat(fill, if n < width {
        width - n
    } else {
        0
    });
    r.append(p.as_str());
    assert(r@ =~= left_aligned(s@, width as int, fill));
    r
}

// ---- Reading -----------------------------------------------------------------

/// Value of a digit in some base up to sixteen, in either case.
pub open spec fn digit_value(c: char) -> Option<int> {
    if '0' <= c <= '9' {
        Some(c as int - 48)
    } else if 'a' <= c <= 'f' {
        Some(c as int - 87)
    } else if 'A' <= c <= 'F' {
        Some(c as int - 55)
    } else {
        None
    }
}

/// Whether every character is a digit of the base.
pub open spec fn all_digits(s: Seq<char>, radix: int) -> bool {
    forall|i: int|
        0 <= i < s.len() ==> digit_value(#[trigger] s[i]) is Some && digit_value(s[i])->0 < radix
}

/// Value of a run of digits.
pub open spec fn digits_value(s: Seq<char>, radix: int) -> int
    decreases s.len(),
{
    if s.len() == 0 {
        0
    } else {
        digits_value(s.drop_last(), radix) * radix + digit_value(s.last())->0
    }
}

/// The digits of an unsigned number: one plus sign may stand in front of them.
pub open spec fn unsigned_body(s: Seq<char>) -> Seq<char> {
    if s.len() > 1 && s[0] == '+' {
        s.skip(1)
    } else {
        s
    }
}

/// The unsigned number that a text spells, if it spells one and it is no more
/// than `max`.
pub open spec fn unsigned(s: Seq<char>, radix: int, max: int) -> Option<int> {
    let body = unsigned_body(s);
    if body.len() > 0 && all_digits(body, radix) && digits_value(body, radix) <= max {
        Some(digits_value(body, radix))
    } else {
        None
    }
}

pub proof fn lemma_digits_value_grows(s: Seq<char>, n: int, radix: int)
    requires
        2 <= radix <= 16,
        all_digits(s, radix),
        0 <= n <= s.len(),
    ensures
        0 <= digits_value(s.take(n), radix) <= digits_value(s, radix),
    decreases s.len(),
{
    if s.len() > 0 {
        assert(digit_value(s.last()) is Some);
        assert(all_digits(s.drop_last(), radix)) by {
            assert forall|i: int| 0 <= i < s.drop_last().len() implies digit_value(
                #[trigger] s.drop_last()[i],
            ) is Some && digit_value(s.drop_last()[i])->0 < radix by {
                assert(s.drop_last()[i] == s[i]);
            }
        }
        if n < s.len() {
            lemma_digits_value_grows(s.drop_last(), n, radix);
            assert(s.drop_last().take(n) =~= s.take(n));
        } else {
            lemma_digits_value_grows(s.drop_last(), n - 1, radix);
            assert(s.take(n) =~= s);
        }
        let low = digits_value(s.drop_last(), radix);
        assert(low <= low * radix) by (nonlinear_arith)
            requires
                0 <= low,
                2 <= radix,
        ;
    }
}

fn digit_of(c: char) -> (r: Option<u64>)
    ensures
        match r {
            Some(d) => digit_value(c) == Some(d as int) && d < 16,
            None => digit_value(c) is None,
        },
{
    let u: u32 = c as u32;
    if 48 <= u && u <= 57 {
        Some((u - 48) as u64)
    } else if 97 <= u && u <= 102 {
        Some((u - 87) as u64)
    } else if 65 <= u && u <= 70 {
        Some((u - 55) as u64)
    } else {
        None
    }
}

/// Read an unsigned number of at most `max` in the given base.
pub fn parse_unsigned(s: &str, radix: u64, max: u64) -> (r: Option<u64>)
    requires
        2 <= radix <= 16,
    ensures
        match r {
            Some(n) => unsigned(s@, radix as int, max as int) == Some(n as int),
            None => unsigned(s@, radix as int, max as int) is None,
        },
{
    let v: Vec<char> = chars(s);
    let start: usize = if v.len() > 1 && v[0] == '+' {
        1
    } else {
        0
    };
    let ghost body = v@.skip(start as int);
    assert(body =~= unsigned_body(s@));
    if start == v.len() {
        return None;
    }
    let mut n: u64 = 0;
    let mut i: usize = start;
    assert(body.take(0) =~= Seq::<char>::empty());
    while i < v.len()
        invariant
            start <= i <= v.len(),
            2 <= radix <= 16,
            body == v@.skip(start as int),
            body == unsigned_body(s@),
            all_digits(body.take(i - start), radix as int),
            n == digits_value(body.take(i - start), radix as int),
            n <= max,
        decreases v.len() - i,
    {
        let ghost k = i - start;
        assert(body[k] == v@[i as int]);
        let d: u64 = match digit_of(v[i]) {
            Some(d) => d,
            None => {
                return None;
            },
        };
        if d >= radix {
            return None;
        }
        proof {
            assert(body.take(k + 1).drop_last() =~= body.take(k));
            assert forall|j: int| 0 <= j < k + 1 implies digit_value(
                #[trigger] body.take(k + 1)[j],
            ) is Some && digit_value(body.take(k + 1)[j])->0 < radix by {
                if j < k {
                    assert(body.take(k + 1)[j] == body.take(k)[j]);
                }
            }
        }
        assert(n * radix + d <= u64::MAX * 16 + 15) by (nonlinear_arith)
            requires
                n <= u64::MAX,
                radix <= 16,
                d < 16,
        ;
        let next: u128 = (n as u128) * (radix as u128) + (d as u128);
        if next > max as u128 {
            proof {
                if all_digits(body, radix as int) {
                    lemma_digits_value_grows(body, k + 1, radix as int);
                }
            }
            return None;
        }
        n = next as u64;
        i = i + 1;
    }
    assert(body.take(v.len() - start) =~= body);
    Some(n)
}

/// Reading what was written gives the number back.
pub proof fn lemma_numeral_value(n: nat, radix: nat)
    requires
        2 <= radix <= 16,
    ensures
        numeral(n, radix).len() > 0,
        all_digits(numeral(n, radix), radix as int),
        digits_value(numeral(n, radix), radix as int) == n,
    decreases n,
{
    let s = numeral(n, radix);
    let r = radix as int;
    if n < radix {
        assert(s =~= Seq::<char>::empty().push(digit(n as int)));
        assert(s.drop_last() =~= Seq::<char>::empty());
        assert(digit_value(s[0]) == Some(n as int));
        assert(digits_value(s.drop_last(), r) == 0);
        assert(0 * r == 0);
    } else {
        let q = n / radix;
        let m = n % radix;
        assert(q < n && m < radix && q * radix + m == n) by (nonlinear_arith)
            requires
                n >= radix,
                radix >= 2,
                q == n / radix,
                m == n % radix,
        ;
        lemma_numeral_value(q, radix);
        let d = digit(m as int);
        assert(s == numeral(q, radix).push(d));
        assert(s.drop_last() =~= numeral(q, radix));
        assert(digit_value(d) == Some(m as int));
        assert forall|i: int| 0 <= i < s.len() implies digit_value(#[trigger] s[i]) is Some
            && digit_value(s[i])->0 < radix by {
            if i < s.len() - 1 {
                assert(s[i] == numeral(q, radix)[i]);
            }
        }
    }
}

/// Zeros in front of digits change nothing of their value.
pub proof fn lemma_leading_zeros(zeros: Seq<char>, s: Seq<char>, radix: int)
    requires
        radix >= 2,
        forall|i: int| 0 <= i < zeros.len() ==> zeros[i] == '0',
        all_digits(s, radix),
    ensures
        all_digits(zeros + s, radix),
        digits_value(zeros + s, radix) == digits_value(s, radix),
    decreases s.len() + zeros.len(),
{
    let all = zeros + s;
    assert forall|i: int| 0 <= i < all.len() implies digit_value(#[trigger] all[i]) is Some
        && digit_value(all[i])->0 < radix by {
        if i < zeros.len() {
            assert(all[i] == zeros[i]);
        } else {
            assert(all[i] == s[i - zeros.len()]);
        }
    }
    if s.len() > 0 {
        assert(all_digits(s.drop_last(), radix)) by {
            assert forall|i: int| 0 <= i < s.drop_last().len() implies digit_value(
                #[trigger] s.drop_last()[i],
            ) is Some && digit_value(s.drop_last()[i])->0 < radix by {
                assert(s.drop_last()[i] == s[i]);
            }
        }
        lemma_leading_zeros(zeros, s.drop_last(), radix);
        assert(all.drop_last() =~= zeros + s.drop_last());
    } else if zeros.len() > 0 {
        lemma_leading_zeros(zeros.drop_last(), s, radix);
        assert(all.drop_last() =~= zeros.drop_last() + s);
        assert(all.last() == '0');
    }
}

// ---- Laws --------------------------------------------------------------------

/// A number is read back from its own digits, in every base up to sixteen, exactly if it
/// is not above the limit.
pub proof fn law_number_is_read_back(n: nat, radix: nat, max: int)
    requires
        2 <= radix <= 16,
    ensures
        n <= max ==> unsigned(numeral(n, radix), radix as int, max) == Some(n as int),
        n > max ==> unsigned(numeral(n, radix), radix as int, max) is None,
{
    lemma_numeral_value(n, radix);
    let s = numeral(n, radix);
    assert(digit_value(s[0]) is Some);
    assert(s[0] != '+');
}

/// Digits are written from the most significant on, without leading zeros.
pub proof fn law_digits_are_in_order(n: nat)
    ensures
        n < 10 ==> decimal(n).len() == 1 && decimal(n)[0] as u32 == '0' as u32 + n,
        n >= 10 ==> decimal(n) == decimal(n / 10) + decimal(n % 10),
        n < 10 ==> numeral(n, 16) == decimal(n),
        10 <= n < 16 ==> numeral(n, 16).len() == 1 && numeral(n, 16)[0] as u32 == 'a' as u32 + (n
            - 10),
        n >= 16 ==> numeral(n, 16) == numeral(n / 16, 16) + numeral(n % 16, 16),
{
    if n >= 10 {
        assert(decimal(n) =~= decimal(n / 10) + decimal(n % 10));
    }
    if n >= 16 {
        assert(numeral(n, 16) =~= numeral(n / 16, 16) + numeral(n % 16, 16));
    }
}

/// Different numbers are written differently.
pub proof fn law_numerals_differ(a: nat, b: nat, radix: nat)
    requires
        2 <= radix <= 16,
        numeral(a, radix) == numeral(b, radix),
    ensures
        a == b,
{
    lemma_numeral_value(a, radix);
    lemma_numeral_value(b, radix);
}

/// What a text of digits spells, by its last digit and those before.
pub proof fn law_digits_spell_a_number(s: Seq<char>, c: char, radix: int, max: int)
    requires
        2 <= radix <= 16,
        s.len() > 0,
        unsigned(s, radix, max) is Some,
        c != '+',
    ensures
        '0' <= c <= '9' && c as u32 - 48 < radix && unsigned(s, radix, max)->0 * radix + (c as u32
            - 48) <= max ==> unsigned(s.push(c), radix, max) == Some(
            unsigned(s, radix, max)->0 * radix + (c as u32 - 48),
        ),
        radix == 16 && 'a' <= c <= 'f' && unsigned(s, radix, max)->0 * 16 + (c as u32 - 87) <= max
            ==> unsigned(s.push(c), radix, max) == Some(
            unsigned(s, radix, max)->0 * 16 + (c as u32 - 87),
        ),
        radix == 16 && 'A' <= c <= 'F' && unsigned(s, radix, max)->0 * 16 + (c as u32 - 55) <= max
            ==> unsigned(s.push(c), radix, max) == Some(
            unsigned(s, radix, max)->0 * 16 + (c as u32 - 55),
        ),
        !('0' <= c <= '9') && !('a' <= c <= 'f') && !('A' <= c <= 'F') ==> unsigned(
            s.push(c),
            radix,
            max,
        ) is None,
{
    let b = unsigned_body(s);
    let t = s.push(c);
    let e = unsigned_body(t);
    if s[0] == '+' {
        assert(s.len() > 1) by {
            if s.len() == 1 {
                assert(digit_value(s[0]) is None);
                assert(b == s);
            }
        }
        assert(e =~= b.push(c));
    } else {
        assert(e =~= b.push(c));
    }
    assert(e.drop_last() =~= b);
    assert forall|i: int| 0 <= i < b.len() implies #[trigger] e[i] == b[i] by {}
    assert(e[b.len() as int] == c);
}

/// Nothing is read from an empty text or from a sign alone; a plus sign in front of
/// digits changes nothing.
pub proof fn law_sign_is_optional(s: Seq<char>, radix: int, max: int)
    requires
        2 <= radix <= 16,
        s.len() > 0,
        s[0] != '+',
    ensures
        unsigned(Seq::empty(), radix, max) is None,
        unsigned(seq!['+'], radix, max) is None,
        unsigned(seq!['+'] + s, radix, max) == unsigned(s, radix, max),
{
    let t = seq!['+'] + s;
    assert(t.skip(1) =~= s);
    assert(unsigned_body(s) == s);
    let p = seq!['+'];
    assert(digit_value(p[0]) is None);
}

/// What is read is between zero and the limit.
pub proof fn law_read_number_is_in_range(s: Seq<char>, radix: int, max: int)
    requires
        2 <= radix <= 16,
        unsigned(s, radix, max) is Some,
    ensures
        0 <= unsigned(s, radix, max)->0 <= max,
{
    lemma_digits_value_grows(unsigned_body(s), 0, radix);
}

} // verus!
