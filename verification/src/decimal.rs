//! Decimal numbers as text, with fraction and exponent, and what is left of them
//! after rounding to the binary64 format.

use vstd::arithmetic::power2::{
    lemma2_to64, lemma2_to64_rest, lemma_pow2_adds, lemma_pow2_pos, pow2,
};
use vstd::prelude::*;

use crate::binary64::{
    binary64, half_even, lemma_exact, lemma_exact_eighths, lemma_parts,
    lemma_positive_has_magnitude, lemma_reaches_less, lemma_scale, lemma_up_pos, lifted,
    magnitude, nearest, reaches, saturate, to_u64, ulp, up,
};
use crate::natural::Natural;
use crate::number::{all_digits, digit_value, digits_value, lemma_leading_zeros};
use crate::text::{chars, law_split_at_the_first, same, split_at_first, split_once, text};

verus! {

/// A number without its sign.
pub enum Magnitude {
    Nan,
    Infinite,
    /// Digits, of which the last has the weight ten to the power `exp`.
    Finite { digits: Seq<char>, exp: int },
}

/// The exponent that a text spells: an optional sign and at least one digit.
pub open spec fn exponent(s: Seq<char>) -> Option<int> {
    let signed = s.len() > 0 && (s[0] == '-' || s[0] == '+');
    let body = if signed {
        s.skip(1)
    } else {
        s
    };
    if body.len() == 0 || !all_digits(body, 10) {
        None
    } else if signed && s[0] == '-' {
        Some(-digits_value(body, 10))
    } else {
        Some(digits_value(body, 10))
    }
}

/// The digits before an exponent, and how many of them are fraction.
pub open spec fn mantissa(s: Seq<char>) -> Option<(Seq<char>, int)> {
    let (digits, fraction) = match split_at_first(s, '.') {
        Some((whole, part)) => (whole + part, part.len() as int),
        None => (s, 0int),
    };
    if digits.len() > 0 && all_digits(digits, 10) {
        Some((digits, fraction))
    } else {
        None
    }
}

/// The number that a text without sign spells: digits with an optional point among
/// them and an optional exponent, or a word. Letters are in lower case.
pub open spec fn unsigned_number(s: Seq<char>) -> Option<Magnitude> {
    if s == "nan"@ {
        Some(Magnitude::Nan)
    } else if s == "inf"@ || s == "infinity"@ {
        Some(Magnitude::Infinite)
    } else {
        match split_at_first(s, 'e') {
            Some((m, x)) => match (mantissa(m), exponent(x)) {
                (Some((digits, fraction)), Some(e)) => Some(
                    Magnitude::Finite { digits, exp: e - fraction },
                ),
                _ => None,
            },
            None => match mantissa(s) {
                Some((digits, fraction)) => Some(Magnitude::Finite { digits, exp: -fraction }),
                None => None,
            },
        }
    }
}

/// The number that a text spells, and whether it has a minus sign.
pub open spec fn signed_number(s: Seq<char>) -> Option<(bool, Magnitude)> {
    if s.len() > 0 && (s[0] == '-' || s[0] == '+') {
        match unsigned_number(s.skip(1)) {
            Some(m) => Some((s[0] == '-', m)),
            None => None,
        }
    } else {
        match unsigned_number(s) {
            Some(m) => Some((false, m)),
            None => None,
        }
    }
}

/// Ten to the power `n`.
pub open spec fn pow10(n: nat) -> nat
    decreases n,
{
    if n == 0 {
        1
    } else {
        10 * pow10((n - 1) as nat)
    }
}

/// Numerator of digits of the weight ten to the power `exp`.
pub open spec fn numerator(digits: Seq<char>, exp: int) -> nat {
    digits_value(digits, 10) as nat * (if exp > 0 {
        pow10(exp as nat)
    } else {
        1
    })
}

/// Denominator of digits of the weight ten to the power `exp`.
pub open spec fn denominator(exp: int) -> nat {
    if exp < 0 {
        pow10((-exp) as nat)
    } else {
        1
    }
}

/// The integer part of a number of the binary64 format.
pub open spec fn whole(num: nat, den: nat) -> u64 {
    if num == 0 {
        0
    } else {
        to_u64(binary64(num, den).0, binary64(num, den).1)
    }
}

/// The integer part of the product of a number of the binary64 format with
/// `factor * 2^shift`, rounded to the format.
pub open spec fn whole_product(num: nat, den: nat, factor: nat, shift: int) -> u64 {
    if num == 0 || binary64(num, den).0 == 0 {
        0
    } else {
        let (m, k) = binary64(num, den);
        whole(m * factor * up(k + shift), up(-(k + shift)))
    }
}

/// Whether a number is not rounded to zero.
pub open spec fn is_nonzero(num: nat, den: nat) -> bool {
    num > 0 && binary64(num, den).0 > 0
}

// ---- Facts -------------------------------------------------------------------

proof fn lemma_pow10_pos(n: nat)
    ensures
        pow10(n) > 0,
    decreases n,
{
    if n > 0 {
        lemma_pow10_pos((n - 1) as nat);
    }
}

proof fn lemma_pow10_adds(a: nat, b: nat)
    ensures
        pow10(a + b) == pow10(a) * pow10(b),
    decreases b,
{
    if b == 0 {
        assert(pow10(a) * 1 == pow10(a)) by (nonlinear_arith);
    } else {
        lemma_pow10_adds(a, (b - 1) as nat);
        let (x, y) = (pow10(a), pow10((b - 1) as nat));
        assert(10 * (x * y) == x * (10 * y)) by (nonlinear_arith);
    }
}

proof fn lemma_pow10_grows(a: nat, b: nat)
    requires
        a <= b,
    ensures
        pow10(a) <= pow10(b),
{
    lemma_pow10_adds(a, (b - a) as nat);
    lemma_pow10_pos((b - a) as nat);
    let (x, y) = (pow10(a), pow10((b - a) as nat));
    assert(x * y >= x) by (nonlinear_arith)
        requires
            y >= 1,
    ;
}

/// Ten to the power `n` lies between two to the power `3n` and `4n`.
proof fn lemma_pow10_bits(n: nat)
    ensures
        pow2(3 * n) <= pow10(n) <= pow2(4 * n),
    decreases n,
{
    lemma2_to64();
    if n > 0 {
        let m = (n - 1) as nat;
        lemma_pow10_bits(m);
        lemma_pow2_adds(3 * m, 3);
        lemma_pow2_adds(4 * m, 4);
    }
}

proof fn lemma_digits_bounds(s: Seq<char>)
    requires
        all_digits(s, 10),
    ensures
        0 <= digits_value(s, 10) < pow10(s.len()),
        s.len() > 0 && s[0] != '0' ==> digits_value(s, 10) >= pow10((s.len() - 1) as nat),
    decreases s.len(),
{
    if s.len() > 0 {
        let h = s.drop_last();
        assert(all_digits(h, 10)) by {
            assert forall|i: int| 0 <= i < h.len() implies digit_value(#[trigger] h[i]) is Some
                && digit_value(h[i])->0 < 10 by {
                assert(h[i] == s[i]);
            }
        }
        lemma_digits_bounds(h);
        assert(digit_value(s.last()) is Some && digit_value(s.last())->0 < 10);
        if s[0] != '0' {
            if s.len() == 1 {
                assert(digits_value(h, 10) == 0);
                assert(digit_value(s[0])->0 >= 1);
            } else {
                assert(h[0] == s[0]);
            }
        }
    }
}

/// A number whose digits begin with one that is not zero lies between two powers
/// of ten.
proof fn lemma_decimal_range(digits: Seq<char>, exp: int)
    requires
        all_digits(digits, 10),
        digits.len() > 0,
        digits[0] != '0',
    ensures
        ({
            let g = digits.len() + exp;
            let num = numerator(digits, exp);
            let den = denominator(exp);
            &&& den > 0
            &&& num > 0
            &&& g <= 0 ==> num * pow10((-g) as nat) < den
            &&& g > 0 ==> num < den * pow10(g as nat)
            &&& g >= 1 ==> num >= den * pow10((g - 1) as nat)
            &&& g < 1 ==> num * pow10((1 - g) as nat) >= den
        }),
{
    lemma_digits_bounds(digits);
    let n = digits.len();
    let g = n + exp;
    let v = digits_value(digits, 10) as nat;
    lemma_pow10_pos((n - 1) as nat);
    let low = pow10((n - 1) as nat);
    let high = pow10(n);
    if exp >= 0 {
        let e = exp as nat;
        let p = pow10(e);
        lemma_pow10_pos(e);
        lemma_pow10_adds(n, e);
        lemma_pow10_adds((n - 1) as nat, e);
        assert(numerator(digits, exp) == v * p) by {
            assert(v * 1 == v) by (nonlinear_arith);
        }
        assert(v * p < high * p && v * p >= low * p && v * p > 0) by (nonlinear_arith)
            requires
                low <= v < high,
                p > 0,
                v > 0,
        ;
    } else {
        let e = (-exp) as nat;
        let den = pow10(e);
        lemma_pow10_pos(e);
        assert(v * 1 == v) by (nonlinear_arith);
        assert(numerator(digits, exp) == v);
        if g <= 0 {
            let r = (-g) as nat;
            lemma_pow10_adds(n, r);
            let p = pow10(r);
            lemma_pow10_pos(r);
            assert(v * p < high * p) by (nonlinear_arith)
                requires
                    v < high,
                    p > 0,
            ;
        } else {
            let r = g as nat;
            lemma_pow10_adds(e, r);
        }
        if g >= 1 {
            lemma_pow10_adds(e, (g - 1) as nat);
        } else {
            let r = (1 - g) as nat;
            lemma_pow10_adds((n - 1) as nat, r);
            let p = pow10(r);
            assert(v * p >= low * p) by (nonlinear_arith)
                requires
                    v >= low,
            ;
        }
    }
}

/// A number below ten to the power -`n` does not reach two to the power -`3n`.
proof fn lemma_below(num: nat, den: nat, n: nat)
    requires
        num * pow10(n) < den,
    ensures
        !reaches(num, den, -(3 * n as int)),
{
    lemma_pow10_bits(n);
    lemma2_to64();
    assert(up(3 * n as int) == pow2(3 * n));
    let (a, b) = (pow2(3 * n), pow10(n));
    assert(num * a <= num * b) by (nonlinear_arith)
        requires
            a <= b,
    ;
    assert(den * 1 == den) by (nonlinear_arith);
}

/// A number of at least ten to the power -`n` reaches two to the power -`4n`.
proof fn lemma_above(num: nat, den: nat, n: nat)
    requires
        num * pow10(n) >= den,
    ensures
        reaches(num, den, -(4 * n as int)),
{
    lemma_pow10_bits(n);
    lemma2_to64();
    assert(up(4 * n as int) == pow2(4 * n));
    let (a, b) = (pow2(4 * n), pow10(n));
    assert(num * a >= num * b) by (nonlinear_arith)
        requires
            a >= b,
    ;
    assert(den * 1 == den) by (nonlinear_arith);
}

/// A number of at least ten to the power `n` reaches two to the power `3n`.
proof fn lemma_far_above(num: nat, den: nat, n: nat)
    requires
        num >= den * pow10(n),
    ensures
        reaches(num, den, 3 * n as int),
{
    lemma_pow10_bits(n);
    lemma2_to64();
    assert(up(3 * n as int) == pow2(3 * n));
    let (a, b) = (pow2(3 * n), pow10(n));
    assert(den * a <= den * b) by (nonlinear_arith)
        requires
            a <= b,
    ;
    assert(num * 1 == num) by (nonlinear_arith);
}

/// A number below ten to the power `n` does not reach two to the power `4n`.
proof fn lemma_far_below(num: nat, den: nat, n: nat)
    requires
        num < den * pow10(n),
    ensures
        !reaches(num, den, 4 * n as int),
{
    lemma_pow10_bits(n);
    lemma2_to64();
    assert(up(4 * n as int) == pow2(4 * n));
    let (a, b) = (pow2(4 * n), pow10(n));
    assert(den * a >= den * b) by (nonlinear_arith)
        requires
            a >= b,
    ;
    assert(num * 1 == num) by (nonlinear_arith);
}

proof fn lemma_small_powers()
    ensures
        pow2(52) == 0x10_0000_0000_0000,
        pow2(53) == 0x20_0000_0000_0000,
        pow2(30) == 0x4000_0000,
        pow2(35) == 0x8_0000_0000,
        pow2(3) == 8,
        pow2(0) == 1,
        pow2(64) == 0x1_0000_0000_0000_0000,
{
    lemma2_to64();
    lemma2_to64_rest();
}

/// What lies below one has no integer part.
proof fn lemma_whole_of_small(num: nat, den: nat)
    requires
        den > 0,
        num > 0,
        !reaches(num, den, -2),
    ensures
        whole(num, den) == 0,
{
    lemma_positive_has_magnitude(num, den);
    let t = magnitude(num, den);
    if t >= -2 {
        lemma_reaches_less(num, den, -2, t);
    }
    lemma_parts(num, den, t);
    let (m, k) = binary64(num, den);
    assert(k <= -55);
    lemma_small_powers();
    let s = (-k) as nat;
    vstd::arithmetic::power2::lemma_pow2_strictly_increases(53, s);
    assert(up(-k) == pow2(s));
    assert(m / pow2(s) == 0) by {
        vstd::arithmetic::div_mod::lemma_basic_div(m as int, pow2(s) as int);
    }
}

/// What reaches two to the power 64 is cut off at 64 bits.
proof fn lemma_whole_of_large(num: nat, den: nat)
    requires
        den > 0,
        reaches(num, den, 64),
    ensures
        num > 0,
        whole(num, den) == u64::MAX,
{
    lemma_small_powers();
    lemma_up_pos(64);
    if num == 0 {
        assert(0 * up(-64) == 0) by (nonlinear_arith);
        assert(den * up(64) > 0) by (nonlinear_arith)
            requires
                den > 0,
                up(64) > 0,
        ;
    }
    lemma_positive_has_magnitude(num, den);
    let t = magnitude(num, den);
    if t < 64 {
        lemma_reaches_less(num, den, t + 1, 64);
    }
    lemma_parts(num, den, t);
    let (m, k) = binary64(num, den);
    assert(k >= 12);
    if k > 12 {
        vstd::arithmetic::power2::lemma_pow2_strictly_increases(12, k as nat);
    }
    assert(pow2(12) == 4096) by {
        lemma2_to64();
    }
    let p = pow2(k as nat);
    assert(m * p >= 0x10_0000_0000_0000 * 4096) by (nonlinear_arith)
        requires
            m >= 0x10_0000_0000_0000,
            p >= 4096,
    ;
}

/// The rational that a product stands for: where it lies, from where the parts do.
proof fn lemma_product_range(m: nat, k: int, factor: nat, shift: int, a: int, b: int)
    requires
        0x10_0000_0000_0000 <= m <= 0x20_0000_0000_0000,
        1 <= factor <= 0x4000_0000,
        a == 52 + k + shift,
        b == 84 + k + shift,
    ensures
        reaches(m * factor * up(k + shift), up(-(k + shift)), a),
        !reaches(m * factor * up(k + shift), up(-(k + shift)), b),
        m * factor * up(k + shift) > 0,
        up(-(k + shift)) > 0,
{
    let c = k + shift;
    let p = m * factor;
    lemma_small_powers();
    lemma_pow2_adds(53, 30);
    lemma_pow2_adds(83, 1);
    lemma2_to64();
    assert(p >= pow2(52) && p < pow2(84)) by (nonlinear_arith)
        requires
            p == m * factor,
            pow2(52) <= m <= pow2(53),
            1 <= factor <= pow2(30),
            pow2(84) == pow2(83) * 2,
            pow2(83) == pow2(53) * pow2(30),
            pow2(53) > 0,
            pow2(30) > 0,
    ;
    lemma_up_pos(c);
    lemma_up_pos(-c);
    let num = p * up(c);
    let den = up(-c);
    assert(num > 0) by (nonlinear_arith)
        requires
            num == p * up(c),
            p > 0,
            up(c) > 0,
    ;
    // `num / den` is `p * 2^c`, so shifting by `c` leaves `p`.
    lemma_scale(num, den, c, 52);
    lemma_scale(num, den, c, 84);
    let w = up(c) * up(-c);
    assert(num * up(-c) == p * w) by (nonlinear_arith)
        requires
            num == p * up(c),
            w == up(c) * up(-c),
    ;
    assert(den * up(c) == w) by (nonlinear_arith)
        requires
            den == up(-c),
            w == up(c) * up(-c),
    ;
    assert(w > 0) by (nonlinear_arith)
        requires
            w == up(c) * up(-c),
            up(c) > 0,
            up(-c) > 0,
    ;
    assert(p * w >= w * pow2(52)) by (nonlinear_arith)
        requires
            p >= pow2(52),
            w > 0,
    ;
    assert(p * w < w * pow2(84)) by (nonlinear_arith)
        requires
            p < pow2(84),
            w > 0,
    ;
}

/// A very small number gives nothing, whatever unit it is in.
proof fn lemma_tiny(num: nat, den: nat, factor: nat, shift: int)
    requires
        den > 0,
        num > 0,
        !reaches(num, den, -60),
        1 <= factor <= 0x4000_0000,
        -3 <= shift <= 0,
    ensures
        whole(num, den) == 0,
        whole_product(num, den, factor, shift) == 0,
{
    if reaches(num, den, -2) {
        lemma_reaches_less(num, den, -60, -2);
    }
    lemma_whole_of_small(num, den);
    lemma_positive_has_magnitude(num, den);
    let t = magnitude(num, den);
    if t >= -60 {
        lemma_reaches_less(num, den, -60, t);
    }
    lemma_parts(num, den, t);
    lemma_small_powers();
    let (m, k) = binary64(num, den);
    assert(k <= -113);
    if m > 0 {
        let c = k + shift;
        let n2 = m * factor * up(c);
        let d2 = up(-c);
        assert(up(c) == 1);
        assert(m * factor <= 0x20_0000_0000_0000 * 0x4000_0000 && m * factor > 0)
            by (nonlinear_arith)
            requires
                0 < m <= 0x20_0000_0000_0000,
                1 <= factor <= 0x4000_0000,
        ;
        assert(n2 == m * factor) by (nonlinear_arith)
            requires
                n2 == m * factor * 1,
        ;
        let s = (-c) as nat;
        lemma_pow2_adds(53, 30);
        lemma_pow2_adds(83, 2);
        lemma2_to64();
        assert(pow2(85) == pow2(53) * pow2(30) * 4);
        vstd::arithmetic::power2::lemma_pow2_strictly_increases(85, s);
        assert(n2 * 4 <= pow2(85)) by (nonlinear_arith)
            requires
                n2 <= 0x20_0000_0000_0000 * 0x4000_0000,
                pow2(85) == 0x20_0000_0000_0000 * 0x4000_0000 * 4,
        ;
        assert(up(2) == 4);
        assert(d2 * 1 == d2) by (nonlinear_arith);
        assert(!reaches(n2, d2, -2));
        lemma_whole_of_small(n2, d2);
    }
}

/// A very large number is cut off at 64 bits, whatever unit it is in.
proof fn lemma_huge(num: nat, den: nat, factor: nat, shift: int)
    requires
        den > 0,
        reaches(num, den, 90),
        1 <= factor <= 0x4000_0000,
        -3 <= shift <= 0,
    ensures
        num > 0,
        whole(num, den) == u64::MAX,
        whole_product(num, den, factor, shift) == u64::MAX,
{
    lemma_reaches_less(num, den, 64, 90);
    lemma_whole_of_large(num, den);
    lemma_positive_has_magnitude(num, den);
    let t = magnitude(num, den);
    if t < 90 {
        lemma_reaches_less(num, den, t + 1, 90);
    }
    lemma_parts(num, den, t);
    lemma_small_powers();
    let (m, k) = binary64(num, den);
    lemma_product_range(m, k, factor, shift, 52 + k + shift, 84 + k + shift);
    let n2 = m * factor * up(k + shift);
    let d2 = up(-(k + shift));
    lemma_reaches_less(n2, d2, 64, 52 + k + shift);
    lemma_whole_of_large(n2, d2);
}

/// A number is rounded to zero exactly where it is at most half of the least
/// number of the format.
proof fn lemma_rounds_to_zero(num: nat, den: nat)
    requires
        den > 0,
        num > 0,
    ensures
        binary64(num, den).0 == 0 <==> num * pow2(1075) <= den,
{
    lemma_positive_has_magnitude(num, den);
    let t = magnitude(num, den);
    lemma_parts(num, den, t);
    lemma_small_powers();
    lemma_pow2_adds(1074, 1);
    lemma2_to64();
    let k = ulp(num, den);
    let h = pow2(1074);
    assert(pow2(1075) == h * 2);
    if t >= -1022 {
        // Far above: the number is at least two to the power -1022.
        lemma_reaches_less(num, den, -1022, t);
        assert(up(1022) == pow2(1022));
        lemma_pow2_adds(1022, 53);
        let b = pow2(1022);
        assert(num * pow2(1075) > den) by (nonlinear_arith)
            requires
                num * b >= den * 1,
                pow2(1075) == b * pow2(53),
                pow2(53) > 1,
                num * b > 0 || den > 0,
                den > 0,
        ;
    } else {
        assert(k == -1074);
        assert(up(1074) == h);
        let n = num * h;
        let q = n / (den * 1);
        let r = n % (den * 1);
        assert(den * 1 == den) by (nonlinear_arith);
        assert(binary64(num, den).0 == half_even(n, den));
        assert(n == q * den + r && r < den) by {
            vstd::arithmetic::div_mod::lemma_fundamental_div_mod(n as int, den as int);
            assert(den * q == q * den) by (nonlinear_arith);
        }
        assert(num * pow2(1075) == 2 * n) by (nonlinear_arith)
            requires
                n == num * h,
                pow2(1075) == h * 2,
        ;
        if q == 0 {
            assert(0 * den == 0) by (nonlinear_arith);
        } else {
            assert(q * den >= den) by (nonlinear_arith)
                requires
                    q >= 1,
            ;
        }
    }
}

// ---- Reading -----------------------------------------------------------------

/// From here on exponents are not told apart.
pub const EXP_LIMIT: i128 = 1_0000_0000_0000_0000_0000_0000_0000_0000;

/// A number as digits and the exponent of the last of them.
pub struct Decimal {
    pub digits: Vec<char>,
    pub exp: i128,
}

/// A number without its sign.
pub enum Number {
    Nan,
    Infinite,
    Finite(Decimal),
}

/// Whether an exponent is the given one, or both are beyond the limit.
pub open spec fn is_exponent(exp: i128, e: int) -> bool {
    ||| exp == e
    ||| exp >= EXP_LIMIT && e >= EXP_LIMIT
    ||| exp <= -EXP_LIMIT && e <= -EXP_LIMIT
}

impl Number {
    /// Whether this is the given number.
    pub open spec fn stands_for(&self, m: Magnitude) -> bool {
        match (*self, m) {
            (Number::Nan, Magnitude::Nan) => true,
            (Number::Infinite, Magnitude::Infinite) => true,
            (Number::Finite(d), Magnitude::Finite { digits, exp }) => d.wf() && d.digits@ == digits
                && is_exponent(d.exp, exp),
            _ => false,
        }
    }
}

impl Decimal {
    pub open spec fn wf(&self) -> bool {
        &&& all_digits(self.digits@, 10)
        &&& self.digits@.len() > 0
        &&& -20 * EXP_LIMIT <= self.exp <= 20 * EXP_LIMIT
    }
}

fn decimal_digit(c: char) -> (r: Option<u32>)
    ensures
        r is Some <==> digit_value(c) is Some && digit_value(c)->0 < 10,
        r is Some ==> r->0 == digit_value(c)->0,
{
    if '0' <= c && c <= '9' {
        Some(c as u32 - 48)
    } else {
        None
    }
}

fn only_digits(v: &Vec<char>) -> (r: bool)
    ensures
        r == all_digits(v@, 10),
{
    for i in 0..v.len()
        invariant
            forall|j: int|
                0 <= j < i ==> digit_value(#[trigger] v@[j]) is Some && digit_value(v@[j])->0 < 10,
    {
        if decimal_digit(v[i]).is_none() {
            assert(!all_digits(v@, 10));
            return false;
        }
    }
    true
}

proof fn lemma_prefix_value(s: Seq<char>, i: int)
    requires
        0 <= i < s.len(),
    ensures
        digits_value(s.take(i + 1), 10) == digits_value(s.take(i), 10) * 10 + digit_value(s[i])->0,
{
    assert(s.take(i + 1).drop_last() =~= s.take(i));
}

/// Read the value of digits, up to the limit.
fn capped_value(v: &Vec<char>) -> (r: i128)
    requires
        all_digits(v@, 10),
    ensures
        0 <= r <= 10 * EXP_LIMIT,
        r == digits_value(v@, 10) || (r >= 2 * EXP_LIMIT && digits_value(v@, 10) >= 2 * EXP_LIMIT),
{
    let mut n: i128 = 0;
    assert(v@.take(0) =~= Seq::<char>::empty());
    for i in 0..v.len()
        invariant
            all_digits(v@, 10),
            0 <= n <= 10 * EXP_LIMIT,
            n == digits_value(v@.take(i as int), 10) || (n >= 2 * EXP_LIMIT && digits_value(
                v@.take(i as int),
                10,
            ) >= 2 * EXP_LIMIT),
    {
        proof {
            lemma_prefix_value(v@, i as int);
            assert(digit_value(v@[i as int]) is Some && digit_value(v@[i as int])->0 < 10);
        }
        match decimal_digit(v[i]) {
            Some(d) => {
                if n < EXP_LIMIT {
                    n = n * 10 + d as i128;
                } else if n < 2 * EXP_LIMIT {
                    n = 2 * EXP_LIMIT;
                }
            },
            None => {},
        }
    }
    assert(v@.take(v@.len() as int) =~= v@);
    n
}

fn skip_first(v: &Vec<char>) -> (r: Vec<char>)
    requires
        v@.len() > 0,
    ensures
        r@ == v@.skip(1),
{
    let mut r: Vec<char> = Vec::new();
    for i in 1..v.len()
        invariant
            r@ == v@.subrange(1, i as int),
    {
        r.push(v[i]);
        assert(r@ =~= v@.subrange(1, i + 1));
    }
    assert(r@ =~= v@.skip(1));
    r
}

/// Read an exponent, up to the limit.
fn read_exponent(s: &str) -> (r: Option<i128>)
    ensures
        r is Some <==> exponent(s@) is Some,
        r is Some ==> -10 * EXP_LIMIT <= r->0 <= 10 * EXP_LIMIT && (r->0 == exponent(s@)->0 || (
        r->0 >= 2 * EXP_LIMIT && exponent(s@)->0 >= 2 * EXP_LIMIT) || (r->0 <= -2 * EXP_LIMIT
            && exponent(s@)->0 <= -2 * EXP_LIMIT)),
{
    let v: Vec<char> = chars(s);
    let signed: bool = v.len() > 0 && (v[0] == '-' || v[0] == '+');
    let negative: bool = signed && v[0] == '-';
    let body: Vec<char> = if signed {
        skip_first(&v)
    } else {
        v
    };
    if body.len() == 0 || !only_digits(&body) {
        return None;
    }
    let n: i128 = capped_value(&body);
    if negative {
        Some(-n)
    } else {
        Some(n)
    }
}

/// Read the digits before an exponent, and how many of them are fraction.
fn read_mantissa(s: &str) -> (r: Option<(Vec<char>, usize)>)
    ensures
        r is Some <==> mantissa(s@) is Some,
        r is Some ==> (r->0).0@ == (mantissa(s@)->0).0 && (r->0).1 == (mantissa(s@)->0).1,
{
    let (digits, fraction): (Vec<char>, usize) = match split_once(s, '.') {
        Some((whole, part)) => {
            let mut d: Vec<char> = chars(whole.as_str());
            let mut p: Vec<char> = chars(part.as_str());
            let n: usize = p.len();
            d.append(&mut p);
            (d, n)
        },
        None => (chars(s), 0),
    };
    if digits.len() > 0 && only_digits(&digits) {
        Some((digits, fraction))
    } else {
        None
    }
}

/// Read a number without sign.
fn read_unsigned(s: &str) -> (r: Option<Number>)
    ensures
        r is Some <==> unsigned_number(s@) is Some,
        r is Some ==> r->0.stands_for(unsigned_number(s@)->0),
{
    if same(s, "nan") {
        return Some(Number::Nan);
    }
    if same(s, "inf") || same(s, "infinity") {
        return Some(Number::Infinite);
    }
    let (digits, fraction, exp): (Vec<char>, usize, i128) = match split_once(s, 'e') {
        Some((m, x)) => match (read_mantissa(m.as_str()), read_exponent(x.as_str())) {
            (Some((digits, fraction)), Some(e)) => (digits, fraction, e),
            _ => {
                return None;
            },
        },
        None => match read_mantissa(s) {
            Some((digits, fraction)) => (digits, fraction, 0),
            None => {
                return None;
            },
        },
    };
    let total: i128 = exp - fraction as i128;
    Some(Number::Finite(Decimal { digits, exp: total }))
}

/// Read a number with an optional sign. Letters are in lower case.
pub fn read_number(s: &str) -> (r: Option<(bool, Number)>)
    ensures
        r is Some <==> signed_number(s@) is Some,
        r is Some ==> (r->0).0 == (signed_number(s@)->0).0 && (r->0).1.stands_for(
            (signed_number(s@)->0).1,
        ),
{
    let v: Vec<char> = chars(s);
    if v.len() > 0 && (v[0] == '-' || v[0] == '+') {
        let body: String = text(&v, 1, v.len());
        assert(body@ =~= s@.skip(1));
        match read_unsigned(body.as_str()) {
            Some(n) => Some((v[0] == '-', n)),
            None => None,
        }
    } else {
        match read_unsigned(s) {
            Some(n) => Some((false, n)),
            None => None,
        }
    }
}

// ---- Rounding ----------------------------------------------------------------

fn leading_zeros(v: &Vec<char>) -> (r: usize)
    requires
        all_digits(v@, 10),
    ensures
        r <= v@.len(),
        r < v@.len() ==> v@[r as int] != '0',
        all_digits(v@.skip(r as int), 10),
        digits_value(v@, 10) == digits_value(v@.skip(r as int), 10),
{
    let mut i: usize = 0;
    while i < v.len() && v[i] == '0'
        invariant
            i <= v@.len(),
            forall|j: int| 0 <= j < i ==> v@[j] == '0',
        decreases v@.len() - i,
    {
        i = i + 1;
    }
    proof {
        let rest = v@.skip(i as int);
        assert(all_digits(rest, 10)) by {
            assert forall|j: int| 0 <= j < rest.len() implies digit_value(#[trigger] rest[j]) is Some
                && digit_value(rest[j])->0 < 10 by {
                assert(rest[j] == v@[i + j]);
            }
        }
        lemma_leading_zeros(v@.take(i as int), rest, 10);
        assert(v@.take(i as int) + rest =~= v@);
    }
    i
}

fn natural_of(v: &Vec<char>, from: usize) -> (r: Natural)
    requires
        from <= v@.len(),
        all_digits(v@.skip(from as int), 10),
    ensures
        r@ == digits_value(v@.skip(from as int), 10),
{
    let ghost s = v@.skip(from as int);
    let mut n: Natural = Natural::from_small(0);
    let mut i: usize = from;
    assert(s.take(0) =~= Seq::<char>::empty());
    while i < v.len()
        invariant
            from <= i <= v@.len(),
            s == v@.skip(from as int),
            all_digits(s, 10),
            n@ == digits_value(s.take(i - from), 10),
        decreases v@.len() - i,
    {
        proof {
            lemma_prefix_value(s, i - from);
            assert(s[i - from] == v@[i as int]);
            assert(digit_value(s[i - from]) is Some && digit_value(s[i - from])->0 < 10);
        }
        match decimal_digit(v[i]) {
            Some(d) => {
                n.scale(10, d);
            },
            None => {},
        }
        i = i + 1;
    }
    assert(s.take(s.len() as int) =~= s);
    n
}

fn times_pow10(n: &mut Natural, k: i128)
    ensures
        final(n)@ == old(n)@ * (if k > 0 {
            pow10(k as nat)
        } else {
            1
        }),
{
    let ghost n0 = n@;
    let mut i: i128 = 0;
    assert(n0 * 1 == n0) by (nonlinear_arith);
    while i < k
        invariant
            0 <= i,
            i <= k || (k <= 0 && i == 0),
            n@ == n0 * pow10(i as nat),
        decreases k - i,
    {
        n.scale(10, 0);
        proof {
            let p = pow10(i as nat);
            assert(pow10((i + 1) as nat) == 10 * p);
            assert((n0 * p) * 10 + 0 == n0 * (10 * p)) by (nonlinear_arith);
        }
        i = i + 1;
    }
}

/// The rational that a number with few leading digits stands for.
fn fraction_of(d: &Decimal, from: usize) -> (r: (Natural, Natural))
    requires
        d.wf(),
        from <= d.digits@.len(),
        all_digits(d.digits@.skip(from as int), 10),
    ensures
        r.0@ == numerator(d.digits@.skip(from as int), d.exp as int),
        r.1@ == denominator(d.exp as int),
{
    let mut num: Natural = natural_of(&d.digits, from);
    times_pow10(&mut num, d.exp);
    let mut den: Natural = Natural::from_small(1);
    times_pow10(&mut den, -d.exp);
    proof {
        lemma_digits_bounds(d.digits@.skip(from as int));
        let k = if d.exp < 0 {
            pow10((-d.exp) as nat)
        } else {
            1
        };
        assert(1 * k == k) by (nonlinear_arith);
    }
    (num, den)
}

/// The number of digits before the point, not counting leading zeros; negative
/// where zeros follow the point.
fn scale_of(d: &Decimal, from: usize) -> (r: i128)
    requires
        d.wf(),
        from <= d.digits@.len(),
    ensures
        r == (d.digits@.len() - from) + d.exp,
{
    (d.digits.len() - from) as i128 + d.exp
}

proof fn lemma_scale_is_clear(d: Decimal, e: int, g: int)
    requires
        d.wf(),
        is_exponent(d.exp, e),
        0 <= g - d.exp <= usize::MAX,
        -1000 <= g <= 1000,
    ensures
        d.exp == e,
{
}

/// Where a number lies, from its exponent and its number of digits.
proof fn lemma_where(digits: Seq<char>, e: int)
    requires
        all_digits(digits, 10),
        digits.len() > 0,
        digits[0] != '0',
    ensures
        denominator(e) > 0,
        numerator(digits, e) > 0,
        digits.len() + e <= -20 ==> !reaches(numerator(digits, e), denominator(e), -60),
        digits.len() + e >= 31 ==> reaches(numerator(digits, e), denominator(e), 90),
        digits.len() + e <= -400 ==> !reaches(numerator(digits, e), denominator(e), -1200),
        digits.len() + e > -20 ==> reaches(numerator(digits, e), denominator(e), -80),
        digits.len() + e < 31 ==> !reaches(numerator(digits, e), denominator(e), 120),
{
    lemma_decimal_range(digits, e);
    let g = digits.len() + e;
    let num = numerator(digits, e);
    let den = denominator(e);
    if g <= -20 {
        lemma_pow10_grows(20, (-g) as nat);
        let (a, b) = (pow10(20), pow10((-g) as nat));
        assert(num * a <= num * b) by (nonlinear_arith)
            requires
                a <= b,
        ;
        lemma_below(num, den, 20);
    }
    if g <= -400 {
        lemma_pow10_grows(400, (-g) as nat);
        let (a, b) = (pow10(400), pow10((-g) as nat));
        assert(num * a <= num * b) by (nonlinear_arith)
            requires
                a <= b,
        ;
        lemma_below(num, den, 400);
    }
    if g >= 31 {
        lemma_pow10_grows(30, (g - 1) as nat);
        let (a, b) = (pow10(30), pow10((g - 1) as nat));
        assert(den * a <= den * b) by (nonlinear_arith)
            requires
                a <= b,
        ;
        lemma_far_above(num, den, 30);
    }
    if g > -20 {
        if g < 1 {
            lemma_pow10_grows((1 - g) as nat, 20);
            let (a, b) = (pow10((1 - g) as nat), pow10(20));
            assert(num * a <= num * b) by (nonlinear_arith)
                requires
                    a <= b,
            ;
        } else {
            lemma_pow10_pos((g - 1) as nat);
            lemma_pow10_pos(20);
            let (a, b) = (pow10((g - 1) as nat), pow10(20));
            assert(num * b >= den) by (nonlinear_arith)
                requires
                    num >= den * a,
                    a >= 1,
                    b >= 1,
            ;
        }
        lemma_above(num, den, 20);
    }
    if g < 31 {
        if g > 0 {
            lemma_pow10_grows(g as nat, 30);
            let (a, b) = (pow10(g as nat), pow10(30));
            assert(den * a <= den * b) by (nonlinear_arith)
                requires
                    a <= b,
            ;
        } else {
            lemma_pow10_pos((-g) as nat);
            lemma_pow10_pos(30);
            let (a, b) = (pow10((-g) as nat), pow10(30));
            assert(num < den * b) by (nonlinear_arith)
                requires
                    num * a < den,
                    a >= 1,
                    b >= 1,
            ;
        }
        lemma_far_below(num, den, 30);
    }
}

proof fn lemma_stripped(d: Decimal, from: int, e: int)
    requires
        0 <= from <= d.digits@.len(),
        digits_value(d.digits@, 10) == digits_value(d.digits@.skip(from), 10),
    ensures
        numerator(d.digits@, e) == numerator(d.digits@.skip(from), e),
        from == d.digits@.len() ==> numerator(d.digits@, e) == 0,
{
    if from == d.digits@.len() {
        assert(d.digits@.skip(from) =~= Seq::<char>::empty());
        let k = if e > 0 {
            pow10(e as nat)
        } else {
            1
        };
        assert(0 * k == 0) by (nonlinear_arith);
    }
}

impl Decimal {
    /// The integer part of the number after rounding to the format.
    pub fn whole_part(&self) -> (r: u64)
        requires
            self.wf(),
        ensures
            forall|e: int| #[trigger]
                is_exponent(self.exp, e) ==> r == whole(
                    numerator(self.digits@, e),
                    denominator(e),
                ),
    {
        let from: usize = leading_zeros(&self.digits);
        let ghost s = self.digits@.skip(from as int);
        proof {
            assert forall|e: int| #[trigger] is_exponent(self.exp, e) implies numerator(
                self.digits@,
                e,
            ) == numerator(s, e) && (from == self.digits@.len() ==> numerator(self.digits@, e)
                == 0) by {
                lemma_stripped(*self, from as int, e);
            }
        }
        if from == self.digits.len() {
            return 0;
        }
        assert(s[0] == self.digits@[from as int]);
        let g: i128 = scale_of(self, from);
        if g <= -20 {
            proof {
                assert forall|e: int| #[trigger] is_exponent(self.exp, e) implies whole(
                    numerator(self.digits@, e),
                    denominator(e),
                ) == 0 by {
                    lemma_where(s, e);
                    lemma_tiny(numerator(s, e), denominator(e), 1, 0);
                }
            }
            return 0;
        }
        if g >= 31 {
            proof {
                assert forall|e: int| #[trigger] is_exponent(self.exp, e) implies whole(
                    numerator(self.digits@, e),
                    denominator(e),
                ) == u64::MAX by {
                    lemma_where(s, e);
                    lemma_huge(numerator(s, e), denominator(e), 1, 0);
                }
            }
            return u64::MAX;
        }
        let (num, den) = fraction_of(self, from);
        proof {
            lemma_where(s, self.exp as int);
            lemma_reaches_less(num@, den@, -200, -80);
            if reaches(num@, den@, 200) {
                lemma_reaches_less(num@, den@, 120, 200);
            }
            assert forall|e: int| #[trigger] is_exponent(self.exp, e) implies e == self.exp by {
                lemma_scale_is_clear(*self, e, g as int);
            }
        }
        let (m, k) = nearest(&num, &den);
        saturate(m, k)
    }

    /// The integer part of the product of the rounded number with
    /// `factor * 2^shift`, rounded again.
    pub fn whole_part_of_product(&self, factor: u32, shift: i64) -> (r: u64)
        requires
            self.wf(),
            1 <= factor <= 0x4000_0000,
            -3 <= shift <= 0,
        ensures
            forall|e: int| #[trigger]
                is_exponent(self.exp, e) ==> r == whole_product(
                    numerator(self.digits@, e),
                    denominator(e),
                    factor as nat,
                    shift as int,
                ),
    {
        let from: usize = leading_zeros(&self.digits);
        let ghost s = self.digits@.skip(from as int);
        proof {
            assert forall|e: int| #[trigger] is_exponent(self.exp, e) implies numerator(
                self.digits@,
                e,
            ) == numerator(s, e) && (from == self.digits@.len() ==> numerator(self.digits@, e)
                == 0) by {
                lemma_stripped(*self, from as int, e);
            }
        }
        if from == self.digits.len() {
            return 0;
        }
        assert(s[0] == self.digits@[from as int]);
        let g: i128 = scale_of(self, from);
        if g <= -20 {
            proof {
                assert forall|e: int| #[trigger] is_exponent(self.exp, e) implies whole_product(
                    numerator(self.digits@, e),
                    denominator(e),
                    factor as nat,
                    shift as int,
                ) == 0 by {
                    lemma_where(s, e);
                    lemma_tiny(numerator(s, e), denominator(e), factor as nat, shift as int);
                }
            }
            return 0;
        }
        if g >= 31 {
            proof {
                assert forall|e: int| #[trigger] is_exponent(self.exp, e) implies whole_product(
                    numerator(self.digits@, e),
                    denominator(e),
                    factor as nat,
                    shift as int,
                ) == u64::MAX by {
                    lemma_where(s, e);
                    lemma_huge(numerator(s, e), denominator(e), factor as nat, shift as int);
                }
            }
            return u64::MAX;
        }
        let (num, den) = fraction_of(self, from);
        proof {
            lemma_where(s, self.exp as int);
            lemma_reaches_less(num@, den@, -200, -80);
            if reaches(num@, den@, 200) {
                lemma_reaches_less(num@, den@, 120, 200);
            }
            assert forall|e: int| #[trigger] is_exponent(self.exp, e) implies e == self.exp by {
                lemma_scale_is_clear(*self, e, g as int);
            }
            lemma_exponent_range(num@, den@);
        }
        let (m, k) = nearest(&num, &den);
        let mut p: Natural = Natural::from_u64(m);
        p.scale(factor, 0);
        let c: i64 = k + shift;
        let num2: Natural = lifted(&p, c);
        let one: Natural = Natural::from_small(1);
        let den2: Natural = lifted(&one, -c);
        proof {
            lemma_product_range(
                m as nat,
                k as int,
                factor as nat,
                shift as int,
                52 + c as int,
                84 + c as int,
            );
            assert(p@ == m as nat * factor as nat);
            assert(1 * up(-c as int) == up(-c as int)) by (nonlinear_arith);
            lemma_reaches_less(num2@, den2@, -200, 52 + c as int);
            if reaches(num2@, den2@, 200) {
                lemma_reaches_less(num2@, den2@, 84 + c as int, 200);
            }
        }
        let (m2, k2) = nearest(&num2, &den2);
        saturate(m2, k2)
    }

    /// Whether the number is not rounded to zero.
    pub fn nonzero(&self) -> (r: bool)
        requires
            self.wf(),
        ensures
            forall|e: int| #[trigger]
                is_exponent(self.exp, e) ==> r == is_nonzero(
                    numerator(self.digits@, e),
                    denominator(e),
                ),
    {
        let from: usize = leading_zeros(&self.digits);
        let ghost s = self.digits@.skip(from as int);
        proof {
            assert forall|e: int| #[trigger] is_exponent(self.exp, e) implies numerator(
                self.digits@,
                e,
            ) == numerator(s, e) && (from == self.digits@.len() ==> numerator(self.digits@, e)
                == 0) by {
                lemma_stripped(*self, from as int, e);
            }
        }
        if from == self.digits.len() {
            return false;
        }
        assert(s[0] == self.digits@[from as int]);
        let g: i128 = scale_of(self, from);
        if g <= -400 {
            proof {
                assert forall|e: int| #[trigger] is_exponent(self.exp, e) implies !is_nonzero(
                    numerator(self.digits@, e),
                    denominator(e),
                ) by {
                    lemma_where(s, e);
                    lemma_rounds_to_zero(numerator(s, e), denominator(e));
                    lemma_far_too_small(numerator(s, e), denominator(e));
                }
            }
            return false;
        }
        if g > -20 {
            proof {
                assert forall|e: int| #[trigger] is_exponent(self.exp, e) implies is_nonzero(
                    numerator(self.digits@, e),
                    denominator(e),
                ) by {
                    lemma_where(s, e);
                    lemma_rounds_to_zero(numerator(s, e), denominator(e));
                    lemma_large_enough(numerator(s, e), denominator(e));
                }
            }
            return true;
        }
        let (num, den) = fraction_of(self, from);
        let n: Natural = lifted(&num, 1075);
        proof {
            lemma_where(s, self.exp as int);
            lemma_rounds_to_zero(num@, den@);
            assert forall|e: int| #[trigger] is_exponent(self.exp, e) implies e == self.exp by {
                lemma_scale_is_clear(*self, e, g as int);
            }
        }
        !den.at_least(&n)
    }
}

proof fn lemma_exponent_range(num: nat, den: nat)
    requires
        den > 0,
        num > 0,
        reaches(num, den, -80),
        !reaches(num, den, 120),
    ensures
        -132 <= binary64(num, den).1 <= 67,
{
    lemma_positive_has_magnitude(num, den);
    let t = magnitude(num, den);
    if t < -80 {
        lemma_reaches_less(num, den, t + 1, -80);
    }
    if t >= 120 {
        lemma_reaches_less(num, den, 120, t);
    }
    lemma_parts(num, den, t);
}

proof fn lemma_far_too_small(num: nat, den: nat)
    requires
        !reaches(num, den, -1200),
    ensures
        num * pow2(1075) <= den,
{
    assert(up(1200) == pow2(1200));
    vstd::arithmetic::power2::lemma_pow2_strictly_increases(1075, 1200);
    let (a, b) = (pow2(1075), pow2(1200));
    assert(num * a <= num * b) by (nonlinear_arith)
        requires
            a <= b,
    ;
    assert(den * 1 == den) by (nonlinear_arith);
}

proof fn lemma_large_enough(num: nat, den: nat)
    requires
        den > 0,
        reaches(num, den, -80),
    ensures
        num * pow2(1075) > den,
{
    assert(up(80) == pow2(80));
    vstd::arithmetic::power2::lemma_pow2_strictly_increases(80, 1075);
    lemma_pow2_pos(80);
    let (a, b) = (pow2(80), pow2(1075));
    assert(num * b > den) by (nonlinear_arith)
        requires
            num * a >= den * 1,
            a < b,
            a > 0,
            den > 0,
    ;
}

/// Whole numbers of a unit are exact: nothing is lost as long as the product has at
/// most 53 bits.
pub proof fn law_whole_numbers_are_exact(n: nat, factor: nat)
    requires
        n * factor < 0x20_0000_0000_0000,
        factor >= 1,
    ensures
        whole_product(n, 1, factor, 0) == n * factor,
        whole(n, 1) == n,
{
    lemma_small_powers();
    if n == 0 {
        assert(0 * factor == 0) by (nonlinear_arith);
    } else {
        assert(n <= n * factor) by (nonlinear_arith)
            requires
                factor >= 1,
        ;
        assert(n * 1 == n) by (nonlinear_arith);
        lemma_exact(n, 1, n);
        let (m, k) = binary64(n, 1);
        let w = up(-k);
        lemma_up_pos(-k);
        assert(m > 0) by (nonlinear_arith)
            requires
                m == n * w,
                n > 0,
                w > 0,
        ;
        assert(up(k + 0) == 1);
        assert(m * factor * 1 == (n * factor) * w) by (nonlinear_arith)
            requires
                m == n * w,
        ;
        let num2 = m * factor * up(k + 0);
        lemma_exact(num2, w, n * factor);
        assert(num2 > 0) by (nonlinear_arith)
            requires
                num2 == (n * factor) * w,
                n * factor > 0,
                w > 0,
        ;
    }
}

/// Whole numbers of eighths are exact as well, down to the integer part.
pub proof fn law_whole_eighths_are_exact(n: nat)
    requires
        n < 0x20_0000_0000_0000,
    ensures
        whole_product(n, 1, 1, -3) == n / 8,
{
    lemma_small_powers();
    if n > 0 {
        assert(n * 1 == n) by (nonlinear_arith);
        lemma_exact(n, 1, n);
        let (m, k) = binary64(n, 1);
        let w = up(-k);
        lemma_up_pos(-k);
        assert(m > 0) by (nonlinear_arith)
            requires
                m == n * w,
                n > 0,
                w > 0,
        ;
        let c = k - 3;
        assert(up(c) == 1);
        assert(up(-c) == w * 8) by {
            lemma_pow2_adds((-k) as nat, 3);
            lemma2_to64();
        }
        assert(m * 1 * 1 == n * w) by (nonlinear_arith)
            requires
                m == n * w,
        ;
        lemma_exact_eighths(w, n);
    }
}

/// A number may have a fraction: its digits count on behind the point, each a tenth of the
/// one before.
pub proof fn law_fractions_are_read(a: Seq<char>, b: Seq<char>)
    requires
        a.len() + b.len() > 0,
        all_digits(a, 10),
        all_digits(b, 10),
    ensures
        unsigned_number(a + seq!['.'] + b) == Some(
            Magnitude::Finite { digits: a + b, exp: -(b.len() as int) },
        ),
        a.len() > 0 ==> unsigned_number(a) == Some(Magnitude::Finite { digits: a, exp: 0 }),
{
    let s = a + seq!['.'] + b;
    lemma_no_letters(a, b);
    assert(all_digits(a + b, 10)) by {
        assert forall|i: int| 0 <= i < (a + b).len() implies digit_value(
            #[trigger] (a + b)[i],
        ) is Some && digit_value((a + b)[i])->0 < 10 by {
            if i < a.len() {
                assert((a + b)[i] == a[i]);
            } else {
                assert((a + b)[i] == b[i - a.len()]);
            }
        }
    }
    assert forall|i: int| 0 <= i < a.len() implies #[trigger] a[i] != '.' by {
        assert(digit_value(a[i]) is Some);
    }
    law_split_at_the_first(a, '.', b);
    assert forall|i: int| 0 <= i < s.len() implies #[trigger] s[i] != 'e' by {
        if i < a.len() {
            assert(s[i] == a[i]);
            assert(digit_value(a[i]) is Some && digit_value(a[i])->0 < 10);
        } else if i > a.len() {
            assert(s[i] == b[i - a.len() - 1]);
            assert(digit_value(b[i - a.len() - 1]) is Some);
            assert(digit_value(b[i - a.len() - 1])->0 < 10);
        }
    }
    law_split_at_the_first(s, 'e', Seq::empty());
    assert forall|i: int| 0 <= i < a.len() implies #[trigger] a[i] != 'e' by {
        assert(digit_value(a[i]) is Some && digit_value(a[i])->0 < 10);
    }
    law_split_at_the_first(a, 'e', Seq::empty());
}

proof fn lemma_no_letters(a: Seq<char>, b: Seq<char>)
    requires
        all_digits(a, 10),
    ensures
        a + seq!['.'] + b != "nan"@,
        a + seq!['.'] + b != "inf"@,
        a + seq!['.'] + b != "infinity"@,
        a.len() > 0 ==> a != "nan"@ && a != "inf"@ && a != "infinity"@,
{
    reveal_strlit("nan");
    reveal_strlit("inf");
    reveal_strlit("infinity");
    let s = a + seq!['.'] + b;
    if a.len() > 0 {
        assert(digit_value(a[0]) is Some && digit_value(a[0])->0 < 10);
        assert(s[0] == a[0]);
    } else {
        assert(s[0] == '.');
    }
    assert("nan"@[0] == 'n' && "inf"@[0] == 'i' && "infinity"@[0] == 'i');
    assert(s[0] != 'n' && s[0] != 'i');
    assert(a.len() > 0 ==> a[0] != 'n' && a[0] != 'i');
}

/// Digits of the weight ten to the power `exp` stand for their value times that power:
/// `numerator / denominator` is that number.
pub proof fn law_weight_of_digits(digits: Seq<char>, n: nat)
    requires
        all_digits(digits, 10),
    ensures
        pow10(0) == 1,
        pow10(n + 1) == 10 * pow10(n),
        numerator(digits, n as int) == digits_value(digits, 10) * pow10(n),
        denominator(n as int) == 1,
        numerator(digits, -(n as int)) == digits_value(digits, 10),
        denominator(-(n as int)) == pow10(n),
{
    crate::number::lemma_digits_value_grows(digits, 0, 10);
    let v = digits_value(digits, 10);
    assert(v as nat * 1 == v) by (nonlinear_arith)
        requires
            v >= 0,
    ;
}

/// A sign in front of a number is told apart from it.
pub proof fn law_signs_are_read(s: Seq<char>)
    requires
        s.len() > 0,
        s[0] != '-',
        s[0] != '+',
    ensures
        unsigned_number(s) is Some ==> signed_number(s) == Some((false, unsigned_number(s)->0))
            && signed_number(seq!['+'] + s) == Some((false, unsigned_number(s)->0))
            && signed_number(seq!['-'] + s) == Some((true, unsigned_number(s)->0)),
        unsigned_number(s) is None ==> signed_number(s) is None && signed_number(seq!['+'] + s)
            is None && signed_number(seq!['-'] + s) is None,
{
    assert((seq!['+'] + s).skip(1) =~= s);
    assert((seq!['-'] + s).skip(1) =~= s);
}

} // verus!
