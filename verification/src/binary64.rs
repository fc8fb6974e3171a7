//! Rounding to the numbers of the binary64 format, by exact arithmetic.
//!
//! A number of the format is `m * 2^k` with `m` of at most 53 bits and `k` at
//! least -1074. A positive rational `num / den` is rounded to the nearest of
//! them, ties to the one whose `m` is even. Numbers are not limited above: what
//! is read from them here stops at 64 bits anyway.

use vstd::arithmetic::div_mod::{
    lemma_div_denominator, lemma_div_is_ordered, lemma_fundamental_div_mod_converse,
    lemma_multiply_divide_lt,
};
use vstd::arithmetic::power2::{
    lemma2_to64, lemma_pow2_adds, lemma_pow2_pos, lemma_pow2_strictly_increases,
    lemma_pow2_unfold, pow2,
};
use vstd::prelude::*;

use crate::natural::Natural;

verus! {

/// Two to the power `k`, or one where `k` is negative.
pub open spec fn up(k: int) -> nat {
    if k > 0 {
        pow2(k as nat)
    } else {
        1
    }
}

/// Whether `num / den` is at least two to the power `t`.
pub open spec fn reaches(num: nat, den: nat, t: int) -> bool {
    num * up(-t) >= den * up(t)
}

/// The exponent of the greatest power of two that is no more than `num / den`.
pub open spec fn magnitude(num: nat, den: nat) -> int {
    choose|t: int| #[trigger] reaches(num, den, t) && !reaches(num, den, t + 1)
}

/// `n / d` rounded to the nearest integer, ties to the even one.
pub open spec fn half_even(n: nat, d: nat) -> nat {
    let q = n / d;
    let r = n % d;
    if 2 * r > d || (2 * r == d && q % 2 == 1) {
        q + 1
    } else {
        q
    }
}

/// The exponent to which `num / den` is rounded: that of 53 bits, but no less
/// than the format has.
pub open spec fn ulp(num: nat, den: nat) -> int {
    if magnitude(num, den) - 52 >= -1074 {
        magnitude(num, den) - 52
    } else {
        -1074
    }
}

/// The number `m * 2^k` of the format that is nearest to `num / den`.
pub open spec fn binary64(num: nat, den: nat) -> (nat, int) {
    let k = ulp(num, den);
    (half_even(num * up(-k), den * up(k)), k)
}

/// The integer part of `m * 2^k`.
pub open spec fn truncated(m: nat, k: int) -> nat {
    if k >= 0 {
        m * up(k)
    } else {
        m / up(-k)
    }
}

/// The integer part of `m * 2^k`, or the greatest integer of 64 bits where it is
/// more.
pub open spec fn to_u64(m: nat, k: int) -> u64 {
    if truncated(m, k) > u64::MAX {
        u64::MAX
    } else {
        truncated(m, k) as u64
    }
}

// ---- Facts -------------------------------------------------------------------

proof fn lemma_cancel(a: nat, b: nat, c: nat)
    requires
        c > 0,
    ensures
        a * c >= b * c <==> a >= b,
{
    assert(a >= b ==> a * c >= b * c) by (nonlinear_arith)
        requires
            c > 0,
    ;
    assert(a < b ==> a * c < b * c) by (nonlinear_arith)
        requires
            c > 0,
    ;
}

pub proof fn lemma_up_pos(k: int)
    ensures
        up(k) > 0,
{
    if k > 0 {
        lemma_pow2_pos(k as nat);
    }
}

/// Comparing with a power of two after shifting by another.
pub proof fn lemma_scale(num: nat, den: nat, t: int, j: nat)
    ensures
        reaches(num, den, t + j) <==> num * up(-t) >= den * up(t) * pow2(j),
{
    lemma_pow2_pos(j);
    lemma2_to64();
    if t >= 0 {
        lemma_pow2_adds(t as nat, j);
        assert(up(t) == pow2(t as nat));
        assert(up(t + j) == pow2((t + j) as nat));
        assert(den * up(t) * pow2(j) == den * (up(t) * pow2(j))) by (nonlinear_arith);
    } else if t + j <= 0 {
        let s = (-t - j) as nat;
        lemma_pow2_adds(s, j);
        assert(up(-(t + j)) == pow2(s));
        assert(up(-t) == pow2((-t) as nat));
        let a = num * pow2(s);
        assert(num * up(-t) == a * pow2(j)) by (nonlinear_arith)
            requires
                up(-t) == pow2(s) * pow2(j),
                a == num * pow2(s),
        ;
        lemma_cancel(a, den, pow2(j));
        assert(den * 1 * pow2(j) == den * pow2(j)) by (nonlinear_arith);
    } else {
        let s = (t + j) as nat;
        lemma_pow2_adds(s, (-t) as nat);
        lemma_pow2_pos((-t) as nat);
        assert(pow2(j) == pow2(s) * pow2((-t) as nat));
        let b = den * pow2(s);
        assert(den * 1 * pow2(j) == b * pow2((-t) as nat)) by (nonlinear_arith)
            requires
                pow2(j) == pow2(s) * pow2((-t) as nat),
                b == den * pow2(s),
        ;
        lemma_cancel(num, b, pow2((-t) as nat));
        assert(num * 1 == num) by (nonlinear_arith);
    }
}

/// What reaches a power of two reaches the lesser ones.
pub proof fn lemma_reaches_less(num: nat, den: nat, a: int, b: int)
    requires
        a <= b,
        reaches(num, den, b),
    ensures
        reaches(num, den, a),
{
    let j = (b - a) as nat;
    lemma_scale(num, den, a, j);
    lemma_pow2_pos(j);
    let x = den * up(a);
    assert(x * pow2(j) >= x) by (nonlinear_arith)
        requires
            pow2(j) >= 1,
    ;
}

proof fn lemma_magnitude(num: nat, den: nat, t: int)
    requires
        reaches(num, den, t),
        !reaches(num, den, t + 1),
    ensures
        magnitude(num, den) == t,
{
    let s = magnitude(num, den);
    assert(reaches(num, den, s) && !reaches(num, den, s + 1));
    if s < t {
        lemma_reaches_less(num, den, s + 1, t);
    }
    if t < s {
        lemma_reaches_less(num, den, t + 1, s);
    }
}

proof fn lemma_half_even_bounds(n: nat, d: nat, low: nat, high: nat)
    requires
        d > 0,
    ensures
        n < d * high ==> half_even(n, d) <= high,
        n >= d * low ==> half_even(n, d) >= low,
{
    if n < d * high {
        lemma_multiply_divide_lt(n as int, d as int, high as int);
    }
    if n >= d * low {
        lemma_div_is_ordered((d * low) as int, n as int, d as int);
        vstd::arithmetic::div_mod::lemma_div_multiples_vanish(low as int, d as int);
    }
}

/// The parts of the nearest number, for a number between two powers of two.
pub proof fn lemma_parts(num: nat, den: nat, t: int)
    requires
        den > 0,
        reaches(num, den, t),
        !reaches(num, den, t + 1),
    ensures
        magnitude(num, den) == t,
        binary64(num, den).1 == if t >= -1022 {
            t - 52
        } else {
            -1074
        },
        binary64(num, den).0 <= pow2(53),
        t >= -1022 ==> binary64(num, den).0 >= pow2(52),
{
    lemma_magnitude(num, den, t);
    let k = ulp(num, den);
    let n = num * up(-k);
    let d = den * up(k);
    lemma_up_pos(k);
    assert(d > 0) by (nonlinear_arith)
        requires
            d == den * up(k),
            den > 0,
            up(k) > 0,
    ;
    lemma_pow2_pos(53);
    if t + 1 - k >= 0 {
        let j = (t + 1 - k) as nat;
        lemma_scale(num, den, k, j);
        if j < 53 {
            lemma_pow2_strictly_increases(j, 53);
            assert(d * pow2(j) <= d * pow2(53)) by (nonlinear_arith)
                requires
                    pow2(j) <= pow2(53),
            ;
        }
    } else {
        if reaches(num, den, k) {
            lemma_reaches_less(num, den, t + 1, k);
        }
        lemma_scale(num, den, k, 0);
        lemma2_to64();
        assert(d * pow2(0) <= d * pow2(53)) by (nonlinear_arith)
            requires
                pow2(0) <= pow2(53),
        ;
    }
    if t >= -1022 {
        lemma_scale(num, den, k, 52);
    }
    lemma_half_even_bounds(n, d, pow2(52), pow2(53));
}

/// A number that reaches one power of two and not another has a magnitude between
/// them.
proof fn lemma_has_magnitude(num: nat, den: nat, a: int, b: int)
    requires
        a <= b,
        reaches(num, den, a),
        !reaches(num, den, b),
    ensures
        a <= magnitude(num, den) < b,
        reaches(num, den, magnitude(num, den)),
        !reaches(num, den, magnitude(num, den) + 1),
    decreases b - a,
{
    if reaches(num, den, a + 1) {
        lemma_has_magnitude(num, den, a + 1, b);
    } else {
        lemma_magnitude(num, den, a);
    }
}

proof fn lemma_pow2_exceeds(n: nat)
    ensures
        pow2(n) > n,
    decreases n,
{
    if n == 0 {
        lemma2_to64();
    } else {
        lemma_pow2_exceeds((n - 1) as nat);
        lemma_pow2_unfold(n);
    }
}

/// Every positive number has a magnitude.
pub proof fn lemma_positive_has_magnitude(num: nat, den: nat)
    requires
        num > 0,
        den > 0,
    ensures
        reaches(num, den, magnitude(num, den)),
        !reaches(num, den, magnitude(num, den) + 1),
{
    let a = den;
    let b = num;
    lemma_pow2_exceeds(a);
    lemma_pow2_exceeds(b);
    assert(reaches(num, den, -(a as int))) by {
        assert(up(a as int) == pow2(a));
        assert(num * pow2(a) >= den * 1) by (nonlinear_arith)
            requires
                num >= 1,
                pow2(a) > den,
        ;
    }
    assert(!reaches(num, den, b as int)) by {
        assert(up(b as int) == pow2(b));
        assert(num * 1 < den * pow2(b)) by (nonlinear_arith)
            requires
                den >= 1,
                pow2(b) > num,
        ;
    }
    lemma_has_magnitude(num, den, -(a as int), b as int);
}

// ---- Computing ---------------------------------------------------------------

/// Multiply by a power of two, where the exponent is positive.
pub fn lifted(x: &Natural, k: i64) -> (r: Natural)
    ensures
        r@ == x@ * up(k as int),
{
    let mut r: Natural = x.copy();
    let mut i: i64 = 0;
    proof {
        assert(x@ * 1 == x@) by (nonlinear_arith);
    }
    while i < k
        invariant
            0 <= i,
            i <= k || (k < 0 && i == 0),
            r@ == x@ * up(i as int),
        decreases k - i,
    {
        let ghost before = r@;
        r.double();
        proof {
            lemma_pow2_unfold((i + 1) as nat);
            lemma2_to64();
            assert(up(i + 1) == 2 * up(i as int));
            assert(2 * (x@ * up(i as int)) == x@ * (2 * up(i as int))) by (nonlinear_arith);
        }
        i = i + 1;
    }
    r
}

fn reach(num: &Natural, den: &Natural, t: i64) -> (r: bool)
    requires
        t > i64::MIN,
    ensures
        r == reaches(num@, den@, t as int),
{
    lifted(num, -t).at_least(&lifted(den, t))
}

/// Divide, where the quotient has at most 54 bits.
fn divide(n: Natural, d: &Natural) -> (r: (u64, Natural))
    requires
        d@ > 0,
        n@ < d@ * pow2(54),
    ensures
        n@ == r.0 * d@ + r.1@,
        r.1@ < d@,
{
    let ghost n0 = n@;
    let mut n: Natural = n;
    let mut powers: Vec<Natural> = Vec::new();
    let mut p: Natural = d.copy();
    proof {
        lemma2_to64();
        assert(d@ * 1 == d@) by (nonlinear_arith);
    }
    for i in 0..54
        invariant
            powers@.len() == i,
            p@ == d@ * pow2(i as nat),
            forall|j: int| 0 <= j < i ==> (#[trigger] powers@[j])@ == d@ * pow2(j as nat),
    {
        powers.push(p.copy());
        p.double();
        proof {
            lemma_pow2_unfold((i + 1) as nat);
            let w = pow2(i as nat);
            assert(2 * (d@ * w) == d@ * (2 * w)) by (nonlinear_arith);
        }
    }
    let mut q: u64 = 0;
    let mut i: usize = 54;
    proof {
        lemma2_to64();
        assert(0 * (d@ * pow2(54)) == 0) by (nonlinear_arith);
    }
    while i > 0
        invariant
            i <= 54,
            powers@.len() == 54,
            forall|j: int| 0 <= j < 54 ==> (#[trigger] powers@[j])@ == d@ * pow2(j as nat),
            n0 == q as nat * (d@ * pow2(i as nat)) + n@,
            n@ < d@ * pow2(i as nat),
            q < pow2((54 - i) as nat),
        decreases i,
    {
        i = i - 1;
        proof {
            lemma_pow2_unfold((i + 1) as nat);
            lemma_pow2_unfold((54 - i) as nat);
            lemma_bits(54 - i);
            let w = d@ * pow2(i as nat);
            assert(d@ * pow2((i + 1) as nat) == 2 * w) by (nonlinear_arith)
                requires
                    pow2((i + 1) as nat) == 2 * pow2(i as nat),
                    w == d@ * pow2(i as nat),
            ;
            assert(q as nat * (2 * w) == (2 * q as nat) * w) by (nonlinear_arith);
            assert((2 * q as nat + 1) * w == (2 * q as nat) * w + w) by (nonlinear_arith);
        }
        if n.at_least(&powers[i]) {
            n.subtract(&powers[i]);
            q = 2 * q + 1;
        } else {
            q = 2 * q;
        }
    }
    proof {
        lemma2_to64();
        assert(q as nat * (d@ * 1) == q as nat * d@) by (nonlinear_arith);
        assert(d@ * 1 == d@) by (nonlinear_arith);
    }
    (q, n)
}

proof fn lemma_bits(i: int)
    requires
        0 <= i <= 54,
    ensures
        pow2(i as nat) <= 0x40_0000_0000_0000,
{
    lemma2_to64();
    lemma2_to64_at_54();
    if i < 54 {
        lemma_pow2_strictly_increases(i as nat, 54);
    }
}

proof fn lemma2_to64_at_54()
    ensures
        pow2(54) == 0x40_0000_0000_0000,
        pow2(53) == 0x20_0000_0000_0000,
        pow2(52) == 0x10_0000_0000_0000,
{
    vstd::arithmetic::power2::lemma2_to64_rest();
}

/// Round to the nearest number of the format.
pub fn nearest(num: &Natural, den: &Natural) -> (r: (u64, i64))
    requires
        den@ > 0,
        reaches(num@, den@, -200),
        !reaches(num@, den@, 200),
    ensures
        (r.0 as nat, r.1 as int) == binary64(num@, den@),
        -252 <= r.1 <= 147,
        0x10_0000_0000_0000 <= r.0 <= 0x20_0000_0000_0000,
{
    let mut t: i64 = -200;
    while reach(num, den, t + 1)
        invariant
            -200 <= t < 200,
            reaches(num@, den@, t as int),
            !reaches(num@, den@, 200),
        decreases 200 - t,
    {
        t = t + 1;
    }
    let k: i64 = t - 52;
    let n: Natural = lifted(num, -k);
    let d: Natural = lifted(den, k);
    proof {
        lemma_parts(num@, den@, t as int);
        lemma2_to64_at_54();
        lemma_up_pos(k as int);
        assert(d@ > 0) by (nonlinear_arith)
            requires
                d@ == den@ * up(k as int),
                den@ > 0,
                up(k as int) > 0,
        ;
        lemma_scale(num@, den@, k as int, 53);
    }
    let m: u64 = round_div(n, &d);
    (m, k)
}

/// The integer part of a number of the format, or the greatest integer of 64 bits.
pub fn saturate(m: u64, k: i64) -> (r: u64)
    requires
        -1100 <= k <= 1100,
    ensures
        r == to_u64(m as nat, k as int),
{
    if k >= 0 {
        let mut v: u64 = m;
        let mut i: i64 = 0;
        proof {
            assert(m as nat * 1 == m as nat) by (nonlinear_arith);
        }
        while i < k
            invariant
                0 <= i <= k <= 1100,
                v == m as nat * up(i as int),
            decreases k - i,
        {
            proof {
                lemma_pow2_unfold((i + 1) as nat);
                lemma2_to64();
                assert(up(i + 1) == 2 * up(i as int));
                assert(2 * (m as nat * up(i as int)) == m as nat * (2 * up(i as int)))
                    by (nonlinear_arith);
            }
            if v > u64::MAX / 2 {
                proof {
                    let a = m as nat * up(i + 1);
                    assert(a > u64::MAX);
                    lemma_up_grows(i + 1, k as int);
                    assert(m as nat * up(k as int) >= a) by (nonlinear_arith)
                        requires
                            a == m as nat * up(i + 1),
                            up(i + 1) <= up(k as int),
                    ;
                }
                return u64::MAX;
            }
            v = v * 2;
            i = i + 1;
        }
        v
    } else {
        let mut v: u64 = m;
        let mut i: i64 = 0;
        while i < -k
            invariant
                0 <= i <= -k,
                -1100 <= k < 0,
                v == m as nat / up(i as int),
            decreases -k - i,
        {
            proof {
                lemma_pow2_unfold((i + 1) as nat);
                lemma2_to64();
                lemma_up_pos(i as int);
                assert(up(i + 1) == 2 * up(i as int));
                lemma_div_denominator(m as int, up(i as int) as int, 2);
                assert(up(i as int) * 2 == up(i + 1));
            }
            v = v / 2;
            i = i + 1;
        }
        v
    }
}

proof fn lemma_up_grows(a: int, b: int)
    requires
        a <= b,
    ensures
        up(a) <= up(b),
    decreases b - a,
{
    if a < b {
        lemma_up_grows(a, b - 1);
        lemma_up_pos(b - 1);
        if b > 0 {
            lemma_pow2_unfold(b as nat);
            lemma2_to64();
        }
    }
}

/// Divide and round to the nearest integer, ties to the even one.
pub fn round_div(n: Natural, d: &Natural) -> (r: u64)
    requires
        d@ > 0,
        n@ < d@ * pow2(53),
    ensures
        r == half_even(n@, d@),
{
    let ghost n0 = n@;
    proof {
        lemma2_to64_at_54();
        assert(d@ * pow2(53) <= d@ * pow2(54)) by (nonlinear_arith)
            requires
                pow2(53) <= pow2(54),
        ;
    }
    let (q, r) = divide(n, d);
    proof {
        lemma_fundamental_div_mod_converse(n0 as int, d@ as int, q as int, r@ as int);
        let h = pow2(53);
        if q >= pow2(53) {
            assert(q as nat * d@ >= d@ * h) by (nonlinear_arith)
                requires
                    q as nat >= h,
            ;
        }
    }
    let mut twice: Natural = r;
    twice.double();
    let more: bool = twice.at_least(d);
    let tie: bool = more && d.at_least(&twice);
    if more && (!tie || q % 2 == 1) {
        q + 1
    } else {
        q
    }
}

/// A number of the format is rounded to itself: where `num / den` is `v * 2^-j`
/// with `v` of at most 53 bits, nothing is lost.
pub proof fn lemma_exact(num: nat, den: nat, v: nat)
    requires
        den > 0,
        num == v * den,
        0 < v < pow2(53),
    ensures
        binary64(num, den).1 <= 0,
        truncated(binary64(num, den).0, binary64(num, den).1) == v,
        binary64(num, den).0 == v * up(-binary64(num, den).1),
{
    lemma2_to64_at_54();
    assert(num > 0) by (nonlinear_arith)
        requires
            num == v * den,
            v > 0,
            den > 0,
    ;
    lemma_positive_has_magnitude(num, den);
    let t = magnitude(num, den);
    if t >= 53 {
        lemma_reaches_less(num, den, 53, t);
        assert(up(53) == pow2(53));
        assert(num * 1 < den * pow2(53)) by (nonlinear_arith)
            requires
                num == v * den,
                v < pow2(53),
                den > 0,
        ;
    }
    if t < 0 {
        assert(reaches(num, den, 0)) by {
            assert(num * 1 >= den * 1) by (nonlinear_arith)
                requires
                    num == v * den,
                    v >= 1,
            ;
        }
        lemma_reaches_less(num, den, t + 1, 0);
    }
    lemma_parts(num, den, t);
    let k = t - 52;
    let w = up(-k);
    lemma_up_pos(-k);
    let n = num * w;
    assert(den * 1 == den) by (nonlinear_arith);
    assert(n == (v * w) * den + 0) by (nonlinear_arith)
        requires
            n == num * w,
            num == v * den,
    ;
    lemma_fundamental_div_mod_converse(n as int, den as int, (v * w) as int, 0);
    assert(half_even(n, den) == v * w);
    if k < 0 {
        assert(v * w == w * v) by (nonlinear_arith);
        vstd::arithmetic::div_mod::lemma_div_multiples_vanish(v as int, w as int);
    } else {
        assert(v * 1 == v) by (nonlinear_arith);
    }
}

/// Eighths are numbers of the format too: nothing is lost of `v / 8`.
pub proof fn lemma_exact_eighths(w: nat, v: nat)
    requires
        w > 0,
        0 < v < pow2(53),
    ensures
        ({
            let (m, k) = binary64(v * w, w * 8);
            truncated(m, k) == v / 8
        }),
{
    lemma2_to64_at_54();
    lemma2_to64();
    let num = v * w;
    let den = w * 8;
    assert(num > 0) by (nonlinear_arith)
        requires
            num == v * w,
            v > 0,
            w > 0,
    ;
    lemma_positive_has_magnitude(num, den);
    let t = magnitude(num, den);
    if t >= 50 {
        lemma_reaches_less(num, den, 50, t);
        assert(up(50) == pow2(50));
        lemma_pow2_adds(50, 3);
        assert(num * 1 < den * pow2(50)) by (nonlinear_arith)
            requires
                num == v * w,
                den == w * 8,
                v < pow2(50) * 8,
                w > 0,
        ;
    }
    if t < -3 {
        assert(reaches(num, den, -3)) by {
            assert(up(3) == 8);
            assert(num * 8 >= den * 1) by (nonlinear_arith)
                requires
                    num == v * w,
                    den == w * 8,
                    v >= 1,
            ;
        }
        lemma_reaches_less(num, den, t + 1, -3);
    }
    lemma_parts(num, den, t);
    let k = t - 52;
    let j = (-k) as nat;
    let i = (j - 3) as nat;
    lemma_pow2_adds(i, 3);
    lemma_pow2_pos(i);
    let (p, q) = (pow2(j), pow2(i));
    let n = num * p;
    assert(den * 1 == den) by (nonlinear_arith);
    assert(n == (v * q) * den + 0) by (nonlinear_arith)
        requires
            n == num * p,
            num == v * w,
            den == w * 8,
            p == q * 8,
    ;
    lemma_fundamental_div_mod_converse(n as int, den as int, (v * q) as int, 0);
    assert(half_even(n, den) == v * q);
    lemma_div_denominator((v * q) as int, q as int, 8);
    vstd::arithmetic::div_mod::lemma_div_by_multiple(v as int, q as int);
    assert(q * 8 == p);
}

// ---- Laws --------------------------------------------------------------------

/// Rounding to an integer gives the nearest one, and of two that are equally near the
/// even one.
pub proof fn law_rounding_is_nearest(n: nat, d: nat)
    requires
        d > 0,
    ensures
        2 * n <= 2 * half_even(n, d) * d + d,
        2 * half_even(n, d) * d <= 2 * n + d,
        2 * n == 2 * half_even(n, d) * d + d || 2 * half_even(n, d) * d == 2 * n + d ==> half_even(
            n,
            d,
        ) % 2 == 0,
{
    let q = n / d;
    let r = n % d;
    vstd::arithmetic::div_mod::lemma_fundamental_div_mod(n as int, d as int);
    vstd::arithmetic::div_mod::lemma_mod_bound(n as int, d as int);
    let h = half_even(n, d);
    assert(d * q == q * d) by (nonlinear_arith);
    assert((q + 1) * d == q * d + d) by (nonlinear_arith);
    assert(2 * h * d == 2 * (h * d)) by (nonlinear_arith);
}

/// A positive number is brought to the nearest one of the format.
pub proof fn law_format_is_nearest(num: nat, den: nat)
    requires
        num > 0,
        den > 0,
    ensures
        ({
            let (m, k) = binary64(num, den);
            let (n, d) = (num * up(-k), den * up(k));
            2 * n <= 2 * m * d + d && 2 * m * d <= 2 * n + d
        }),
{
    let (m, k) = binary64(num, den);
    lemma_up_pos(k);
    let d = den * up(k);
    assert(d > 0) by (nonlinear_arith)
        requires
            d == den * up(k),
            den > 0,
            up(k) > 0,
    ;
    law_rounding_is_nearest(num * up(-k), d);
}

} // verus!
