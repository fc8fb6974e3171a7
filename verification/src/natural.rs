//! Natural numbers of any size, for arithmetic that must not round.

use vstd::prelude::*;

verus! {

/// The number of values of one digit.
pub const BASE: u64 = 0x1_0000_0000;

/// A natural number by its digits, the least significant first.
pub struct Natural {
    pub digits: Vec<u32>,
}

/// The number that digits stand for.
pub open spec fn value(d: Seq<u32>) -> nat
    decreases d.len(),
{
    if d.len() == 0 {
        0
    } else {
        d[0] as nat + BASE as nat * value(d.skip(1))
    }
}

/// The weight of the digit at an index.
spec fn weight(n: nat) -> nat
    decreases n,
{
    if n == 0 {
        1
    } else {
        BASE as nat * weight((n - 1) as nat)
    }
}

proof fn lemma_value_push(d: Seq<u32>, x: u32)
    ensures
        value(d.push(x)) == value(d) + x as nat * weight(d.len()),
    decreases d.len(),
{
    let e = d.push(x);
    if d.len() == 0 {
        assert(e.skip(1) =~= Seq::<u32>::empty());
        assert(value(e.skip(1)) == 0);
        assert(weight(0) == 1);
        assert(x as nat * 1 == x as nat) by (nonlinear_arith);
        assert(e[0] == x);
    } else {
        lemma_value_push(d.skip(1), x);
        assert(e.skip(1) =~= d.skip(1).push(x));
        assert(e[0] == d[0]);
        let w = weight((d.len() - 1) as nat);
        let v = value(d.skip(1));
        assert(BASE as nat * (v + x as nat * w) == BASE as nat * v + x as nat * (BASE as nat * w))
            by (nonlinear_arith);
    }
}

proof fn lemma_value_split(d: Seq<u32>, n: int)
    requires
        0 <= n < d.len(),
    ensures
        value(d.take(n + 1)) == value(d.take(n)) + d[n] as nat * weight(n as nat),
{
    assert(d.take(n + 1) =~= d.take(n).push(d[n]));
    lemma_value_push(d.take(n), d[n]);
}

proof fn lemma_value_bound(d: Seq<u32>, n: int)
    requires
        0 <= n <= d.len(),
    ensures
        value(d.take(n)) < weight(n as nat),
    decreases n,
{
    if n == 0 {
        assert(d.take(0) =~= Seq::<u32>::empty());
    } else {
        lemma_value_bound(d, n - 1);
        lemma_value_split(d, n - 1);
        let w = weight((n - 1) as nat);
        let x = d[n - 1] as nat;
        assert(x * w + w <= BASE as nat * w) by (nonlinear_arith)
            requires
                x + 1 <= BASE as nat,
        ;
    }
}

/// Digits that are all zero add nothing.
proof fn lemma_value_zeros(d: Seq<u32>, n: int)
    requires
        0 <= n <= d.len(),
        forall|i: int| n <= i < d.len() ==> d[i] == 0,
    ensures
        value(d) == value(d.take(n)),
    decreases d.len() - n,
{
    if n == d.len() {
        assert(d.take(n) =~= d);
    } else {
        lemma_value_zeros(d, n + 1);
        lemma_value_split(d, n);
    }
}

impl View for Natural {
    type V = nat;

    open spec fn view(&self) -> nat {
        value(self.digits@)
    }
}

impl Natural {
    /// A small number.
    pub fn from_small(n: u32) -> (r: Natural)
        ensures
            r@ == n,
    {
        let digits: Vec<u32> = vec![n];
        assert(digits@.skip(1) =~= Seq::<u32>::empty());
        assert(value(digits@.skip(1)) == 0);
        Natural { digits }
    }

    /// A number of 64 bits.
    pub fn from_u64(n: u64) -> (r: Natural)
        ensures
            r@ == n,
    {
        let low: u32 = (n % BASE) as u32;
        let high: u32 = (n / BASE) as u32;
        let digits: Vec<u32> = vec![low, high];
        proof {
            let rest = digits@.skip(1);
            assert(rest =~= seq![high]);
            assert(rest.skip(1) =~= Seq::<u32>::empty());
            assert(value(rest.skip(1)) == 0);
            assert(value(rest) == high);
        }
        Natural { digits }
    }

    /// The same number.
    pub fn copy(&self) -> (r: Natural)
        ensures
            r@ == self@,
    {
        let mut digits: Vec<u32> = Vec::new();
        for i in 0..self.digits.len()
            invariant
                digits@ == self.digits@.take(i as int),
        {
            digits.push(self.digits[i]);
            assert(digits@ =~= self.digits@.take(i + 1));
        }
        assert(digits@ =~= self.digits@);
        Natural { digits }
    }

    /// Multiply by a small number and add another.
    pub fn scale(&mut self, factor: u32, more: u32)
        ensures
            final(self)@ == old(self)@ * factor + more,
    {
        let ghost d = self.digits@;
        let mut carry: u64 = more as u64;
        let n: usize = self.digits.len();
        let mut i: usize = 0;
        proof {
            assert(d.take(0) =~= Seq::<u32>::empty());
            assert(self.digits@.take(0) =~= Seq::<u32>::empty());
            assert(0 * factor as nat == 0) by (nonlinear_arith);
            assert(carry as nat * 1 == carry as nat) by (nonlinear_arith);
            assert(weight(0) == 1);
        }
        while i < n
            invariant
                i <= n,
                n == d.len(),
                self.digits@.len() == n,
                carry < BASE,
                forall|j: int| i <= j < n ==> self.digits@[j] == d[j],
                value(self.digits@.take(i as int)) + carry as nat * weight(i as nat) == value(
                    d.take(i as int),
                ) * factor as nat + more as nat,
            decreases n - i,
        {
            let ghost before = self.digits@;
            let x: u32 = self.digits[i];
            assert(x as nat * factor as nat <= 0xFFFF_FFFF * 0xFFFF_FFFF) by (nonlinear_arith)
                requires
                    x <= 0xFFFF_FFFF,
                    factor <= 0xFFFF_FFFF,
            ;
            let product: u64 = (x as u64) * (factor as u64);
            let t: u64 = product + carry;
            let low: u32 = (t % BASE) as u32;
            let up: u64 = t / BASE;
            self.digits[i] = low;
            proof {
                let w = weight(i as nat);
                let a = self.digits@;
                lemma_value_split(d, i as int);
                lemma_value_split(a, i as int);
                assert(a.take(i as int) =~= before.take(i as int));
                assert(weight((i + 1) as nat) == BASE as nat * w);
                let vd = value(d.take(i as int));
                let va = value(a.take(i as int));
                let c = carry as nat;
                let f = factor as nat;
                let xn = x as nat;
                assert(low as nat + BASE as nat * up as nat == xn * f + c);
                assert(va + low as nat * w + up as nat * (BASE as nat * w) == (vd + xn * w) * f
                    + more as nat) by (nonlinear_arith)
                    requires
                        low as nat + BASE as nat * up as nat == xn * f + c,
                        va + c * w == vd * f + more as nat,
                ;
                assert(up < BASE);
            }
            carry = up;
            i = i + 1;
        }
        assert(d.take(n as int) =~= d);
        assert(self.digits@.take(n as int) =~= self.digits@);
        let ghost a = self.digits@;
        if carry > 0 {
            self.digits.push(carry as u32);
            proof {
                lemma_value_push(a, carry as u32);
            }
        }
        assert(0 * weight(n as nat) == 0) by (nonlinear_arith);
    }

    /// Double.
    pub fn double(&mut self)
        ensures
            final(self)@ == 2 * old(self)@,
    {
        self.scale(2, 0);
    }

    /// The digit at an index, zero past the last.
    fn digit(&self, i: usize) -> (r: u32)
        ensures
            r == if i < self.digits@.len() {
                self.digits@[i as int]
            } else {
                0
            },
    {
        if i < self.digits.len() {
            self.digits[i]
        } else {
            0
        }
    }

    /// Whether the number is at least another.
    pub fn at_least(&self, other: &Natural) -> (r: bool)
        ensures
            r == (self@ >= other@),
    {
        let n: usize = if self.digits.len() > other.digits.len() {
            self.digits.len()
        } else {
            other.digits.len()
        };
        let ghost a = padded(self.digits@, n as int);
        let ghost b = padded(other.digits@, n as int);
        proof {
            lemma_padded(self.digits@, n as int);
            lemma_padded(other.digits@, n as int);
            assert(a.take(n as int) =~= a);
            assert(b.take(n as int) =~= b);
        }
        let mut i: usize = n;
        while i > 0
            invariant
                i <= n,
                a == padded(self.digits@, n as int),
                b == padded(other.digits@, n as int),
                a.len() == n,
                b.len() == n,
                value(a) == self@,
                value(b) == other@,
                value(a) - value(b) == value(a.take(i as int)) - value(b.take(i as int)),
            decreases i,
        {
            i = i - 1;
            let x: u32 = self.digit(i);
            let y: u32 = other.digit(i);
            assert(x == a[i as int] && y == b[i as int]);
            proof {
                lemma_value_split(a, i as int);
                lemma_value_split(b, i as int);
                lemma_value_bound(a, i as int);
                lemma_value_bound(b, i as int);
                let w = weight(i as nat);
                let (p, q) = (x as nat, y as nat);
                if x > y {
                    assert(p * w >= q * w + w) by (nonlinear_arith)
                        requires
                            p >= q + 1,
                    ;
                }
                if x < y {
                    assert(q * w >= p * w + w) by (nonlinear_arith)
                        requires
                            q >= p + 1,
                    ;
                }
            }
            if x > y {
                return true;
            }
            if x < y {
                return false;
            }
        }
        assert(a.take(0) =~= Seq::<u32>::empty());
        assert(b.take(0) =~= Seq::<u32>::empty());
        true
    }

    /// Take another number away.
    pub fn subtract(&mut self, other: &Natural)
        requires
            old(self)@ >= other@,
        ensures
            final(self)@ == old(self)@ - other@,
    {
        let ghost first = self.digits@;
        while self.digits.len() < other.digits.len()
            invariant
                value(self.digits@) == value(first),
            decreases other.digits.len() - self.digits.len(),
        {
            let ghost before = self.digits@;
            self.digits.push(0);
            proof {
                lemma_value_push(before, 0);
            }
        }
        let n: usize = self.digits.len();
        let ghost d = self.digits@;
        let ghost b = padded(other.digits@, n as int);
        proof {
            lemma_padded(other.digits@, n as int);
        }
        let mut borrow: u64 = 0;
        let mut i: usize = 0;
        proof {
            assert(d.take(0) =~= Seq::<u32>::empty());
            assert(b.take(0) =~= Seq::<u32>::empty());
            assert(self.digits@.take(0) =~= Seq::<u32>::empty());
        }
        while i < n
            invariant
                i <= n,
                n == d.len(),
                n >= other.digits@.len(),
                b == padded(other.digits@, n as int),
                b.len() == n,
                self.digits@.len() == n,
                borrow <= 1,
                forall|j: int| i <= j < n ==> self.digits@[j] == d[j],
                value(d.take(i as int)) + borrow as nat * weight(i as nat) == value(
                    self.digits@.take(i as int),
                ) + value(b.take(i as int)),
            decreases n - i,
        {
            let ghost before = self.digits@;
            let x: u64 = self.digits[i] as u64;
            let y: u64 = other.digit(i) as u64 + borrow;
            assert(other.digits@.len() <= n);
            let (low, next): (u64, u64) = if x >= y {
                (x - y, 0)
            } else {
                (x + BASE - y, 1)
            };
            self.digits[i] = low as u32;
            proof {
                let w = weight(i as nat);
                let a = self.digits@;
                lemma_value_split(d, i as int);
                lemma_value_split(a, i as int);
                lemma_value_split(b, i as int);
                assert(a.take(i as int) =~= before.take(i as int));
                assert(weight((i + 1) as nat) == BASE as nat * w);
                let vd = value(d.take(i as int));
                let va = value(a.take(i as int));
                let vb = value(b.take(i as int));
                let (xn, bn, cn, ln, nn) = (
                    x as nat,
                    b[i as int] as nat,
                    borrow as nat,
                    low as nat,
                    next as nat,
                );
                assert(xn + nn * BASE as nat == ln + bn + cn);
                assert(vd + xn * w + nn * (BASE as nat * w) == va + ln * w + (vb + bn * w))
                    by (nonlinear_arith)
                    requires
                        xn + nn * BASE as nat == ln + bn + cn,
                        vd + cn * w == va + vb,
                ;
            }
            borrow = next;
            i = i + 1;
        }
        proof {
            assert(d.take(n as int) =~= d);
            assert(b.take(n as int) =~= b);
            assert(self.digits@.take(n as int) =~= self.digits@);
            lemma_value_bound(self.digits@, n as int);
            if borrow == 1 {
                let w = weight(n as nat);
                assert(1 * w == w) by (nonlinear_arith);
            }
            assert(0 * weight(n as nat) == 0) by (nonlinear_arith);
        }
    }
}

/// Digits brought to the length `n` by zeros.
spec fn padded(d: Seq<u32>, n: int) -> Seq<u32> {
    Seq::new(
        n as nat,
        |i: int|
            if i < d.len() {
                d[i]
            } else {
                0u32
            },
    )
}

proof fn lemma_padded(d: Seq<u32>, n: int)
    requires
        d.len() <= n,
    ensures
        value(padded(d, n)) == value(d),
{
    let p = padded(d, n);
    lemma_value_zeros(p, d.len() as int);
    assert(p.take(d.len() as int) =~= d);
}

} // verus!
