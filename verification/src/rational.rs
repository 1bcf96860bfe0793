//! Exact rational cost values.
//!
//! Costs start at one and are split evenly across dependency edges, so they
//! are ratios of machine integers. The operations here are exact: they
//! either return the mathematically precise fraction (unreduced) or report
//! that a component no longer fits in 64 bits.

use vstd::prelude::*;

verus! {

/// A non-negative fraction `num / den` with `den > 0`. Fractions are kept
/// unreduced; equality of values is the cross-multiplied comparison.
#[derive(Debug, Clone, Copy, PartialEq, Eq, Structural)]
pub struct Rational {
    pub num: u64,
    pub den: u64,
}

impl Rational {
    /// A denominator of zero never arises.
    pub open spec fn wf(self) -> bool {
        self.den > 0
    }

    /// Two fractions denote the same value when they cross-multiply equal.
    pub open spec fn same_value(self, other: Rational) -> bool {
        self.num * other.den == other.num * self.den
    }

    /// The exact sum, as unbounded integers: `a/b + c/d = (ad + cb) / bd`,
    /// with a common denominator kept as it is.
    pub open spec fn spec_add(self, other: Rational) -> (int, int) {
        if self.den == other.den {
            (self.num + other.num, self.den as int)
        } else {
            (self.num * other.den + other.num * self.den, self.den * other.den)
        }
    }

    /// Whether the exact sum fits in 64-bit components.
    pub open spec fn add_fits(self, other: Rational) -> bool {
        self.spec_add(other).0 <= u64::MAX && self.spec_add(other).1 <= u64::MAX
    }

    /// The exact quotient by a positive integer: `(a/b) / k = a / bk`.
    pub open spec fn spec_div(self, k: u64) -> (int, int) {
        (self.num as int, self.den * k)
    }

    pub open spec fn div_fits(self, k: u64) -> bool {
        self.den * k <= u64::MAX
    }

    pub fn one() -> (r: Rational)
        ensures
            r.wf(),
            r.num == 1 && r.den == 1,
    {
        Rational { num: 1, den: 1 }
    }

    pub fn zero() -> (r: Rational)
        ensures
            r.wf(),
            r.num == 0 && r.den == 1,
    {
        Rational { num: 0, den: 1 }
    }

    /// The exact sum, or `None` when a component of the unreduced sum
    /// exceeds 64 bits.
    pub fn add(self, other: Rational) -> (r: Option<Rational>)
        requires
            self.wf(),
            other.wf(),
        ensures
            match r {
                Some(c) => self.add_fits(other) && c.wf() && (c.num as int, c.den as int)
                    == self.spec_add(other),
                None => !self.add_fits(other),
            },
    {
        if self.den == other.den {
            match self.num.checked_add(other.num) {
                Some(n) => Some(Rational { num: n, den: self.den }),
                None => None,
            }
        } else {
            let ad = self.num.checked_mul(other.den);
            let cb = other.num.checked_mul(self.den);
            let bd = self.den.checked_mul(other.den);
            proof {
                assert(self.den * other.den > 0) by (nonlinear_arith)
                    requires
                        self.den > 0,
                        other.den > 0,
                {
                }
            }
            match (ad, cb, bd) {
                (Some(x), Some(y), Some(d)) => match x.checked_add(y) {
                    Some(n) => Some(Rational { num: n, den: d }),
                    None => None,
                },
                _ => None,
            }
        }
    }

    /// The exact quotient by `k`, or `None` when the denominator exceeds 64
    /// bits.
    pub fn div_int(self, k: u64) -> (r: Option<Rational>)
        requires
            self.wf(),
            k > 0,
        ensures
            match r {
                Some(c) => self.div_fits(k) && c.wf() && (c.num as int, c.den as int)
                    == self.spec_div(k),
                None => !self.div_fits(k),
            },
    {
        proof {
            assert(self.den * k > 0) by (nonlinear_arith)
                requires
                    self.den > 0,
                    k > 0,
            {
            }
        }
        match self.den.checked_mul(k) {
            Some(d) => Some(Rational { num: self.num, den: d }),
            None => None,
        }
    }

    /// Exact value comparison `self >= other`, by cross-multiplication in
    /// 128 bits, which cannot overflow.
    pub fn ge(self, other: Rational) -> (r: bool)
        requires
            self.wf(),
            other.wf(),
        ensures
            r == (self.num * other.den >= other.num * self.den),
    {
        mul_wide(self.num, other.den) >= mul_wide(other.num, self.den)
    }

    /// Exact value equality `self == other` as fractions.
    pub fn same(self, other: Rational) -> (r: bool)
        requires
            self.wf(),
            other.wf(),
        ensures
            r == self.same_value(other),
    {
        mul_wide(self.num, other.den) == mul_wide(other.num, self.den)
    }
}

/// A full 64-bit product always fits in 128 bits.
fn mul_wide(a: u64, b: u64) -> (r: u128)
    ensures
        r == a * b,
{
    proof {
        assert((a as int) * (b as int) <= u64::MAX * u64::MAX) by (nonlinear_arith)
            requires
                a <= u64::MAX,
                b <= u64::MAX,
        {
        }
    }
    (a as u128) * (b as u128)
}

} // verus!
