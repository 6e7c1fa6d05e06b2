//! Exact rational scalars. Every derived metric of the kernel (capacity,
//! resilience, overload severity) is a ratio of integers, so rounds are
//! reproducible bit for bit and contracts can state values exactly.

use vstd::prelude::*;

verus! {

/// A rational number `num / den` with a positive denominator. Values are
/// kept as constructed; no reduction is performed, which keeps every
/// computation deterministic and exactly reportable.
#[derive(Clone, Copy, PartialEq, Eq, Structural, Debug)]
pub struct Ratio {
    pub num: i64,
    pub den: i64,
}

/// A product of two values in `i64` range fits comfortably in `i128`.
proof fn lemma_mul_fits_i128(a: int, b: int)
    requires
        -0x8000_0000_0000_0000 <= a <= 0x8000_0000_0000_0000,
        -0x8000_0000_0000_0000 <= b <= 0x8000_0000_0000_0000,
    ensures
        i128::MIN <= a * b <= i128::MAX,
{
    assert(-0x4000_0000_0000_0000_0000_0000_0000_0000 <= a * b
        <= 0x4000_0000_0000_0000_0000_0000_0000_0000) by (nonlinear_arith)
        requires
            -0x8000_0000_0000_0000 <= a <= 0x8000_0000_0000_0000,
            -0x8000_0000_0000_0000 <= b <= 0x8000_0000_0000_0000,
    ;
}

impl Ratio {
    pub open spec fn wf(self) -> bool {
        self.den > 0
    }

    /// `a < b` as rationals (cross multiplication; denominators positive).
    pub open spec fn spec_lt(a: Ratio, b: Ratio) -> bool {
        a.num * b.den < b.num * a.den
    }

    /// `a <= b` as rationals.
    pub open spec fn spec_le(a: Ratio, b: Ratio) -> bool {
        a.num * b.den <= b.num * a.den
    }

    /// `a == b` as rationals (same value, representation aside).
    pub open spec fn spec_eq_value(a: Ratio, b: Ratio) -> bool {
        a.num * b.den == b.num * a.den
    }

    pub fn new(num: i64, den: i64) -> (r: Ratio)
        requires
            den > 0,
        ensures
            r.num == num,
            r.den == den,
            r.wf(),
    {
        Ratio { num, den }
    }

    pub fn from_int(v: i64) -> (r: Ratio)
        ensures
            r.num == v,
            r.den == 1,
            r.wf(),
    {
        Ratio { num: v, den: 1 }
    }

    pub fn zero() -> (r: Ratio)
        ensures
            r.num == 0,
            r.den == 1,
            r.wf(),
    {
        Ratio { num: 0, den: 1 }
    }

    /// Strict comparison of two rationals.
    pub fn lt(&self, other: &Ratio) -> (r: bool)
        requires
            self.wf(),
            other.wf(),
        ensures
            r == Ratio::spec_lt(*self, *other),
    {
        proof {
            lemma_mul_fits_i128(self.num as int, other.den as int);
            lemma_mul_fits_i128(other.num as int, self.den as int);
        }
        (self.num as i128) * (other.den as i128) < (other.num as i128) * (self.den as i128)
    }

    /// Non-strict comparison of two rationals.
    pub fn le(&self, other: &Ratio) -> (r: bool)
        requires
            self.wf(),
            other.wf(),
        ensures
            r == Ratio::spec_le(*self, *other),
    {
        proof {
            lemma_mul_fits_i128(self.num as int, other.den as int);
            lemma_mul_fits_i128(other.num as int, self.den as int);
        }
        (self.num as i128) * (other.den as i128) <= (other.num as i128) * (self.den as i128)
    }

    /// Value equality, independent of representation.
    pub fn eq_value(&self, other: &Ratio) -> (r: bool)
        requires
            self.wf(),
            other.wf(),
        ensures
            r == Ratio::spec_eq_value(*self, *other),
    {
        proof {
            lemma_mul_fits_i128(self.num as int, other.den as int);
            lemma_mul_fits_i128(other.num as int, self.den as int);
        }
        (self.num as i128) * (other.den as i128) == (other.num as i128) * (self.den as i128)
    }

    /// Does the integer `count` strictly exceed this rational?
    pub fn count_exceeds(&self, count: u64) -> (r: bool)
        requires
            self.wf(),
            count <= 0x8000_0000_0000_0000,
        ensures
            r == (count as int * self.den > self.num),
    {
        proof {
            lemma_mul_fits_i128(count as int, self.den as int);
        }
        (count as i128) * (self.den as i128) > (self.num as i128)
    }

    /// `(1 + self) * count`, exactly: `((den + num) * count) / den`.
    pub fn one_plus_times(&self, count: u64) -> (r: Ratio)
        requires
            self.wf(),
            -0x8000_0000 <= self.num <= 0x8000_0000,
            self.den <= 0x8000_0000,
            count <= 0x40_0000,
        ensures
            r.num == (self.den + self.num) * count,
            r.den == self.den,
            r.wf(),
    {
        proof {
            assert((self.den + self.num) * (count as int) <= 0x1_0000_0000 * 0x40_0000
                && (self.den + self.num) * (count as int) >= -0x1_0000_0000 * 0x40_0000)
                by (nonlinear_arith)
                requires
                    -0x8000_0000 <= self.num <= 0x8000_0000,
                    0 < self.den <= 0x8000_0000,
                    0 <= count <= 0x40_0000,
            ;
        }
        let t: i128 = (self.den as i128 + self.num as i128) * (count as i128);
        Ratio { num: t as i64, den: self.den }
    }

    /// `|self - 1|`, exactly: `|num - den| / den`.
    pub fn abs_delta_from_one(&self) -> (r: Ratio)
        requires
            self.wf(),
            -0x4000_0000_0000_0000 < self.num < 0x4000_0000_0000_0000,
            self.den < 0x4000_0000_0000_0000,
        ensures
            r.num == if self.num >= self.den {
                self.num - self.den
            } else {
                self.den - self.num
            },
            r.den == self.den,
            r.num >= 0,
            r.wf(),
    {
        let num = if self.num >= self.den {
            self.num - self.den
        } else {
            self.den - self.num
        };
        Ratio { num, den: self.den }
    }
}

} // verus!
