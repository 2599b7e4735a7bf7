//! Single-precision numbers carried by their binary encoding.
//!
//! A [`Single`] is the 32-bit IEEE 754 encoding of a number. All scores, thresholds and page
//! coordinates are carried in this form, and the arithmetic on them is integer arithmetic whose
//! results are proved to be the correctly rounded ones.
use vstd::arithmetic::power2::*;
use vstd::prelude::*;

use crate::arithmetic::{
    lemma_aligned, lemma_count, lemma_double, lemma_double_below_one, lemma_double_one,
    lemma_far_difference, lemma_far_sum, lemma_lead,
    lemma_quotient_parts, lemma_sum_bound, lemma_whole, small_power,
};
use crate::rounding::{
    bit_length, lemma_monotone, lemma_round, lemma_scaled_bound, power_of_two, round_parts,
    round_quotient,
};

verus! {

/// The encoding of one: exponent field 127, empty fraction.
pub const ONE_BITS: u32 = 0x3F80_0000;

/// The encoding of positive infinity, the first encoding above the finite ones.
pub const INFINITY_BITS: u32 = 0x7F80_0000;

/// The sign bit.
pub const SIGN_BIT: u32 = 0x8000_0000;

/// The weight of the hidden bit of a significand.
pub const HIDDEN_BIT: u32 = 0x0080_0000;

/// A single-precision number in its binary encoding.
#[derive(Clone, Copy, Debug, PartialEq, Eq, Structural)]
pub struct Single {
    pub bits: u32,
}

impl Single {
    /// The number is finite and its sign bit is clear.
    pub open spec fn nonneg(self) -> bool {
        self.bits < INFINITY_BITS
    }

    /// The significand, hidden bit included.
    pub open spec fn significand(self) -> int {
        if self.bits < HIDDEN_BIT {
            self.bits as int
        } else {
            self.bits as int % HIDDEN_BIT as int + HIDDEN_BIT
        }
    }

    /// The power of two by which the significand is scaled, counted from the smallest one.
    pub open spec fn exponent(self) -> nat {
        if self.bits < HIDDEN_BIT {
            0
        } else {
            (self.bits as int / HIDDEN_BIT as int - 1) as nat
        }
    }

    /// The number as a multiple of `2^-149`, the smallest positive single.
    pub open spec fn scaled(self) -> int {
        self.significand() * pow2(self.exponent())
    }
}

/// The distance between `s` and the fraction `n / d`, in units of `2^-149 / d`.
pub open spec fn gap(s: Single, n: int, d: int) -> int {
    let diff = s.scaled() * d - n;
    if diff < 0 {
        -diff
    } else {
        diff
    }
}

/// `r` is the finite single nearest to `n / d` (in units of `2^-149`), and of two equally near
/// ones the one with the even encoding.
pub open spec fn is_nearest(r: Single, n: int, d: int) -> bool {
    &&& r.nonneg()
    &&& forall|s: Single|
        #![trigger s.scaled()]
        s.nonneg() ==> gap(r, n, d) < gap(s, n, d) || (gap(r, n, d) == gap(s, n, d) && (r == s
            || r.bits % 2 == 0))
}

/// The single nearest to `n / d` (in units of `2^-149`), ties to even.
pub open spec fn nearest(n: int, d: int) -> Single {
    choose|r: Single| is_nearest(r, n, d)
}

/// The encoding of one in double precision.
pub const DOUBLE_ONE_BITS: u64 = 0x3FF0_0000_0000_0000;

/// The encoding of `1 - 2^-23` in double precision. It is a single too, the second one below one.
pub const DOUBLE_BELOW_ONE_BITS: u64 = 0x3FEF_FFFF_C000_0000;

/// The weight of the hidden bit of a double-precision significand.
pub const DOUBLE_HIDDEN_BIT: u64 = 0x0010_0000_0000_0000;

/// A finite non-negative double-precision number, given by its encoding, as a multiple of
/// `2^-1074`.
pub open spec fn double_scaled(bits: u64) -> int {
    if bits < DOUBLE_HIDDEN_BIT {
        bits as int
    } else {
        (bits as int % DOUBLE_HIDDEN_BIT as int + DOUBLE_HIDDEN_BIT) * pow2(
            (bits as int / DOUBLE_HIDDEN_BIT as int - 1) as nat,
        )
    }
}

impl Single {
    /// The correctly rounded product.
    pub open spec fn product(self, other: Single) -> Single {
        nearest(self.scaled() * other.scaled(), pow2(149) as int)
    }

    /// The correctly rounded sum.
    pub open spec fn sum(self, other: Single) -> Single {
        nearest(self.scaled() + other.scaled(), 1)
    }

    /// The correctly rounded difference, for `other` not above `self`.
    pub open spec fn difference(self, other: Single) -> Single {
        nearest(self.scaled() - other.scaled(), 1)
    }

    /// The correctly rounded quotient.
    pub open spec fn quotient(self, other: Single) -> Single {
        nearest(self.scaled() * pow2(149), other.scaled())
    }

    /// The larger of two numbers without sign.
    pub open spec fn larger(self, other: Single) -> Single {
        if self.bits < other.bits {
            other
        } else {
            self
        }
    }

    /// The significand and the exponent.
    pub(crate) fn parts(self) -> (r: (u32, u32))
        requires
            self.nonneg(),
        ensures
            r.0 == self.significand(),
            r.1 == self.exponent(),
            r.0 < 0x100_0000,
            r.1 <= 253,
    {
        proof {
            lemma_scaled_bound(self);
        }
        if self.bits < HIDDEN_BIT {
            (self.bits, 0)
        } else {
            (self.bits % HIDDEN_BIT + HIDDEN_BIT, self.bits / HIDDEN_BIT - 1)
        }
    }

    /// Multiplies two numbers without sign, of magnitudes whose product is finite.
    pub fn times(self, other: Single) -> (r: Single)
        requires
            self.bits <= 0x6000_0000,
            other.bits <= 0x5000_0000,
        ensures
            r == self.product(other),
            r.nonneg(),
    {
        let (mx, kx) = self.parts();
        let (my, ky) = other.parts();
        proof {
            assert((mx as int) * (my as int) < 0x1_0000_0000_0000) by (nonlinear_arith)
                requires
                    0 <= mx < 0x100_0000,
                    0 <= my < 0x100_0000,
            ;
            lemma_pow2_adds(kx as nat, ky as nat);
            let a = pow2(kx as nat) as int;
            let b = pow2(ky as nat) as int;
            let c = pow2((kx + ky) as nat) as int;
            assert(self.scaled() * other.scaled() == ((mx as int) * (my as int)) * c)
                by (nonlinear_arith)
                requires
                    self.scaled() == (mx as int) * a,
                    other.scaled() == (my as int) * b,
                    c == a * b,
            ;
            lemma2_to64();
            lemma_pow2_pos((kx + ky) as nat);
            lemma_pow2_adds((kx + ky) as nat, 48);
            lemma_pow2_adds(24, 24);
            assert(((mx as int) * (my as int)) * c < pow2((kx + ky + 48) as nat))
                by (nonlinear_arith)
                requires
                    0 <= (mx as int) * (my as int) < 0x1_0000_0000_0000,
                    c > 0,
                    pow2((kx + ky + 48) as nat) == c * 0x1_0000_0000_0000,
            ;
            lemma_pow2_strictly_increases((kx + ky + 48) as nat, 425);
        }
        round_parts(mx as u64 * my as u64, kx + ky, 149)
    }

    /// Adds two numbers without sign, of magnitudes whose sum is finite.
    pub fn plus(self, other: Single) -> (r: Single)
        requires
            self.bits <= 0x7E00_0000,
            other.bits <= 0x7E00_0000,
        ensures
            r == self.sum(other),
            r.nonneg(),
    {
        if self.bits < other.bits {
            proof {
                assert(self.scaled() + other.scaled() == other.scaled() + self.scaled());
            }
            other.plus_smaller(self)
        } else {
            self.plus_smaller(other)
        }
    }

    fn plus_smaller(self, other: Single) -> (r: Single)
        requires
            other.bits <= self.bits <= 0x7E00_0000,
        ensures
            r == self.sum(other),
            r.nonneg(),
    {
        let (mx, kx) = self.parts();
        let (my, ky) = other.parts();
        let shift: u32 = kx - ky;
        proof {
            lemma_scaled_bound(self);
            lemma_scaled_bound(other);
        }
        if shift > 32 {
            proof {
                lemma_far_sum(self, other);
            }
            return self;
        }
        let w: u64 = small_power(shift);
        proof {
            lemma_aligned(mx as int, kx as nat, ky as nat);
            lemma_sum_bound(self, other);
            assert((mx as int) * (w as int) <= 0xFF_FFFF * 0x1_0000_0000) by (nonlinear_arith)
                requires
                    0 <= mx <= 0xFF_FFFF,
                    0 <= w <= 0x1_0000_0000,
            ;
            let a = pow2(ky as nat) as int;
            assert(((mx as int) * (w as int) + my as int) * a == ((mx as int) * (w as int)) * a + (
            my as int) * a) by (nonlinear_arith);
            lemma2_to64();
        }
        round_parts(mx as u64 * w + my as u64, ky, 0)
    }

    /// Subtracts a number that is not larger.
    pub fn minus(self, other: Single) -> (r: Single)
        requires
            other.bits <= self.bits <= 0x7E00_0000,
        ensures
            r == self.difference(other),
            r.nonneg(),
    {
        let (mx, kx) = self.parts();
        let (my, ky) = other.parts();
        let shift: u32 = kx - ky;
        proof {
            lemma_scaled_bound(self);
            lemma_scaled_bound(other);
            if other.bits < self.bits {
                lemma_monotone(other, self);
            }
        }
        if shift > 32 {
            proof {
                lemma_far_difference(self, other);
            }
            return self;
        }
        let w: u64 = small_power(shift);
        proof {
            lemma_aligned(mx as int, kx as nat, ky as nat);
            lemma_sum_bound(self, other);
            assert((mx as int) * (w as int) <= 0xFF_FFFF * 0x1_0000_0000) by (nonlinear_arith)
                requires
                    0 <= mx <= 0xFF_FFFF,
                    0 <= w <= 0x1_0000_0000,
            ;
            let a = pow2(ky as nat) as int;
            lemma_pow2_pos(ky as nat);
            assert(((mx as int) * (w as int) - my as int) * a == ((mx as int) * (w as int)) * a - (
            my as int) * a) by (nonlinear_arith);
            assert((mx as int) * (w as int) >= my as int) by (nonlinear_arith)
                requires
                    ((mx as int) * (w as int)) * a >= (my as int) * a,
                    a > 0,
            ;
            lemma2_to64();
        }
        round_parts(mx as u64 * w - my as u64, ky, 0)
    }

    /// Divides a number without sign by one that is not below one.
    pub fn over(self, other: Single) -> (r: Single)
        requires
            self.bits <= 0x6000_0000,
            ONE_BITS <= other.bits < INFINITY_BITS,
        ensures
            r == self.quotient(other),
            r.nonneg(),
    {
        let (mx, kx) = self.parts();
        let (my, ky) = other.parts();
        proof {
            lemma_scaled_bound(self);
            lemma_scaled_bound(other);
            lemma2_to64();
        }
        if mx == 0 {
            proof {
                lemma_pow2_pos(ky as nat);
                assert(other.scaled() > 0) by (nonlinear_arith)
                    requires
                        other.scaled() == (my as int) * (pow2(ky as nat) as int),
                        my > 0,
                        pow2(ky as nat) > 0,
                ;
                assert(self.scaled() * pow2(149) == 0) by (nonlinear_arith)
                    requires
                        self.scaled() == (mx as int) * (pow2(kx as nat) as int),
                        mx == 0,
                ;
                lemma_round(0, other.scaled(), 0, 0, 1);
            }
            return Single { bits: 0 };
        }
        let lead: u64 = mx as u64 * 0x100_0000_0000 / my as u64;
        proof {
            lemma_lead(mx as int, my as int);
        }
        let p: u32 = bit_length(lead);
        // The quotient lies between `2^(p-1)` and `2^p`, times `2^(kx + 109 - ky)`.
        let excess: i64 = p as i64 - 24 + kx as i64 + 109 - ky as i64;
        let l: i64 = if excess > 0 {
            excess
        } else {
            0
        };
        let s: i64 = l + ky as i64 - kx as i64 - 85;
        proof {
            lemma_quotient_parts(
                mx as int,
                my as int,
                kx as nat,
                ky as nat,
                p as nat,
                l as nat,
                s as nat,
            );
        }
        if s >= 90 {
            return Single { bits: 0 };
        }
        let num: u128 = mx as u128 * 0x1_0000_0000_0000_0000;
        let w: u128 = power_of_two(s as u32);
        proof {
            lemma_pow2_pos(s as nat);
            lemma_pow2_strictly_increases(s as nat, 90);
            lemma_pow2_adds(64, 26);
            assert((my as int) * (w as int) < 0x100_0000 * pow2(90)) by (nonlinear_arith)
                requires
                    0 < my < 0x100_0000,
                    0 < w < pow2(90),
            ;
            assert((my as int) * (w as int) > 0) by (nonlinear_arith)
                requires
                    0 < my,
                    0 < w,
            ;
        }
        round_quotient(num, my as u128 * w, l as u32)
    }

    /// The larger of two numbers without sign.
    pub fn max(self, other: Single) -> (r: Single)
        ensures
            r == self.larger(other),
    {
        if self.bits < other.bits {
            other
        } else {
            self
        }
    }

    /// The single nearest to a count.
    pub open spec fn of_count(n: int) -> Single {
        nearest(n * pow2(149), 1)
    }

    /// Converts a count.
    pub fn from_count(n: usize) -> (r: Single)
        ensures
            r == Single::of_count(n as int),
            r.nonneg(),
            r.bits <= 0x5F80_0000,
            n >= 1 ==> r.bits >= ONE_BITS,
    {
        proof {
            lemma_count(n as int);
            lemma2_to64();
        }
        round_parts(n as u64, 149, 0)
    }

    /// The whole part, as far as a count can hold it.
    pub open spec fn whole(self) -> int {
        let v = self.scaled() / (pow2(149) as int);
        if v < usize::MAX {
            v
        } else {
            usize::MAX as int
        }
    }

    /// Drops the fraction of a number without sign.
    pub fn truncate(self) -> (r: usize)
        requires
            self.bits <= 0x6000_0000,
        ensures
            r == self.whole(),
    {
        let (m, k) = self.parts();
        proof {
            lemma_scaled_bound(self);
            lemma_whole(m as int, k as nat);
            lemma2_to64();
        }
        if k >= 149 {
            let w: u128 = power_of_two(k - 149);
            proof {
                if k < 192 {
                    lemma_pow2_strictly_increases((k - 149) as nat, 64);
                }
                assert((m as int) * (w as int) < 0x100_0000 * 0x1_0000_0000_0000_0000)
                    by (nonlinear_arith)
                    requires
                        0 <= m < 0x100_0000,
                        0 <= w < 0x1_0000_0000_0000_0000,
                ;
            }
            let v: u128 = m as u128 * w;
            if v < usize::MAX as u128 {
                v as usize
            } else {
                usize::MAX
            }
        } else if k <= 120 {
            0
        } else {
            let w: u128 = power_of_two(149 - k);
            (m as u128 / w) as usize
        }
    }
}

impl Single {
    /// The single nearest to a double-precision number. A multiple of `2^-1074` is `2^925` times
    /// finer than a multiple of `2^-149`.
    pub open spec fn of_double(bits: u64) -> Single {
        nearest(double_scaled(bits), pow2(925) as int)
    }

    /// Rounds a double-precision number between zero and one.
    pub fn from_double(bits: u64) -> (r: Single)
        requires
            bits <= DOUBLE_ONE_BITS,
        ensures
            r == Single::of_double(bits),
            r.bits <= ONE_BITS,
            bits == DOUBLE_ONE_BITS ==> r.bits == ONE_BITS,
            bits <= DOUBLE_BELOW_ONE_BITS ==> r.bits < ONE_BITS,
    {
        proof {
            lemma_double(bits);
            lemma_double_one();
            if bits <= DOUBLE_BELOW_ONE_BITS {
                lemma_double_below_one(bits);
            }
            lemma2_to64();
        }
        if bits < DOUBLE_HIDDEN_BIT {
            round_parts(bits, 0, 925)
        } else {
            let m: u64 = bits % DOUBLE_HIDDEN_BIT + DOUBLE_HIDDEN_BIT;
            let k: u32 = (bits / DOUBLE_HIDDEN_BIT - 1) as u32;
            round_parts(m, k, 925)
        }
    }
}

} // verus!
