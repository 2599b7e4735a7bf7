//! Signed single-precision numbers, as page coordinates and thresholds need them: order, extremes
//! and distances.
use vstd::arithmetic::power2::*;
use vstd::prelude::*;

use crate::arithmetic::lemma_sum_bound;
use crate::rounding::{
    lemma_exact, lemma_grid, lemma_monotone, lemma_nearest_exists, lemma_scaled_bound,
};
use crate::single::{gap, is_nearest, nearest, Single, HIDDEN_BIT, INFINITY_BITS, SIGN_BIT};

verus! {

impl Single {
    /// The number without its sign.
    pub open spec fn magnitude(self) -> Single {
        if self.bits < SIGN_BIT {
            self
        } else {
            Single { bits: (self.bits - SIGN_BIT) as u32 }
        }
    }

    /// The encoding stands for a number, maybe an infinite one.
    pub open spec fn is_number(self) -> bool {
        self.magnitude().bits <= INFINITY_BITS
    }

    /// The encoding stands for a finite number.
    pub open spec fn is_finite(self) -> bool {
        self.magnitude().nonneg()
    }

    /// The place of the number in the order of numbers. The two zeros share theirs.
    pub open spec fn place(self) -> int {
        if self.bits < SIGN_BIT {
            self.bits as int
        } else {
            SIGN_BIT - self.bits
        }
    }

    /// The number as a multiple of `2^-149`.
    pub open spec fn value(self) -> int {
        if self.bits < SIGN_BIT {
            self.scaled()
        } else {
            -self.magnitude().scaled()
        }
    }

    /// Both encodings stand for numbers, and the first is not below the second.
    pub open spec fn not_below(self, other: Single) -> bool {
        self.is_number() && other.is_number() && self.place() >= other.place()
    }

    /// The distance of two finite numbers, in units of `2^-149`.
    pub open spec fn distance(self, other: Single) -> int {
        if self.value() < other.value() {
            other.value() - self.value()
        } else {
            self.value() - other.value()
        }
    }

    /// The distance of the two numbers, correctly rounded, is below `limit`. A distance that is
    /// not below `limit` is not rounded below it either.
    pub open spec fn nearer_than(self, other: Single, limit: Single) -> bool {
        &&& self.is_finite()
        &&& other.is_finite()
        &&& self.distance(other) < limit.scaled()
        &&& nearest(self.distance(other), 1).bits < limit.bits
    }

    /// The lower of two numbers; whatever stands for no number yields to the other.
    pub open spec fn lower(self, other: Single) -> Single {
        if !self.is_number() || (other.is_number() && other.place() < self.place()) {
            other
        } else {
            self
        }
    }

    /// The higher of two numbers; whatever stands for no number yields to the other.
    pub open spec fn higher(self, other: Single) -> Single {
        if !self.is_number() || (other.is_number() && other.place() > self.place()) {
            other
        } else {
            self
        }
    }

    /// Removes the sign.
    pub fn abs(self) -> (r: Single)
        ensures
            r == self.magnitude(),
    {
        if self.bits < SIGN_BIT {
            self
        } else {
            Single { bits: self.bits - SIGN_BIT }
        }
    }

    fn is_below(self, other: Single) -> (r: bool)
        ensures
            r == (self.is_number() && other.is_number() && self.place() < other.place()),
    {
        if self.abs().bits > INFINITY_BITS || other.abs().bits > INFINITY_BITS {
            false
        } else if self.bits < SIGN_BIT {
            other.bits < SIGN_BIT && self.bits < other.bits
        } else if other.bits < SIGN_BIT {
            self.bits > SIGN_BIT || other.bits > 0
        } else {
            self.bits > other.bits
        }
    }

    /// Tells whether a number is at least as high as another.
    pub fn at_least(self, other: Single) -> (r: bool)
        ensures
            r == self.not_below(other),
    {
        self.abs().bits <= INFINITY_BITS && other.abs().bits <= INFINITY_BITS && !self.is_below(
            other,
        )
    }

    /// The lower of two numbers.
    pub fn lower_of(self, other: Single) -> (r: Single)
        ensures
            r == self.lower(other),
    {
        if self.abs().bits > INFINITY_BITS || other.is_below(self) {
            other
        } else {
            self
        }
    }

    /// The higher of two numbers.
    pub fn higher_of(self, other: Single) -> (r: Single)
        ensures
            r == self.higher(other),
    {
        if self.abs().bits > INFINITY_BITS || self.is_below(other) {
            other
        } else {
            self
        }
    }

    /// Tells whether the rounded distance of two numbers is below a limit.
    pub fn within(self, other: Single, limit: Single) -> (r: bool)
        requires
            limit.bits <= 0x6000_0000,
        ensures
            r == self.nearer_than(other, limit),
    {
        let a = self.abs();
        let b = other.abs();
        if a.bits >= INFINITY_BITS || b.bits >= INFINITY_BITS {
            return false;
        }
        proof {
            lemma_scaled_bound(a);
            lemma_scaled_bound(b);
        }
        let same_side = (self.bits < SIGN_BIT) == (other.bits < SIGN_BIT);
        let (high, low) = if a.bits < b.bits {
            (b, a)
        } else {
            (a, b)
        };
        if high.bits > 0x7E00_0000 {
            proof {
                lemma_far_apart(low, high, limit);
                lemma_zero_distance(limit);
            }
            return same_side && a.bits == b.bits && limit.bits > 0;
        }
        proof {
            if low.bits < high.bits {
                lemma_monotone(low, high);
            }
        }
        let d = if same_side {
            high.minus(low)
        } else {
            high.plus(low)
        };
        proof {
            lemma_sum_bound(high, low);
            lemma_zero_distance(limit);
            lemma_nearest_exists(self.distance(other), 1, 252);
            if self.distance(other) >= limit.scaled() {
                lemma_not_below(self.distance(other), d, limit);
            }
        }
        d.bits < limit.bits
    }
}

/// Neighbouring numbers are one unit of the lower one apart.
proof fn lemma_step(s: Single, t: Single)
    requires
        s.bits + 1 == t.bits,
        t.nonneg(),
    ensures
        t.scaled() - s.scaled() == pow2(s.exponent()),
{
    let l = s.exponent();
    let m = s.significand();
    lemma_scaled_bound(s);
    lemma_grid(l, m + 1);
    assert((m + 1) * pow2(l) - m * pow2(l) == pow2(l)) by (nonlinear_arith);
}

/// Distinct numbers of huge magnitude are far apart.
proof fn lemma_far_apart(low: Single, high: Single, limit: Single)
    requires
        low.bits <= high.bits < INFINITY_BITS,
        high.bits > 0x7E00_0000,
        limit.bits <= 0x6000_0000,
    ensures
        low.bits < high.bits ==> high.scaled() - low.scaled() >= limit.scaled(),
        high.scaled() + low.scaled() >= limit.scaled(),
{
    let below = Single { bits: (high.bits - 1) as u32 };
    lemma_step(below, high);
    lemma_scaled_bound(low);
    lemma_scaled_bound(below);
    lemma_scaled_bound(limit);
    lemma_monotone(limit, high);
    if low.bits < below.bits {
        lemma_monotone(low, below);
    }
    lemma_pow2_strictly_increases(limit.exponent() + 24, below.exponent());
}

/// Equal numbers are nearer than any positive limit.
proof fn lemma_zero_distance(limit: Single)
    requires
        limit.nonneg(),
    ensures
        nearest(0, 1).bits == 0,
        limit.bits > 0 <==> limit.scaled() > 0,
{
    let zero = Single { bits: 0 };
    lemma_exact(zero, 1);
    assert(zero.scaled() == 0) by {
        lemma_pow2_pos(0);
        assert(0 * pow2(0) == 0) by (nonlinear_arith);
    }
    if limit.bits > 0 {
        lemma_monotone(zero, limit);
    }
}

/// What is not below a number is not rounded below it.
proof fn lemma_not_below(n: int, r: Single, limit: Single)
    requires
        is_nearest(r, n, 1),
        limit.nonneg(),
        n >= limit.scaled(),
    ensures
        r.bits >= limit.bits,
{
    if r.bits < limit.bits {
        lemma_monotone(r, limit);
    }
}

} // verus!
