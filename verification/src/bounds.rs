//! How large sums, products and quotients of single-precision numbers can get.
use vstd::arithmetic::power2::*;
use vstd::prelude::*;

use crate::arithmetic::{lemma_count, lemma_double, lemma_sum_bound};
use crate::rounding::{
    lemma_exact, lemma_grid, lemma_monotone, lemma_nearest_at_least, lemma_nearest_at_most,
    lemma_nearest_exists, lemma_nearest_monotone, lemma_one, lemma_scale_order, lemma_scaled_bound,
};
use crate::single::{
    double_scaled, gap, is_nearest, Single, HIDDEN_BIT, INFINITY_BITS, ONE_BITS,
};

verus! {

/// The sum of two numbers is at most twice the larger one.
pub proof fn lemma_sum_at_most(x: Single, y: Single, bound: Single)
    requires
        x.bits <= bound.bits,
        y.bits <= bound.bits,
        bound.bits <= 0x7E00_0000,
    ensures
        is_nearest(x.sum(y), x.scaled() + y.scaled(), 1),
        x.sum(y).bits <= bound.bits + HIDDEN_BIT,
{
    let twice = Single { bits: (bound.bits + HIDDEN_BIT) as u32 };
    lemma_scaled_bound(bound);
    lemma_scaled_bound(twice);
    lemma_scaled_bound(x);
    lemma_scaled_bound(y);
    if x.bits < bound.bits {
        lemma_monotone(x, bound);
    }
    if y.bits < bound.bits {
        lemma_monotone(y, bound);
    }
    lemma_sum_bound(bound, bound);
    lemma_nearest_exists(x.scaled() + y.scaled(), 1, 252);
    lemma2_to64();
    assert(2 * bound.scaled() <= twice.scaled()) by {
        if bound.bits < HIDDEN_BIT {
            assert(twice.significand() == bound.bits + HIDDEN_BIT);
            assert(twice.exponent() == 0);
            assert(bound.exponent() == 0);
            assert(twice.scaled() == twice.significand() * 1);
            assert(bound.scaled() == bound.significand() * 1);
        } else {
            assert(twice.exponent() == bound.exponent() + 1);
            assert(twice.significand() == bound.significand());
            lemma_pow2_unfold(bound.exponent() + 1);
            assert(bound.exponent() + 1 - 1 == bound.exponent());
            let a = pow2(bound.exponent()) as int;
            assert(bound.significand() * (2 * a) == 2 * (bound.significand() * a))
                by (nonlinear_arith);
        }
    }
    lemma_nearest_at_most(x.sum(y), x.scaled() + y.scaled(), 1, twice);
}

/// Addition keeps the order.
pub proof fn lemma_sum_monotone(x: Single, y: Single, x2: Single, y2: Single)
    requires
        x.bits <= x2.bits <= 0x7E00_0000,
        y.bits <= y2.bits <= 0x7E00_0000,
    ensures
        x.sum(y).bits <= x2.sum(y2).bits,
{
    let bound = Single { bits: 0x7E00_0000 };
    lemma_sum_at_most(x, y, bound);
    lemma_sum_at_most(x2, y2, bound);
    if x.bits < x2.bits {
        lemma_monotone(x, x2);
    }
    if y.bits < y2.bits {
        lemma_monotone(y, y2);
    }
    lemma_nearest_monotone(
        x.sum(y),
        x.scaled() + y.scaled(),
        x2.sum(y2),
        x2.scaled() + y2.scaled(),
        1,
    );
}

/// Multiplication keeps the order, and a factor that is at most one does not enlarge.
pub proof fn lemma_product_monotone(x: Single, y: Single, x2: Single, y2: Single)
    requires
        x.bits <= x2.bits <= 0x6000_0000,
        y.bits <= y2.bits <= 0x5000_0000,
    ensures
        is_nearest(x.product(y), x.scaled() * y.scaled(), pow2(149) as int),
        x.product(y).bits <= x2.product(y2).bits,
        y.bits <= ONE_BITS ==> x.product(y).bits <= x.bits,
        x.bits <= ONE_BITS ==> x.product(y).bits <= y.bits,
{
    let d = pow2(149) as int;
    lemma_pow2_pos(149);
    lemma_product_exists(x, y);
    lemma_product_exists(x2, y2);
    lemma_scaled_bound(x);
    lemma_scaled_bound(y);
    if x.bits < x2.bits {
        lemma_monotone(x, x2);
    }
    if y.bits < y2.bits {
        lemma_monotone(y, y2);
    }
    assert(x.scaled() * y.scaled() <= x2.scaled() * y2.scaled()) by (nonlinear_arith)
        requires
            0 <= x.scaled() <= x2.scaled(),
            0 <= y.scaled() <= y2.scaled(),
    ;
    lemma_nearest_monotone(
        x.product(y),
        x.scaled() * y.scaled(),
        x2.product(y2),
        x2.scaled() * y2.scaled(),
        d,
    );
    lemma_one();
    let one = Single { bits: ONE_BITS };
    if y.bits <= ONE_BITS {
        if y.bits < ONE_BITS {
            lemma_monotone(y, one);
        }
        assert(x.scaled() * y.scaled() <= x.scaled() * d) by (nonlinear_arith)
            requires
                0 <= x.scaled(),
                y.scaled() <= d,
        ;
        lemma_nearest_at_most(x.product(y), x.scaled() * y.scaled(), d, x);
    }
    if x.bits <= ONE_BITS {
        if x.bits < ONE_BITS {
            lemma_monotone(x, one);
        }
        assert(x.scaled() * y.scaled() <= y.scaled() * d) by (nonlinear_arith)
            requires
                0 <= y.scaled(),
                x.scaled() <= d,
        ;
        lemma_nearest_at_most(x.product(y), x.scaled() * y.scaled(), d, y);
    }
}

proof fn lemma_product_exists(x: Single, y: Single)
    requires
        x.bits <= 0x6000_0000,
        y.bits <= 0x5000_0000,
    ensures
        is_nearest(x.product(y), x.scaled() * y.scaled(), pow2(149) as int),
{
    lemma_scaled_bound(x);
    lemma_scaled_bound(y);
    let a = pow2(x.exponent() + 24) as int;
    let b = pow2(y.exponent() + 24) as int;
    lemma_pow2_adds(x.exponent() + 24, y.exponent() + 24);
    assert(0 <= x.scaled() * y.scaled() < a * b) by (nonlinear_arith)
        requires
            0 <= x.scaled() < a,
            0 <= y.scaled() < b,
    ;
    lemma_pow2_strictly_increases(x.exponent() + y.exponent() + 48, 425);
    lemma_pow2_adds(149, 276);
    lemma_pow2_pos(149);
    lemma_nearest_exists(x.scaled() * y.scaled(), pow2(149) as int, 252);
}

/// What lies at or below the middle between a single with an even encoding and the next one
/// rounds to that single or to a smaller one.
pub proof fn lemma_nearest_below_middle(a: Single, m: int, d: int, bound: Single)
    requires
        is_nearest(a, m, d),
        bound.bits + 1 < INFINITY_BITS,
        bound.bits % 2 == 0,
        2 * m <= (bound.scaled() + (Single { bits: (bound.bits + 1) as u32 }).scaled()) * d,
        d > 0,
    ensures
        a.bits <= bound.bits,
{
    let next = Single { bits: (bound.bits + 1) as u32 };
    if bound.bits < a.bits {
        lemma_monotone(bound, next);
        lemma_scale_order(bound.scaled(), next.scaled(), d);
        assert((bound.scaled() + next.scaled()) * d == bound.scaled() * d + next.scaled() * d)
            by (nonlinear_arith);
        if next.bits < a.bits {
            lemma_monotone(next, a);
            lemma_scale_order(next.scaled(), a.scaled(), d);
            assert(gap(bound, m, d) < gap(a, m, d));
        } else {
            assert(gap(bound, m, d) <= gap(a, m, d));
            assert(a.bits % 2 == 1);
        }
    }
}

/// Counts up to `2^24` are singles.
pub proof fn lemma_small_count(n: int)
    requires
        0 <= n <= 0x100_0000,
    ensures
        Single::of_count(n).nonneg(),
        Single::of_count(n).scaled() == n * pow2(149),
{
    lemma2_to64();
    let s = lemma_count_grid(n, 0);
    lemma_exact(s, 1);
    assert(n * pow2(149) == s.scaled() * 1);
}

/// The single that stands for the count `n`, found by doubling until 24 digits are reached.
proof fn lemma_count_grid(n: int, up: nat) -> (s: Single)
    requires
        0 <= n,
        n * pow2(up) <= 0x100_0000,
        up <= 24,
    ensures
        s.nonneg(),
        s.scaled() == n * pow2(149),
    decreases 24 - up,
{
    lemma2_to64();
    if n == 0 {
        lemma_grid(0, 0);
        assert(0 * pow2(0) == 0 * pow2(149)) by (nonlinear_arith);
        Single { bits: 0 }
    } else {
        let q = n * pow2(up);
        if q >= HIDDEN_BIT {
            let l = (149 - up) as nat;
            lemma_grid(l, q);
            lemma_pow2_adds(up, l);
            let a = pow2(up) as int;
            let b = pow2(l) as int;
            assert((n * a) * b == n * (a * b)) by (nonlinear_arith);
            Single { bits: (l * HIDDEN_BIT + q) as u32 }
        } else {
            lemma_pow2_unfold(up + 1);
            let a = pow2(up) as int;
            assert(n * (2 * a) == 2 * (n * a)) by (nonlinear_arith);
            assert(up < 24) by {
                if up == 24 {
                    assert(n * a >= a) by (nonlinear_arith)
                        requires
                            n >= 1,
                            a > 0,
                    ;
                }
            }
            lemma_count_grid(n, up + 1)
        }
    }
}

/// The number `2^24` and the one above it, which is two apart.
proof fn lemma_two_to_24()
    ensures
        (Single { bits: 0x4B80_0000 }).scaled() == 0x100_0000 * pow2(149),
        (Single { bits: 0x4B80_0001 }).scaled() == 0x100_0002 * pow2(149),
{
    assert(0x4B80_0000int / 0x80_0000 == 151 && 0x4B80_0000int % 0x80_0000 == 0);
    assert(0x4B80_0001int / 0x80_0000 == 151 && 0x4B80_0001int % 0x80_0000 == 1);
    lemma_pow2_unfold(150);
}

/// A sum of `n + 1` numbers that are at most one is at most the count `n + 1`, if the sum of the
/// first `n` is at most the count `n`, and it never passes `2^24`.
pub proof fn lemma_running_sum(total: Single, term: Single, n: int)
    requires
        0 <= n < usize::MAX,
        total.bits <= Single::of_count(n).bits,
        total.bits <= 0x4B80_0000,
        term.bits <= ONE_BITS,
    ensures
        total.sum(term).bits <= Single::of_count(n + 1).bits,
        total.sum(term).bits <= 0x4B80_0000,
{
    let top = Single { bits: 0x4B80_0000 };
    let next = Single { bits: 0x4B80_0001 };
    let one = Single { bits: ONE_BITS };
    lemma2_to64();
    lemma_one();
    lemma_sum_at_most(total, term, top);
    lemma_two_to_24();
    let c = pow2(149) as int;
    assert(next.scaled() == 0x100_0002 * c);
    if total.bits < top.bits {
        lemma_monotone(total, top);
    }
    if term.bits < one.bits {
        lemma_monotone(term, one);
    }
    lemma_nearest_below_middle(
        total.sum(term),
        total.scaled() + term.scaled(),
        1,
        top,
    );
    lemma_count(n);
    lemma_count(n + 1);
    if n < 0x100_0000 {
        lemma_small_count(n);
        lemma_small_count(n + 1);
        if total.bits < Single::of_count(n).bits {
            lemma_monotone(total, Single::of_count(n));
        }
        assert((n + 1) * c == n * c + c) by (nonlinear_arith);
        lemma_nearest_at_most(
            total.sum(term),
            total.scaled() + term.scaled(),
            1,
            Single::of_count(n + 1),
        );
    } else {
        lemma_count(0x100_0000);
        lemma_small_count(0x100_0000);
        if Single::of_count(0x100_0000).bits < top.bits {
            lemma_monotone(Single::of_count(0x100_0000), top);
        } else if top.bits < Single::of_count(0x100_0000).bits {
            lemma_monotone(top, Single::of_count(0x100_0000));
        }
        assert(0x100_0000 * c <= (n + 1) * c) by (nonlinear_arith)
            requires
                0x100_0000 <= n + 1,
                c >= 0,
        ;
        lemma_nearest_monotone(
            Single::of_count(0x100_0000),
            0x100_0000 * c,
            Single::of_count(n + 1),
            (n + 1) * c,
            1,
        );
    }
}

/// A quotient by a larger number is at most one.
pub proof fn lemma_quotient_at_most_one(x: Single, y: Single)
    requires
        x.bits <= y.bits < INFINITY_BITS,
        y.bits >= ONE_BITS,
    ensures
        x.quotient(y).bits <= ONE_BITS,
        x.quotient(y).nonneg(),
{
    lemma_scaled_bound(x);
    lemma_scaled_bound(y);
    lemma_one();
    let one = Single { bits: ONE_BITS };
    if x.bits < y.bits {
        lemma_monotone(x, y);
    }
    if one.bits < y.bits {
        lemma_monotone(one, y);
    }
    let c = pow2(149) as int;
    lemma_pow2_pos(149);
    lemma_pow2_strictly_increases(149, 276);
    assert(0 <= x.scaled() * c <= c * y.scaled()) by (nonlinear_arith)
        requires
            0 <= x.scaled() <= y.scaled(),
            c > 0,
    ;
    assert(c * y.scaled() < y.scaled() * pow2(276)) by (nonlinear_arith)
        requires
            y.scaled() > 0,
            c < pow2(276),
    ;
    lemma_nearest_exists(x.scaled() * c, y.scaled(), 252);
    lemma_nearest_at_most(x.quotient(y), x.scaled() * c, y.scaled(), one);
}

/// A count times a factor that is at most two stays below `2^65`.
pub proof fn lemma_stretch_bound(x: Single, y: Single)
    requires
        x.bits <= 0x5F80_0000,
        y.bits <= 0x4000_0000,
    ensures
        x.product(y).bits <= 0x6000_0000,
{
    let count = Single { bits: 0x5F80_0000 };
    let two = Single { bits: 0x4000_0000 };
    let top = Single { bits: 0x6000_0000 };
    lemma_product_monotone(x, y, count, two);
    lemma_product_monotone(count, two, count, two);
    lemma2_to64();
    assert(count.significand() == 0x80_0000 && count.exponent() == 190);
    assert(two.significand() == 0x80_0000 && two.exponent() == 127);
    assert(top.significand() == 0x80_0000 && top.exponent() == 191);
    lemma_pow2_adds(23, 190);
    lemma_pow2_adds(23, 127);
    lemma_pow2_adds(23, 191);
    lemma_pow2_adds(213, 150);
    lemma_pow2_adds(214, 149);
    assert(count.scaled() == pow2(213));
    assert(two.scaled() == pow2(150));
    assert(top.scaled() == pow2(214));
    lemma_pow2_pos(149);
    lemma_nearest_at_most(
        count.product(two),
        count.scaled() * two.scaled(),
        pow2(149) as int,
        top,
    );
}

/// Singles with the same value are the same, as long as they have no sign.
pub proof fn lemma_same_value(x: Single, y: Single)
    requires
        x.nonneg(),
        y.nonneg(),
        x.scaled() == y.scaled(),
    ensures
        x == y,
{
    if x.bits < y.bits {
        lemma_monotone(x, y);
    } else if y.bits < x.bits {
        lemma_monotone(y, x);
    }
}

/// One times a number is that number.
pub proof fn lemma_times_one(x: Single)
    requires
        x.nonneg(),
    ensures
        x.product(Single { bits: ONE_BITS }) == x,
        (Single { bits: ONE_BITS }).product(x) == x,
{
    let one = Single { bits: ONE_BITS };
    lemma_one();
    lemma_pow2_pos(149);
    lemma_exact(x, pow2(149) as int);
    assert(one.scaled() * x.scaled() == x.scaled() * pow2(149)) by (nonlinear_arith)
        requires
            one.scaled() == pow2(149),
    ;
}

/// Counting: up to `2^24`, one more than a count is the next count.
pub proof fn lemma_count_up(n: int)
    requires
        0 <= n < 0x100_0000,
    ensures
        Single::of_count(n).sum(Single { bits: ONE_BITS }) == Single::of_count(n + 1),
{
    lemma_small_count(n);
    lemma_one();
    assert((n + 1) * pow2(149) == n * pow2(149) + pow2(149)) by (nonlinear_arith);
}

/// A number over itself is one.
pub proof fn lemma_over_itself(x: Single)
    requires
        x.nonneg(),
        x.scaled() > 0,
    ensures
        x.quotient(x) == (Single { bits: ONE_BITS }),
{
    let one = Single { bits: ONE_BITS };
    lemma_one();
    lemma_exact(one, x.scaled());
    assert(one.scaled() * x.scaled() == x.scaled() * pow2(149)) by (nonlinear_arith)
        requires
            one.scaled() == pow2(149),
    ;
}

/// The whole part of a count is the count.
proof fn lemma_whole_count(n: int)
    requires
        0 <= n <= 0x100_0000,
    ensures
        Single::of_count(n).whole() == n,
{
    lemma_small_count(n);
    lemma_pow2_pos(149);
    let c = pow2(149) as int;
    assert((n * c) / c == n) by (nonlinear_arith)
        requires
            c > 0,
    ;
}

/// The whole parts of numbers are in the order of the numbers.
proof fn lemma_whole_monotone(x: Single, y: Single)
    requires
        x.bits <= y.bits < INFINITY_BITS,
    ensures
        x.whole() <= y.whole(),
{
    if x.bits < y.bits {
        lemma_monotone(x, y);
    }
    lemma_pow2_pos(149);
    let c = pow2(149) as int;
    let a = x.scaled();
    let b = y.scaled();
    assert(a / c <= b / c) by (nonlinear_arith)
        requires
            a <= b,
            c > 0,
    ;
}

/// A count times a factor, without the fraction, lies on the same side of the count as the factor
/// of one, and is at most twice the count where the factor is at most two.
pub proof fn lemma_stretched_side(n: int, by: Single)
    requires
        0 <= n <= 0x80_0000,
        by.bits <= 0x4000_0000,
    ensures
        by.bits <= ONE_BITS ==> Single::of_count(n).product(by).whole() <= n,
        by.bits >= ONE_BITS ==> n <= Single::of_count(n).product(by).whole(),
        Single::of_count(n).product(by).whole() <= 2 * n,
{
    let x = Single::of_count(n);
    let one = Single { bits: ONE_BITS };
    let two = Single { bits: 0x4000_0000 };
    lemma_count(n);
    lemma_small_count(n);
    lemma_small_count(2 * n);
    lemma_whole_count(n);
    lemma_whole_count(2 * n);
    lemma_times_one(x);
    lemma_product_monotone(x, by, x, two);
    lemma_stretch_bound(x, by);
    lemma_stretch_bound(x, two);
    if by.bits <= ONE_BITS {
        lemma_whole_monotone(x.product(by), x);
    }
    if by.bits >= ONE_BITS {
        lemma_product_monotone(x, one, x, by);
        lemma_whole_monotone(x, x.product(by));
    }
    assert(two.significand() == 0x80_0000 && two.exponent() == 127);
    lemma2_to64();
    lemma_pow2_adds(23, 127);
    lemma_pow2_unfold(150);
    lemma_pow2_pos(149);
    let c = pow2(149) as int;
    assert(two.scaled() == 2 * c);
    assert(x.scaled() * two.scaled() == Single::of_count(2 * n).scaled() * c) by (nonlinear_arith)
        requires
            x.scaled() == n * c,
            two.scaled() == 2 * c,
            Single::of_count(2 * n).scaled() == (2 * n) * c,
    ;
    lemma_exact(Single::of_count(2 * n), c);
    lemma_whole_monotone(x.product(by), Single::of_count(2 * n));
}

/// The single that stands for `n` steps of size `2^base`, found by doubling until 24 digits are
/// reached.
proof fn lemma_step_grid(n: int, up: nat, base: nat) -> (s: Single)
    requires
        0 <= n,
        n * pow2(up) <= 0x100_0000,
        up <= 24 <= base <= 200,
    ensures
        s.nonneg(),
        s.scaled() == n * pow2(base),
    decreases 24 - up,
{
    lemma2_to64();
    if n == 0 {
        lemma_grid(0, 0);
        assert(0 * pow2(0) == 0 * pow2(base)) by (nonlinear_arith);
        Single { bits: 0 }
    } else {
        let q = n * pow2(up);
        if q >= HIDDEN_BIT {
            let l = (base - up) as nat;
            lemma_grid(l, q);
            lemma_pow2_adds(up, l);
            let a = pow2(up) as int;
            let b = pow2(l) as int;
            assert((n * a) * b == n * (a * b)) by (nonlinear_arith);
            Single { bits: (l * HIDDEN_BIT + q) as u32 }
        } else {
            lemma_pow2_unfold(up + 1);
            let a = pow2(up) as int;
            assert(n * (2 * a) == 2 * (n * a)) by (nonlinear_arith);
            assert(up < 24) by {
                if up == 24 {
                    assert(n * a >= a) by (nonlinear_arith)
                        requires
                            n >= 1,
                            a > 0,
                    ;
                }
            }
            lemma_step_grid(n, up + 1, base)
        }
    }
}

/// Rounding a number that is at most `2^k` moves it by at most `2^(k - 24)`.
pub proof fn lemma_rounding_error(r: Single, n: int, d: int, k: nat)
    requires
        is_nearest(r, n, d),
        d > 0,
        k <= 24,
        0 <= n <= d * pow2(149 + k),
    ensures
        -(d * pow2(125 + k)) <= r.scaled() * d - n <= d * pow2(125 + k),
{
    let u = pow2(125 + k) as int;
    lemma_pow2_pos(125 + k);
    lemma2_to64();
    lemma_pow2_adds(125 + k, 24);
    let step = d * u;
    assert(step > 0) by (nonlinear_arith)
        requires
            step == d * u,
            d > 0,
            u > 0,
    ;
    let q = n / step;
    vstd::arithmetic::div_mod::lemma_fundamental_div_mod(n, step);
    vstd::arithmetic::div_mod::lemma_mod_bound(n, step);
    assert(0 <= q <= 0x100_0000) by (nonlinear_arith)
        requires
            step * q <= n,
            n <= d * (u * 0x100_0000),
            step == d * u,
            0 < step,
            n >= 0,
            n < step * q + step,
    ;
    let s = lemma_step_grid(q, 0, 125 + k);
    assert(s.scaled() * d == step * q) by (nonlinear_arith)
        requires
            s.scaled() == q * u,
            step == d * u,
    ;
    assert(gap(r, n, d) <= gap(s, n, d));
}

/// A weight times a number that is at most one, compared with the fraction `num / den` that the
/// weight stands for.
pub proof fn lemma_weighted(x: Single, w: Single, num: int, den: int, off: int)
    requires
        x.bits <= ONE_BITS,
        w.bits <= ONE_BITS,
        num >= 0,
        den > 0,
        -off <= den * w.scaled() - num * pow2(149) <= off,
    ensures
        -(den * pow2(125) + off) <= den * x.product(w).scaled() - num * x.scaled() <= den * pow2(
            125,
        ) + off,
{
    let one = Single { bits: ONE_BITS };
    let u = pow2(149) as int;
    let e = pow2(125) as int;
    lemma_one();
    lemma_pow2_pos(149);
    lemma_scaled_bound(x);
    lemma_scaled_bound(w);
    if x.bits < ONE_BITS {
        lemma_monotone(x, one);
    }
    if w.bits < ONE_BITS {
        lemma_monotone(w, one);
    }
    lemma_product_monotone(x, w, x, w);
    let p = x.product(w).scaled();
    let a = x.scaled();
    let b = w.scaled();
    assert(0 <= a * b <= u * u) by (nonlinear_arith)
        requires
            0 <= a <= u,
            0 <= b <= u,
    ;
    lemma_rounding_error(x.product(w), a * b, u, 0);
    let diff = p * u - a * b;
    let slip = den * b - num * u;
    assert((den * p - num * a) * u == den * diff + a * slip) by (nonlinear_arith)
        requires
            diff == p * u - a * b,
            slip == den * b - num * u,
    ;
    assert(-(den * (u * e)) <= den * diff <= den * (u * e)) by (nonlinear_arith)
        requires
            den > 0,
            -(u * e) <= diff <= u * e,
    ;
    assert(-(u * off) <= a * slip <= u * off) by (nonlinear_arith)
        requires
            0 <= a <= u,
            -off <= slip <= off,
    ;
    let bound = den * e + off;
    let got = den * p - num * a;
    assert(-bound <= got <= bound) by (nonlinear_arith)
        requires
            got * u == den * diff + a * slip,
            -(den * (u * e)) <= den * diff <= den * (u * e),
            -(u * off) <= a * slip <= u * off,
            bound == den * e + off,
            u > 0,
    ;
}

/// A sum of two numbers that are at most one, compared with the exact sum.
pub proof fn lemma_added(x: Single, y: Single)
    requires
        x.bits <= ONE_BITS,
        y.bits <= ONE_BITS,
    ensures
        -pow2(126) <= x.sum(y).scaled() - (x.scaled() + y.scaled()) <= pow2(126),
{
    let one = Single { bits: ONE_BITS };
    lemma_one();
    lemma_scaled_bound(x);
    lemma_scaled_bound(y);
    if x.bits < ONE_BITS {
        lemma_monotone(x, one);
    }
    if y.bits < ONE_BITS {
        lemma_monotone(y, one);
    }
    lemma_sum_at_most(x, y, one);
    lemma_pow2_unfold(150);
    lemma_rounding_error(x.sum(y), x.scaled() + y.scaled(), 1, 1);
}

/// A count times a factor that is a bit below the fraction `num / den`, without what is behind the
/// point: it does not pass a count that is at least the fraction of the first one, and reaches one
/// that is below it.
pub proof fn lemma_stretched_fraction(n: int, by: Single, num: int, den: int, m: int)
    requires
        0 <= n <= 0x8_0000,
        0 <= m <= 0x100_0000,
        by.bits <= 0x4000_0000,
        den > 0,
        0 <= num * pow2(149) - den * by.scaled(),
        0x8_0000 * (num * pow2(149) - den * by.scaled()) <= pow2(149),
    ensures
        den * m >= num * n ==> Single::of_count(n).product(by).whole() <= m,
        den * m < num * n ==> Single::of_count(n).product(by).whole() >= m,
{
    let x = Single::of_count(n);
    let y = Single::of_count(m);
    let u = pow2(149) as int;
    let w = by.scaled();
    let off = num * u - den * w;
    lemma_pow2_pos(149);
    lemma_count(n);
    lemma_small_count(n);
    lemma_small_count(m);
    lemma_whole_count(m);
    lemma_stretch_bound(x, by);
    lemma_product_monotone(x, by, x, by);
    let p = x.scaled() * w;
    assert(p == u * (n * w)) by (nonlinear_arith)
        requires
            p == x.scaled() * w,
            x.scaled() == n * u,
    ;
    assert(y.scaled() * u == u * (m * u)) by (nonlinear_arith)
        requires
            y.scaled() == m * u,
    ;
    assert(den * (n * w) == (num * n) * u - n * off) by (nonlinear_arith)
        requires
            off == num * u - den * w,
    ;
    if den * m >= num * n {
        assert(n * w <= m * u) by (nonlinear_arith)
            requires
                den * (n * w) == (num * n) * u - n * off,
                den * m >= num * n,
                n >= 0,
                off >= 0,
                u > 0,
                den > 0,
        ;
        assert(p <= y.scaled() * u) by (nonlinear_arith)
            requires
                p == u * (n * w),
                y.scaled() * u == u * (m * u),
                n * w <= m * u,
                u > 0,
        ;
        lemma_nearest_at_most(x.product(by), p, u, y);
        lemma_whole_monotone(x.product(by), y);
    } else {
        assert(n * off <= u) by (nonlinear_arith)
            requires
                0 <= n <= 0x8_0000,
                off >= 0,
                0x8_0000 * off <= u,
        ;
        assert(n * w >= m * u) by (nonlinear_arith)
            requires
                den * (n * w) == (num * n) * u - n * off,
                num * n >= den * m + 1,
                n * off <= u,
                u > 0,
                den > 0,
        ;
        assert(p >= y.scaled() * u) by (nonlinear_arith)
            requires
                p == u * (n * w),
                y.scaled() * u == u * (m * u),
                n * w >= m * u,
                u > 0,
        ;
        lemma_nearest_at_least(x.product(by), p, u, y);
        lemma_whole_monotone(y, x.product(by));
    }
}

/// No number of single precision is nearer to `n / d` than `r`.
pub open spec fn none_is_nearer(r: Single, n: int, d: int) -> bool {
    forall|s: Single|
        s.bits < 0x7F80_0000 ==> {
            let off = r.scaled() * d - n;
            let other = #[trigger] s.scaled() * d - n;
            (-other <= off <= other) || (other <= off <= -other)
        }
}

proof fn lemma_none_is_nearer(r: Single, n: int, d: int)
    requires
        is_nearest(r, n, d),
    ensures
        none_is_nearer(r, n, d),
{
    assert forall|s: Single| s.bits < 0x7F80_0000 implies {
        let off = r.scaled() * d - n;
        let other = #[trigger] s.scaled() * d - n;
        (-other <= off <= other) || (other <= off <= -other)
    } by {
        assert(gap(r, n, d) <= gap(s, n, d));
    }
}

/// Sums and products are as near to the exact ones as numbers of single precision can be.
pub proof fn law_sums_and_products_are_rounded_correctly(x: Single, y: Single)
    requires
        x.bits <= 0x6000_0000,
        y.bits <= 0x5000_0000,
    ensures
        none_is_nearer(x.sum(y), x.scaled() + y.scaled(), 1),
        none_is_nearer(x.product(y), x.scaled() * y.scaled(), pow2(149) as int),
{
    lemma_sum_at_most(x, y, Single { bits: 0x6000_0000 });
    lemma_none_is_nearer(x.sum(y), x.scaled() + y.scaled(), 1);
    lemma_product_exists(x, y);
    lemma_none_is_nearer(x.product(y), x.scaled() * y.scaled(), pow2(149) as int);
}

/// Quotients of a number and one that is not smaller are as near to the exact ones as numbers of
/// single precision can be, and so are counts.
pub proof fn law_quotients_and_counts_are_rounded_correctly(x: Single, y: Single, n: usize)
    requires
        x.bits <= y.bits < 0x7F80_0000,
        y.bits >= 0x3F80_0000,
    ensures
        none_is_nearer(x.quotient(y), x.scaled() * pow2(149), y.scaled()),
        none_is_nearer(Single::of_count(n as int), n * pow2(149), 1),
{
    lemma_scaled_bound(x);
    lemma_scaled_bound(y);
    lemma_one();
    let one = Single { bits: ONE_BITS };
    if x.bits < y.bits {
        lemma_monotone(x, y);
    }
    if one.bits < y.bits {
        lemma_monotone(one, y);
    }
    let c = pow2(149) as int;
    lemma_pow2_pos(149);
    lemma_pow2_strictly_increases(149, 276);
    assert(0 <= x.scaled() * c <= c * y.scaled()) by (nonlinear_arith)
        requires
            0 <= x.scaled() <= y.scaled(),
            c > 0,
    ;
    assert(c * y.scaled() < y.scaled() * pow2(276)) by (nonlinear_arith)
        requires
            y.scaled() > 0,
            c < pow2(276),
    ;
    lemma_nearest_exists(x.scaled() * c, y.scaled(), 252);
    lemma_none_is_nearer(x.quotient(y), x.scaled() * c, y.scaled());
    lemma_count(n as int);
    lemma_none_is_nearer(Single::of_count(n as int), n * pow2(149), 1);
}

/// A number between zero and one in double precision becomes the nearest one in single precision.
pub proof fn law_doubles_are_rounded_correctly(bits: u64)
    requires
        bits <= 0x3FF0_0000_0000_0000,
    ensures
        none_is_nearer(Single::of_double(bits), double_scaled(bits), pow2(925) as int),
        bits >= 0x0010_0000_0000_0000 ==> double_scaled(bits) == (0x0010_0000_0000_0000
            + bits as int % 0x0010_0000_0000_0000) * pow2(
            (bits as int / 0x0010_0000_0000_0000 - 1) as nat,
        ),
{
    lemma_double(bits);
    lemma_none_is_nearer(Single::of_double(bits), double_scaled(bits), pow2(925) as int);
}

/// A number of single precision is its significand of 24 digits, scaled by a power of two.
pub proof fn law_numbers_are_scaled_significands(s: Single)
    requires
        s.bits < 0x7F80_0000,
    ensures
        s.bits >= 0x0080_0000 ==> s.scaled() == (0x0080_0000 + s.bits as int % 0x0080_0000) * pow2(
            (s.bits as int / 0x0080_0000 - 1) as nat,
        ),
        s.bits < 0x0080_0000 ==> s.scaled() == s.bits,
{
    lemma2_to64();
    if s.bits < 0x0080_0000 {
        assert(s.exponent() == 0);
        assert(s.scaled() == s.significand() * 1);
    }
}

} // verus!
