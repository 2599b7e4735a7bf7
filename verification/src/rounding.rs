//! Rounding to single precision: the nearest number exists, is unique and is found.
use vstd::arithmetic::power2::*;
use vstd::prelude::*;

use crate::single::{gap, is_nearest, nearest, Single, HIDDEN_BIT, INFINITY_BITS, ONE_BITS};

verus! {

/// A single is determined by its place in the grid: multiples of `2^l` with 24-bit factors.
pub proof fn lemma_grid(l: nat, q: int)
    requires
        0 <= q <= 2 * HIDDEN_BIT,
        l > 0 ==> q >= HIDDEN_BIT,
        l * HIDDEN_BIT + q < INFINITY_BITS,
    ensures
        (Single { bits: (l * HIDDEN_BIT + q) as u32 }).scaled() == q * pow2(l),
{
    let s = Single { bits: (l * HIDDEN_BIT + q) as u32 };
    lemma2_to64();
    if HIDDEN_BIT <= q < 2 * HIDDEN_BIT {
        assert(s.bits as int / HIDDEN_BIT as int == l + 1);
        assert(s.bits as int % HIDDEN_BIT as int == q - HIDDEN_BIT);
    } else if q == 2 * HIDDEN_BIT {
        assert(s.bits as int / HIDDEN_BIT as int == l + 2);
        assert(s.bits as int % HIDDEN_BIT as int == 0);
        assert(s.exponent() == l + 1);
        lemma_pow2_unfold(l + 1);
        assert(HIDDEN_BIT * (2 * pow2(l)) == (2 * HIDDEN_BIT) * pow2(l)) by (nonlinear_arith);
    }
}

/// The numeric order of singles is the order of their encodings.
pub proof fn lemma_monotone(s: Single, t: Single)
    requires
        s.nonneg(),
        t.nonneg(),
        s.bits < t.bits,
    ensures
        s.scaled() < t.scaled(),
{
    let es = s.exponent();
    let et = t.exponent();
    lemma_pow2_pos(es);
    lemma_pow2_pos(et);
    if es == et {
        assert(s.significand() < t.significand());
        assert(s.scaled() < t.scaled()) by (nonlinear_arith)
            requires
                s.significand() < t.significand(),
                s.scaled() == s.significand() * pow2(es),
                t.scaled() == t.significand() * pow2(es),
                pow2(es) > 0,
        ;
    } else {
        assert(es < et);
        lemma_pow2_unfold(es + 1);
        if es + 1 < et {
            lemma_pow2_strictly_increases(es + 1, et);
        }
        assert(t.significand() >= HIDDEN_BIT);
        assert(s.significand() < 2 * HIDDEN_BIT);
        assert(s.scaled() < t.scaled()) by (nonlinear_arith)
            requires
                s.significand() < 2 * HIDDEN_BIT,
                t.significand() >= HIDDEN_BIT,
                s.scaled() == s.significand() * pow2(es),
                t.scaled() == t.significand() * pow2(et),
                pow2(et) >= 2 * pow2(es),
                pow2(es) > 0,
        ;
    }
}

/// At most one single is nearest.
pub proof fn lemma_nearest_unique(a: Single, b: Single, n: int, d: int)
    requires
        is_nearest(a, n, d),
        is_nearest(b, n, d),
        d > 0,
    ensures
        a == b,
{
    lemma_nearest_not_below(a, b, n, d);
    lemma_nearest_not_below(b, a, n, d);
}

proof fn lemma_nearest_not_below(a: Single, b: Single, n: int, d: int)
    requires
        is_nearest(a, n, d),
        is_nearest(b, n, d),
        d > 0,
    ensures
        a.bits >= b.bits,
{
    if a.bits < b.bits {
        let c = Single { bits: (a.bits + 1) as u32 };
        assert(gap(a, n, d) == gap(b, n, d));
        assert(c.bits < b.bits);
        lemma_monotone(a, c);
        lemma_monotone(c, b);
        lemma_scale_order(a.scaled(), c.scaled(), d);
        lemma_scale_order(c.scaled(), b.scaled(), d);
        assert(gap(c, n, d) < gap(a, n, d));
    }
}

pub proof fn lemma_scale_order(x: int, y: int, d: int)
    requires
        d > 0,
        x < y,
    ensures
        x * d < y * d,
{
    assert(x * d < y * d) by (nonlinear_arith)
        requires
            d > 0,
            x < y,
    ;
}

/// Rounding on the grid: where `n / d` lies `q` whole and `num / den - q` fractional steps of
/// `2^l` up, the nearest single is `q` or `q + 1` steps up, by the usual rule.
pub proof fn lemma_round(n: int, d: int, l: nat, num: int, den: int)
    requires
        d > 0,
        den > 0,
        num >= 0,
        n * den == (pow2(l) * d) * num,
        num / den < 2 * HIDDEN_BIT,
        l > 0 ==> num / den >= HIDDEN_BIT,
        l <= 252,
    ensures
        is_nearest(rounded(num, den, l), n, d),
        nearest(n, d) == rounded(num, den, l),
{
    let q = num / den;
    let rem = num % den;
    let u = pow2(l) * d;
    let r = n - q * u;
    lemma_pow2_pos(l);
    assert(u > 0) by (nonlinear_arith)
        requires
            u == pow2(l) * d,
            pow2(l) > 0,
            d > 0,
    ;
    vstd::arithmetic::div_mod::lemma_fundamental_div_mod(num, den);
    vstd::arithmetic::div_mod::lemma_mod_bound(num, den);
    vstd::arithmetic::div_mod::lemma_div_pos_is_pos(num, den);
    assert(r * den == u * rem) by (nonlinear_arith)
        requires
            n * den == u * num,
            r == n - q * u,
            num == den * q + rem,
    ;
    lemma_compare_fraction(r, u, rem, den);
    let lo = Single { bits: (l * HIDDEN_BIT + q) as u32 };
    let hi = Single { bits: (l * HIDDEN_BIT + q + 1) as u32 };
    lemma_grid(l, q);
    lemma_grid(l, q + 1);
    assert(lo.scaled() * d == q * u) by (nonlinear_arith)
        requires
            lo.scaled() == q * pow2(l),
            u == pow2(l) * d,
    ;
    assert(hi.scaled() * d == q * u + u) by (nonlinear_arith)
        requires
            hi.scaled() == (q + 1) * pow2(l),
            u == pow2(l) * d,
    ;
    let best = rounded(num, den, l);
    assert(lo.bits % 2 == q % 2);
    assert(gap(lo, n, d) == r);
    assert(gap(hi, n, d) == u - r);
    assert(best == if 2 * r > u || (2 * r == u && q % 2 == 1) {
        hi
    } else {
        lo
    });
    assert forall|s: Single|
        #![trigger s.scaled()]
        s.nonneg() implies gap(best, n, d) < gap(s, n, d) || (gap(best, n, d) == gap(s, n, d) && (
    best == s || best.bits % 2 == 0)) by {
        if s.bits < lo.bits {
            lemma_monotone(s, lo);
            lemma_scale_order(s.scaled(), lo.scaled(), d);
        } else if s.bits > hi.bits {
            lemma_monotone(hi, s);
            lemma_scale_order(hi.scaled(), s.scaled(), d);
        }
    }
    assert(is_nearest(best, n, d));
    lemma_nearest_unique(nearest(n, d), best, n, d);
}

/// The fractions `r / u` and `rem / den` are the same, so they compare alike with zero, a half
/// and one.
proof fn lemma_compare_fraction(r: int, u: int, rem: int, den: int)
    requires
        u > 0,
        den > 0,
        0 <= rem < den,
        r * den == u * rem,
    ensures
        0 <= r < u,
        2 * r > u <==> 2 * rem > den,
        2 * r == u <==> 2 * rem == den,
{
    assert(0 <= r) by (nonlinear_arith)
        requires
            u > 0,
            den > 0,
            0 <= rem,
            r * den == u * rem,
    ;
    assert(r < u) by (nonlinear_arith)
        requires
            u > 0,
            den > 0,
            rem < den,
            r * den == u * rem,
    ;
    assert(2 * r > u <==> 2 * rem > den) by (nonlinear_arith)
        requires
            u > 0,
            den > 0,
            r * den == u * rem,
    ;
    assert(2 * r == u <==> 2 * rem == den) by (nonlinear_arith)
        requires
            u > 0,
            den > 0,
            r * den == u * rem,
    ;
}

/// The encoding `num / den` steps of `2^l` up, rounded to the nearest step, ties to even.
pub open spec fn rounded(num: int, den: int, l: nat) -> Single {
    let q = num / den;
    let rem = num % den;
    let up = if 2 * rem > den || (2 * rem == den && q % 2 == 1) {
        1int
    } else {
        0
    };
    Single { bits: (l * HIDDEN_BIT + q + up) as u32 }
}

/// A single is its own nearest single.
pub proof fn lemma_exact(s: Single, d: int)
    requires
        s.nonneg(),
        d > 0,
    ensures
        nearest(s.scaled() * d, d) == s,
{
    let n = s.scaled() * d;
    assert forall|t: Single|
        #![trigger t.scaled()]
        t.nonneg() implies gap(s, n, d) < gap(t, n, d) || (gap(s, n, d) == gap(t, n, d) && (s == t
        || s.bits % 2 == 0)) by {
        if t.bits < s.bits {
            lemma_monotone(t, s);
            lemma_scale_order(t.scaled(), s.scaled(), d);
        } else if s.bits < t.bits {
            lemma_monotone(s, t);
            lemma_scale_order(s.scaled(), t.scaled(), d);
        }
    }
    assert(is_nearest(s, n, d));
    lemma_nearest_unique(nearest(n, d), s, n, d);
}

/// Rounding keeps the order.
pub proof fn lemma_nearest_monotone(a: Single, m: int, b: Single, n: int, d: int)
    requires
        is_nearest(a, m, d),
        is_nearest(b, n, d),
        m <= n,
        d > 0,
    ensures
        a.bits <= b.bits,
{
    if b.bits < a.bits {
        lemma_monotone(b, a);
        lemma_scale_order(b.scaled(), a.scaled(), d);
        assert(gap(a, m, d) <= gap(b, m, d));
        assert(gap(b, n, d) <= gap(a, n, d));
        assert(m == n);
        lemma_nearest_unique(a, b, n, d);
    }
}

/// What lies at or below a single rounds to it or to a smaller one.
pub proof fn lemma_nearest_at_most(a: Single, m: int, d: int, bound: Single)
    requires
        is_nearest(a, m, d),
        bound.nonneg(),
        m <= bound.scaled() * d,
        d > 0,
    ensures
        a.bits <= bound.bits,
{
    if bound.bits < a.bits {
        lemma_monotone(bound, a);
        lemma_scale_order(bound.scaled(), a.scaled(), d);
        assert(gap(bound, m, d) < gap(a, m, d));
    }
}

/// The power of two with exponent `e`.
pub(crate) fn power_of_two(e: u32) -> (w: u128)
    requires
        e <= 126,
    ensures
        w == pow2(e as nat),
{
    let mut w: u128 = 1;
    let mut i: u32 = 0;
    proof {
        lemma2_to64();
    }
    while i < e
        invariant
            i <= e <= 126,
            w == pow2(i as nat),
        decreases e - i,
    {
        proof {
            lemma_pow2_unfold((i + 1) as nat);
            lemma_power_fits(i as nat + 1);
        }
        w = w * 2;
        i = i + 1;
    }
    w
}

/// Powers of two up to the 127th fit in 128 bits.
proof fn lemma_power_fits(e: nat)
    requires
        e <= 127,
    ensures
        pow2(e) <= 0x8000_0000_0000_0000_0000_0000_0000_0000,
{
    lemma2_to64();
    lemma_pow2_adds(64, 63);
    lemma_pow2_unfold(64);
    if e < 127 {
        lemma_pow2_strictly_increases(e, 127);
    }
}

/// The number of binary digits of `m`.
pub(crate) fn bit_length(m: u64) -> (p: u32)
    requires
        m > 0,
    ensures
        1 <= p <= 64,
        pow2((p - 1) as nat) <= m < pow2(p as nat),
{
    let mut p: u32 = 0;
    let mut w: u128 = 1;
    proof {
        lemma2_to64();
    }
    while p < 64 && w <= m as u128
        invariant
            p <= 64,
            w == pow2(p as nat),
            p > 0 ==> pow2((p - 1) as nat) <= m,
            p == 0 ==> w == 1,
            m > 0,
        decreases 64 - p,
    {
        proof {
            lemma_pow2_unfold((p + 1) as nat);
            lemma_power_fits(p as nat + 1);
        }
        w = w * 2;
        p = p + 1;
    }
    proof {
        lemma2_to64();
    }
    p
}

/// Rounds `num / den` steps of `2^l` to the nearest step.
pub(crate) fn round_quotient(num: u128, den: u128, l: u32) -> (r: Single)
    requires
        0 < den <= 0x8000_0000_0000_0000_0000_0000_0000_0000,
        num / den < 2 * HIDDEN_BIT,
        l <= 252,
    ensures
        r == rounded(num as int, den as int, l as nat),
{
    let q: u32 = (num / den) as u32;
    let rem: u128 = num % den;
    let rest: u128 = den - rem;
    let up: u32 = if rem > rest || (rem == rest && q % 2 == 1) {
        1
    } else {
        0
    };
    Single { bits: l * HIDDEN_BIT + q + up }
}

/// The single nearest to `m * 2^k / 2^t`, in units of `2^-149`.
pub(crate) fn round_parts(m: u64, k: u32, t: u32) -> (r: Single)
    requires
        k <= 2000,
        t <= 2000,
        m * pow2(k as nat) < pow2((t + 276) as nat),
    ensures
        r == nearest(m * pow2(k as nat), pow2(t as nat) as int),
        is_nearest(r, m * pow2(k as nat), pow2(t as nat) as int),
{
    let ghost n = m * pow2(k as nat);
    let ghost d = pow2(t as nat) as int;
    proof {
        lemma_pow2_pos(t as nat);
        lemma2_to64();
    }
    if m == 0 {
        proof {
            assert(n == 0);
            lemma_round(0, d, 0, 0, 1);
        }
        return Single { bits: 0 };
    }
    let p: u32 = bit_length(m);
    proof {
        lemma_exponent_bound(m as int, p as nat, k as nat, (t + 276) as nat);
    }
    let excess: i64 = p as i64 - 24 + k as i64 - t as i64;
    let l: i64 = if excess > 0 {
        excess
    } else {
        0
    };
    let s: i64 = l + t as i64 + 24 - k as i64;
    proof {
        lemma_round_parts(m as int, p as nat, k as nat, t as nat, l as nat, s as nat);
    }
    if s >= 90 {
        return Single { bits: 0 };
    }
    let num: u128 = m as u128 * 0x100_0000;
    let den: u128 = power_of_two(s as u32);
    proof {
        lemma_power_fits(s as nat);
        lemma_pow2_pos(s as nat);
    }
    round_quotient(num, den, l as u32)
}

proof fn lemma_exponent_bound(m: int, p: nat, k: nat, b: nat)
    requires
        p >= 1,
        pow2((p - 1) as nat) <= m,
        m * pow2(k) < pow2(b),
    ensures
        p - 1 + k < b,
{
    if p - 1 + k >= b {
        lemma_pow2_adds((p - 1) as nat, k);
        assert(m * pow2(k) >= pow2((p - 1) as nat) * pow2(k)) by (nonlinear_arith)
            requires
                m >= pow2((p - 1) as nat),
        ;
        if p - 1 + k > b {
            lemma_pow2_strictly_increases(b, (p - 1 + k) as nat);
        }
    }
}

proof fn lemma_round_parts(m: int, p: nat, k: nat, t: nat, l: nat, s: nat)
    requires
        1 <= p <= 64,
        pow2((p - 1) as nat) <= m < pow2(p),
        l == if p - 24 + k - t > 0 {
            p - 24 + k - t
        } else {
            0
        },
        l <= 252,
        s == l + t + 24 - k,
    ensures
        m * 0x100_0000 / (pow2(s) as int) < 2 * HIDDEN_BIT,
        is_nearest(rounded(m * 0x100_0000, pow2(s) as int, l), m * pow2(k), pow2(t) as int),
        nearest(m * pow2(k), pow2(t) as int) == rounded(m * 0x100_0000, pow2(s) as int, l),
        s >= 90 ==> rounded(m * 0x100_0000, pow2(s) as int, l) == (Single { bits: 0 }),
{
    let num = m * 0x100_0000;
    let den = pow2(s) as int;
    lemma_pow2_pos(s);
    lemma_pow2_pos(t);
    lemma2_to64();
    assert(s >= p);
    // The two sides of the cross product carry the same power of two.
    lemma_pow2_adds(k, s);
    lemma_pow2_adds(l, t);
    lemma_pow2_adds(l + t, 24);
    assert(k + s == l + t + 24);
    assert((m * pow2(k)) * den == (pow2(l) * pow2(t)) * num) by (nonlinear_arith)
        requires
            den == pow2(s),
            num == m * 0x100_0000,
            pow2(k) * pow2(s) == (pow2(l) * pow2(t)) * 0x100_0000,
    ;
    // The quotient has at most 24 digits, and exactly 24 above the smallest exponent.
    lemma_pow2_adds(s, 24);
    lemma_pow2_adds(p, 24);
    if p < s {
        lemma_pow2_strictly_increases(p, s);
    }
    assert(num < den * 0x100_0000);
    vstd::arithmetic::div_mod::lemma_fundamental_div_mod(num, den);
    vstd::arithmetic::div_mod::lemma_mod_bound(num, den);
    assert(num / den < 0x100_0000) by (nonlinear_arith)
        requires
            num < den * 0x100_0000,
            num == den * (num / den) + num % den,
            num % den >= 0,
            den > 0,
    ;
    if l > 0 {
        assert(s == p);
        lemma_pow2_unfold(p);
        assert(num >= den * 0x80_0000);
        assert(num / den >= 0x80_0000) by (nonlinear_arith)
            requires
                num >= den * 0x80_0000,
                num == den * (num / den) + num % den,
                num % den < den,
                den > 0,
        ;
    }
    lemma_round(m * pow2(k), pow2(t) as int, l, num, den);
    if s >= 90 {
        assert(l == 0);
        assert(2 * num < den) by {
            if p < 64 {
                lemma_pow2_strictly_increases(p, 64);
            }
            if s > 90 {
                lemma_pow2_strictly_increases(90, s);
            }
            lemma_pow2_adds(64, 26);
        }
        vstd::arithmetic::div_mod::lemma_small_mod(num as nat, den as nat);
        vstd::arithmetic::div_mod::lemma_basic_div(num, den);
    }
}

/// Every fraction below `2^276` has a nearest single.
pub proof fn lemma_nearest_exists(n: int, d: int, l: nat)
    requires
        d > 0,
        l <= 252,
        0 <= n < d * pow2(l + 24),
    ensures
        is_nearest(nearest(n, d), n, d),
    decreases l,
{
    let den = pow2(l) * d;
    lemma_pow2_pos(l);
    lemma2_to64();
    lemma_pow2_adds(l, 24);
    assert(den > 0) by (nonlinear_arith)
        requires
            den == pow2(l) * d,
            pow2(l) > 0,
            d > 0,
    ;
    assert(d * pow2(l + 24) == den * 0x100_0000) by (nonlinear_arith)
        requires
            den == pow2(l) * d,
            pow2(l + 24) == pow2(l) * 0x100_0000,
    ;
    vstd::arithmetic::div_mod::lemma_fundamental_div_mod(n, den);
    vstd::arithmetic::div_mod::lemma_mod_bound(n, den);
    assert(n / den < 0x100_0000) by (nonlinear_arith)
        requires
            n < den * 0x100_0000,
            n == den * (n / den) + n % den,
            n % den >= 0,
            den > 0,
    ;
    if l == 0 || n >= den * 0x80_0000 {
        if l > 0 {
            assert(n / den >= 0x80_0000) by (nonlinear_arith)
                requires
                    n >= den * 0x80_0000,
                    n == den * (n / den) + n % den,
                    n % den < den,
                    den > 0,
            ;
        }
        assert(n * den == den * n) by (nonlinear_arith);
        lemma_round(n, d, l, n, den);
    } else {
        lemma_pow2_unfold(l + 24);
        lemma_pow2_adds((l - 1) as nat, 24);
        lemma_pow2_unfold(l);
        assert(d * pow2((l - 1 + 24) as nat) == den * 0x80_0000) by (nonlinear_arith)
            requires
                den == pow2(l) * d,
                pow2(l) == 2 * pow2((l - 1) as nat),
                pow2((l - 1 + 24) as nat) == pow2((l - 1) as nat) * 0x100_0000,
        ;
        lemma_nearest_exists(n, d, (l - 1) as nat);
    }
}

/// A finite single lies below the power of two just above its binade.
pub proof fn lemma_scaled_bound(s: Single)
    requires
        s.nonneg(),
    ensures
        0 <= s.significand() < 0x100_0000,
        s.exponent() <= 253,
        0 <= s.scaled() < pow2(s.exponent() + 24),
        s.exponent() > 0 ==> s.significand() >= HIDDEN_BIT,
        s.exponent() > 0 ==> s.bits == s.exponent() * HIDDEN_BIT + s.significand(),
        s.exponent() == 0 ==> s.bits == s.significand(),
{
    lemma_pow2_pos(s.exponent());
    lemma_pow2_adds(s.exponent(), 24);
    lemma2_to64();
    assert(0 <= s.scaled() < pow2(s.exponent()) * 0x100_0000) by (nonlinear_arith)
        requires
            0 <= s.significand() < 0x100_0000,
            s.scaled() == s.significand() * pow2(s.exponent()),
            pow2(s.exponent()) > 0,
    ;
}

/// The encoding of one stands for `2^149` smallest units.
pub proof fn lemma_one()
    ensures
        (Single { bits: ONE_BITS }).scaled() == pow2(149),
{
    lemma2_to64();
    lemma_pow2_adds(23, 126);
    assert(0x3F80_0000int / 0x80_0000 == 127);
    assert(0x3F80_0000int % 0x80_0000 == 0);
}

/// What is not below a single is not rounded below it.
pub proof fn lemma_nearest_at_least(a: Single, m: int, d: int, bound: Single)
    requires
        is_nearest(a, m, d),
        bound.nonneg(),
        m >= bound.scaled() * d,
        d > 0,
    ensures
        a.bits >= bound.bits,
{
    if a.bits < bound.bits {
        lemma_monotone(a, bound);
        lemma_scale_order(a.scaled(), bound.scaled(), d);
        assert(gap(bound, m, d) < gap(a, m, d));
    }
}

} // verus!
