//! Why the arithmetic on single-precision numbers is correctly rounded, operation by operation.
use vstd::arithmetic::power2::*;
use vstd::prelude::*;

use crate::rounding::{
    lemma_exact, lemma_monotone, lemma_nearest_at_most, lemma_nearest_exists,
    lemma_nearest_monotone, lemma_one, lemma_round, lemma_scaled_bound, power_of_two, rounded,
};
use crate::single::{
    double_scaled, is_nearest, nearest, Single, DOUBLE_BELOW_ONE_BITS, DOUBLE_HIDDEN_BIT,
    DOUBLE_ONE_BITS, HIDDEN_BIT, ONE_BITS,
};

verus! {

/// A power of two that fits in 33 bits.
pub(crate) fn small_power(e: u32) -> (w: u64)
    requires
        e <= 32,
    ensures
        w == pow2(e as nat),
        1 <= w <= 0x1_0000_0000,
{
    proof {
        lemma_pow2_pos(e as nat);
        lemma2_to64();
        if e < 32 {
            lemma_pow2_strictly_increases(e as nat, 32);
        }
    }
    power_of_two(e) as u64
}

pub proof fn lemma_aligned(m: int, kx: nat, ky: nat)
    requires
        ky <= kx,
    ensures
        (m * pow2((kx - ky) as nat)) * pow2(ky) == m * pow2(kx),
{
    lemma_pow2_adds((kx - ky) as nat, ky);
    let a = pow2((kx - ky) as nat) as int;
    let b = pow2(ky) as int;
    assert((m * a) * b == m * (a * b)) by (nonlinear_arith);
}

/// Sums of moderate numbers stay below `2^276`.
pub proof fn lemma_sum_bound(x: Single, y: Single)
    requires
        y.bits <= x.bits <= 0x7E00_0000,
    ensures
        x.scaled() + y.scaled() < pow2(276),
        x.exponent() <= 251,
{
    lemma_scaled_bound(x);
    if y.bits < x.bits {
        lemma_monotone(y, x);
    }
    lemma_pow2_unfold(276);
    if x.exponent() + 24 < 275 {
        lemma_pow2_strictly_increases(x.exponent() + 24, 275);
    }
}

proof fn lemma_far_bound(x: Single, y: Single)
    requires
        y.bits <= x.bits <= 0x7E00_0000,
        x.exponent() > y.exponent() + 32,
    ensures
        0 <= y.scaled(),
        8 * y.scaled() < pow2(x.exponent()),
{
    lemma_scaled_bound(y);
    lemma_pow2_adds(y.exponent() + 24, 3);
    lemma2_to64();
    lemma_pow2_strictly_increases(y.exponent() + 27, x.exponent());
}

pub proof fn lemma_far_sum(x: Single, y: Single)
    requires
        y.bits <= x.bits <= 0x7E00_0000,
        x.exponent() > y.exponent() + 32,
    ensures
        x.sum(y) == x,
{
    let den = pow2(x.exponent()) as int;
    let num = x.scaled() + y.scaled();
    lemma_far_bound(x, y);
    lemma_scaled_bound(x);
    lemma_pow2_pos(x.exponent());
    assert(num == x.significand() * den + y.scaled());
    vstd::arithmetic::div_mod::lemma_fundamental_div_mod_converse(
        num,
        den,
        x.significand(),
        y.scaled(),
    );
    assert(num * den == (den * 1) * num) by (nonlinear_arith);
    lemma_round(num, 1, x.exponent(), num, den);
}

pub proof fn lemma_far_difference(x: Single, y: Single)
    requires
        y.bits <= x.bits <= 0x7E00_0000,
        x.exponent() > y.exponent() + 32,
    ensures
        x.difference(y) == x,
{
    let num = x.scaled() - y.scaled();
    lemma_far_bound(x, y);
    lemma_scaled_bound(x);
    lemma_pow2_pos(x.exponent());
    if y.scaled() == 0 {
        assert(num == x.scaled() * 1);
        lemma_exact(x, 1);
    } else if x.significand() > HIDDEN_BIT {
        let den = pow2(x.exponent()) as int;
        let q = x.significand() - 1;
        assert(num == q * den + (den - y.scaled())) by (nonlinear_arith)
            requires
                num == x.scaled() - y.scaled(),
                x.scaled() == x.significand() * den,
                q == x.significand() - 1,
        ;
        vstd::arithmetic::div_mod::lemma_fundamental_div_mod_converse(
            num,
            den,
            q,
            den - y.scaled(),
        );
        assert(num * den == (den * 1) * num) by (nonlinear_arith);
        lemma_round(num, 1, x.exponent(), num, den);
    } else {
        let l = (x.exponent() - 1) as nat;
        let den = pow2(l) as int;
        lemma_pow2_unfold(x.exponent());
        lemma_pow2_pos(l);
        let q = 2 * HIDDEN_BIT - 1;
        assert(num == q * den + (den - y.scaled())) by (nonlinear_arith)
            requires
                num == x.scaled() - y.scaled(),
                x.scaled() == HIDDEN_BIT * (2 * den),
                q == 2 * HIDDEN_BIT - 1,
        ;
        vstd::arithmetic::div_mod::lemma_fundamental_div_mod_converse(
            num,
            den,
            q,
            den - y.scaled(),
        );
        assert(num * den == (den * 1) * num) by (nonlinear_arith);
        lemma_round(num, 1, l, num, den);
    }
}

pub proof fn lemma_lead(mx: int, my: int)
    requires
        0 < mx < 0x100_0000,
        0 < my < 0x100_0000,
    ensures
        0 < mx * 0x100_0000_0000 / my,
        my * (mx * 0x100_0000_0000 / my) <= mx * 0x100_0000_0000,
        mx * 0x100_0000_0000 < my * (mx * 0x100_0000_0000 / my + 1),
{
    let a = mx * 0x100_0000_0000;
    vstd::arithmetic::div_mod::lemma_fundamental_div_mod(a, my);
    vstd::arithmetic::div_mod::lemma_mod_bound(a, my);
    let q = a / my;
    assert(my * (q + 1) == my * q + my) by (nonlinear_arith);
    assert(q > 0) by (nonlinear_arith)
        requires
            a < my * (q + 1),
            a >= 0x100_0000_0000,
            0 < my < 0x100_0000,
    ;
}

pub proof fn lemma_quotient_parts(
    mx: int,
    my: int,
    kx: nat,
    ky: nat,
    p: nat,
    l: nat,
    s: nat,
)
    requires
        0 < mx < 0x100_0000,
        0 < my < 0x100_0000,
        1 <= p <= 64,
        pow2((p - 1) as nat) <= mx * 0x100_0000_0000 / my < pow2(p),
        l == if p - 24 + kx + 109 - ky > 0 {
            p - 24 + kx + 109 - ky
        } else {
            0
        },
        kx <= 192,
        ky >= 120,
        s == l + ky - kx - 85,
    ensures
        l <= 252,
        mx * 0x1_0000_0000_0000_0000 / (my * pow2(s)) < 2 * HIDDEN_BIT,
        nearest((mx * pow2(kx)) * pow2(149), my * pow2(ky)) == rounded(
            mx * 0x1_0000_0000_0000_0000,
            my * pow2(s),
            l,
        ),
        s >= 90 ==> rounded(mx * 0x1_0000_0000_0000_0000, my * pow2(s), l) == (Single { bits: 0 }),
{
    let num = mx * 0x1_0000_0000_0000_0000;
    let w = pow2(s) as int;
    let den = my * w;
    let lead = mx * 0x100_0000_0000 / my;
    lemma_lead(mx, my);
    lemma_pow2_pos(s);
    lemma_pow2_pos(ky);
    lemma2_to64();
    assert(s >= p);
    assert(den > 0) by (nonlinear_arith)
        requires
            den == my * w,
            my > 0,
            w > 0,
    ;
    // Upper bound: num / den < 2^24.
    lemma_pow2_adds(s, 24);
    if p < s {
        lemma_pow2_strictly_increases(p, s);
    }
    assert(my * (lead + 1) <= den) by (nonlinear_arith)
        requires
            lead + 1 <= w,
            den == my * w,
            my > 0,
    ;
    assert(num < den * 0x100_0000);
    vstd::arithmetic::div_mod::lemma_fundamental_div_mod(num, den);
    vstd::arithmetic::div_mod::lemma_mod_bound(num, den);
    assert(num / den < 0x100_0000) by (nonlinear_arith)
        requires
            num < den * 0x100_0000,
            num == den * (num / den) + num % den,
            num % den >= 0,
            den > 0,
    ;
    if l > 0 {
        assert(s == p);
        lemma_pow2_unfold(p);
        assert(2 * (my * lead) >= den) by (nonlinear_arith)
            requires
                2 * lead >= w,
                den == my * w,
                my > 0,
        ;
        assert(num >= den * 0x80_0000);
        assert(num / den >= 0x80_0000) by (nonlinear_arith)
            requires
                num >= den * 0x80_0000,
                num == den * (num / den) + num % den,
                num % den < den,
                den > 0,
        ;
    }
    // Cross product: both sides carry the same power of two.
    let d = my * pow2(ky);
    let n = (mx * pow2(kx)) * pow2(149);
    assert(d > 0) by (nonlinear_arith)
        requires
            d == my * pow2(ky),
            my > 0,
            pow2(ky) > 0,
    ;
    let a = pow2(kx) as int;
    let b = pow2(149) as int;
    let c = pow2(l) as int;
    let e = pow2(ky) as int;
    lemma_pow2_adds(kx, 149);
    lemma_pow2_adds(kx + 149, s);
    lemma_pow2_adds(l, ky);
    lemma_pow2_adds(l + ky, 64);
    assert(kx + 149 + s == l + ky + 64);
    assert((a * b) * w == (c * e) * 0x1_0000_0000_0000_0000);
    let k = 0x1_0000_0000_0000_0000int;
    assert(n * den == (mx * my) * ((a * b) * w)) by (nonlinear_arith)
        requires
            n == (mx * a) * b,
            den == my * w,
    ;
    assert((c * d) * num == (mx * my) * ((c * e) * k)) by (nonlinear_arith)
        requires
            d == my * e,
            num == mx * k,
    ;
    lemma_round(n, d, l, num, den);
    if s >= 90 {
        if s > 90 {
            lemma_pow2_strictly_increases(90, s);
        }
        lemma_pow2_adds(64, 26);
        assert(2 * num < den) by (nonlinear_arith)
            requires
                num == mx * 0x1_0000_0000_0000_0000,
                mx < 0x100_0000,
                den == my * w,
                my >= 1,
                w >= 0x400_0000 * 0x1_0000_0000_0000_0000,
        ;
        assert(l == 0);
        vstd::arithmetic::div_mod::lemma_small_mod(num as nat, den as nat);
        vstd::arithmetic::div_mod::lemma_basic_div(num, den);
    }
}

/// A count becomes a single between one and `2^64`, zero apart.
pub proof fn lemma_count(n: int)
    requires
        0 <= n <= usize::MAX,
    ensures
        n * pow2(149) < pow2(276),
        is_nearest(Single::of_count(n), n * pow2(149), 1),
        Single::of_count(n).bits <= 0x5F80_0000,
        n >= 1 ==> Single::of_count(n).bits >= ONE_BITS,
{
    lemma2_to64();
    lemma_pow2_adds(64, 149);
    lemma_pow2_pos(149);
    let c = pow2(149) as int;
    assert(0 <= n * c <= 0x1_0000_0000_0000_0000 * c) by (nonlinear_arith)
        requires
            0 <= n <= 0x1_0000_0000_0000_0000,
            c > 0,
    ;
    lemma_pow2_strictly_increases(213, 276);
    lemma_nearest_exists(n * c, 1, 252);
    let top = Single { bits: 0x5F80_0000 };
    assert(top.exponent() == 190 && top.significand() == 0x80_0000) by {
        assert(0x5F80_0000int / 0x80_0000 == 191);
        assert(0x5F80_0000int % 0x80_0000 == 0);
    }
    lemma_pow2_adds(23, 190);
    assert(top.scaled() == pow2(213));
    lemma_nearest_at_most(Single::of_count(n), n * c, 1, top);
    if n >= 1 {
        lemma_one();
        lemma_exact(Single { bits: ONE_BITS }, 1);
        assert(c <= n * c) by (nonlinear_arith)
            requires
                n >= 1,
                c > 0,
        ;
        lemma_nearest_exists(c, 1, 252);
        lemma_nearest_monotone(Single { bits: ONE_BITS }, c, Single::of_count(n), n * c, 1);
    }
}

pub proof fn lemma_whole(m: int, k: nat)
    requires
        0 <= m < 0x100_0000,
    ensures
        k >= 149 ==> m * pow2(k) / (pow2(149) as int) == m * pow2((k - 149) as nat),
        k < 149 ==> m * pow2(k) / (pow2(149) as int) == m / (pow2((149 - k) as nat) as int),
        k <= 120 ==> m / (pow2((149 - k) as nat) as int) == 0,
        pow2((149 - k) as nat) > 0,
{
    lemma_pow2_pos(149);
    lemma_pow2_pos(k);
    let c = pow2(149) as int;
    if k >= 149 {
        let w = pow2((k - 149) as nat) as int;
        lemma_pow2_adds((k - 149) as nat, 149);
        assert(m * (w * c) == (m * w) * c) by (nonlinear_arith);
        vstd::arithmetic::div_mod::lemma_div_multiples_vanish(m * w, c);
        assert((m * w) * c == c * (m * w)) by (nonlinear_arith);
    } else {
        let w = pow2((149 - k) as nat) as int;
        let a = pow2(k) as int;
        lemma_pow2_pos((149 - k) as nat);
        lemma_pow2_adds((149 - k) as nat, k);
        assert(c == w * a);
        assert(m * a == a * m) by (nonlinear_arith);
        assert(w * a == a * w) by (nonlinear_arith);
        vstd::arithmetic::div_mod::lemma_div_denominator(m * a, a, w);
        vstd::arithmetic::div_mod::lemma_div_multiples_vanish(m, a);
        if k <= 120 {
            lemma2_to64();
            if 29 < 149 - k {
                lemma_pow2_strictly_increases(29, (149 - k) as nat);
            }
            vstd::arithmetic::div_mod::lemma_basic_div(m, w);
        }
    }
    lemma_pow2_pos((149 - k) as nat);
}

/// A similarity between zero and one stays there when it is rounded.
pub proof fn lemma_double(bits: u64)
    requires
        bits <= DOUBLE_ONE_BITS,
    ensures
        0 <= double_scaled(bits) <= pow2(1074),
        double_scaled(bits) < pow2(1201),
        is_nearest(Single::of_double(bits), double_scaled(bits), pow2(925) as int),
        Single::of_double(bits).bits <= ONE_BITS,
{
    lemma2_to64();
    lemma_pow2_strictly_increases(1074, 1201);
    lemma_pow2_pos(925);
    if bits < DOUBLE_HIDDEN_BIT {
        lemma_pow2_adds(26, 26);
        lemma_pow2_strictly_increases(52, 1074);
    } else {
        let m = bits as int % DOUBLE_HIDDEN_BIT as int + DOUBLE_HIDDEN_BIT;
        let k = (bits as int / DOUBLE_HIDDEN_BIT as int - 1) as nat;
        lemma_pow2_pos(k);
        lemma_pow2_adds(26, 26);
        lemma_pow2_unfold(53);
        assert(k <= 1022);
        if k == 1022 {
            assert(m == DOUBLE_HIDDEN_BIT);
            lemma_pow2_adds(52, 1022);
        } else {
            lemma_pow2_adds(53, k);
            let a = pow2(k) as int;
            assert(0 <= m * a <= pow2(53) * a) by (nonlinear_arith)
                requires
                    0 <= m <= pow2(53),
                    a > 0,
            ;
            if 53 + k < 1074 {
                lemma_pow2_strictly_increases(53 + k, 1074);
            }
        }
    }
    lemma_pow2_adds(149, 925);
    lemma_one();
    let d = pow2(925) as int;
    lemma_pow2_adds(925, 276);
    assert(double_scaled(bits) < d * pow2(276));
    lemma_nearest_exists(double_scaled(bits), d, 252);
    lemma_nearest_at_most(
        Single::of_double(bits),
        double_scaled(bits),
        d,
        Single { bits: ONE_BITS },
    );
}

/// One in double precision is one in single precision.
pub proof fn lemma_double_one()
    ensures
        Single::of_double(DOUBLE_ONE_BITS) == (Single { bits: ONE_BITS }),
{
    let one = Single { bits: ONE_BITS };
    lemma2_to64();
    lemma_one();
    assert(DOUBLE_ONE_BITS as int / DOUBLE_HIDDEN_BIT as int == 1023);
    lemma_pow2_adds(26, 26);
    lemma_pow2_adds(52, 1022);
    lemma_pow2_adds(149, 925);
    lemma_pow2_pos(925);
    lemma_exact(one, pow2(925) as int);
}

/// What is at most `1 - 2^-23` in double precision is below one in single precision.
pub proof fn lemma_double_below_one(bits: u64)
    requires
        bits <= DOUBLE_BELOW_ONE_BITS,
    ensures
        Single::of_double(bits).bits < ONE_BITS,
{
    let below = Single { bits: 0x3F7F_FFFE };
    let d = pow2(925) as int;
    let u = pow2(1021) as int;
    lemma2_to64();
    lemma_double(bits);
    lemma_pow2_pos(925);
    lemma_pow2_pos(1021);
    assert(below.exponent() == 125);
    assert(below.significand() == 0xFF_FFFE);
    lemma_pow2_adds(125, 925);
    lemma_pow2_adds(29, 1021);
    assert(below.scaled() * d == 0xFF_FFFE * pow2(1050)) by (nonlinear_arith)
        requires
            below.scaled() == 0xFF_FFFE * pow2(125),
            pow2(1050) == pow2(125) * d,
    ;
    assert(double_scaled(bits) <= below.scaled() * d) by {
        if bits < DOUBLE_HIDDEN_BIT {
            lemma_pow2_adds(26, 26);
            lemma_pow2_strictly_increases(52, 1050);
        } else {
            let m = bits as int % DOUBLE_HIDDEN_BIT as int + DOUBLE_HIDDEN_BIT;
            let k = (bits as int / DOUBLE_HIDDEN_BIT as int - 1) as nat;
            let a = pow2(k) as int;
            lemma_pow2_pos(k);
            assert(k <= 1021);
            if k == 1021 {
                assert(m <= 0x1F_FFFF_C000_0000);
                assert(m * u <= 0x1F_FFFF_C000_0000 * u) by (nonlinear_arith)
                    requires
                        m <= 0x1F_FFFF_C000_0000,
                        u > 0,
                ;
            } else {
                lemma_pow2_strictly_increases(k, 1021);
                lemma_pow2_unfold(1021);
                if k < 1020 {
                    lemma_pow2_strictly_increases(k, 1020);
                }
                assert(2 * a <= u);
                assert(m * a <= 0x10_0000_0000_0000 * u) by (nonlinear_arith)
                    requires
                        0 <= m <= 0x20_0000_0000_0000,
                        0 < a,
                        2 * a <= u,
                ;
            }
        }
    }
    lemma_nearest_at_most(Single::of_double(bits), double_scaled(bits), d, below);
}

} // verus!
