//! Numbers in decimal notation.
use vstd::arithmetic::power2::*;
use vstd::prelude::*;

use crate::rounding::{lemma_scaled_bound, power_of_two};
use crate::single::{Single, INFINITY_BITS, SIGN_BIT};

verus! {

/// The character of a decimal digit.
pub open spec fn digit(d: int) -> char {
    if d == 0 {
        '0'
    } else if d == 1 {
        '1'
    } else if d == 2 {
        '2'
    } else if d == 3 {
        '3'
    } else if d == 4 {
        '4'
    } else if d == 5 {
        '5'
    } else if d == 6 {
        '6'
    } else if d == 7 {
        '7'
    } else if d == 8 {
        '8'
    } else {
        '9'
    }
}

/// A number in decimal notation, without leading zeros.
pub open spec fn decimal(n: int) -> Seq<char>
    decreases n,
{
    if n < 10 {
        seq![digit(n)]
    } else {
        decimal(n / 10).push(digit(n % 10))
    }
}

/// The whole number nearest to `n / d`, and of two equally near ones the even one.
pub open spec fn half_even(n: int, d: int) -> int {
    if 2 * (n % d) > d || (2 * (n % d) == d && (n / d) % 2 == 1) {
        n / d + 1
    } else {
        n / d
    }
}

/// How many hundredths the magnitude of a finite number has, rounded.
pub open spec fn hundredths(s: Single) -> int {
    half_even(s.magnitude().scaled() * 100, pow2(149) as int)
}

/// A number with two decimals.
pub open spec fn two_decimals(s: Single) -> Seq<char> {
    let sign = if s.bits >= SIGN_BIT {
        seq!['-']
    } else {
        seq![]
    };
    if !s.is_number() {
        seq!['N', 'a', 'N']
    } else if !s.is_finite() {
        sign + seq!['i', 'n', 'f']
    } else {
        let h = hundredths(s);
        sign + decimal(h / 100) + seq!['.', digit(h / 10 % 10), digit(h % 10)]
    }
}

fn digit_char(d: u8) -> (c: char)
    requires
        d < 10,
    ensures
        c == digit(d as int),
{
    match d {
        0 => '0',
        1 => '1',
        2 => '2',
        3 => '3',
        4 => '4',
        5 => '5',
        6 => '6',
        7 => '7',
        8 => '8',
        _ => '9',
    }
}

/// Writes a number in decimal notation behind a text.
pub fn push_decimal(text: &mut String, n: u128)
    ensures
        final(text)@ == old(text)@ + decimal(n as int),
    decreases n,
{
    if n >= 10 {
        push_decimal(text, n / 10);
    }
    text.push(digit_char((n % 10) as u8));
}

/// Writes a number in decimal notation.
pub fn decimal_text(n: usize) -> (text: String)
    ensures
        text@ == decimal(n as int),
{
    let mut text = String::new();
    push_decimal(&mut text, n as u128);
    text
}

impl Single {
    /// Writes a number with two decimals.
    pub fn format(self) -> (text: String)
        ensures
            text@ == two_decimals(self),
    {
        let magnitude = self.abs();
        let mut text = String::new();
        if magnitude.bits > INFINITY_BITS {
            text.push('N');
            text.push('a');
            text.push('N');
            return text;
        }
        if self.bits >= SIGN_BIT {
            text.push('-');
        }
        if magnitude.bits == INFINITY_BITS {
            text.push('i');
            text.push('n');
            text.push('f');
            return text;
        }
        let (whole, cents) = magnitude.in_hundredths();
        let ghost sign = text@;
        push_decimal(&mut text, whole);
        text.push('.');
        text.push(digit_char(cents / 10));
        text.push(digit_char(cents % 10));
        proof {
            let h = hundredths(self);
            assert(h == whole * 100 + cents);
            assert(h / 100 == whole && h / 10 % 10 == cents / 10 && h % 10 == cents % 10);
            assert(text@ == sign + decimal(h / 100) + seq![
                '.',
                digit(h / 10 % 10),
                digit(h % 10),
            ]);
            assert(sign == if self.bits >= SIGN_BIT {
                seq!['-']
            } else {
                seq![]
            });
        }
        text
    }

    /// The whole part of the rounded hundredths, and what is left of them.
    fn in_hundredths(self) -> (r: (u128, u8))
        requires
            self.nonneg(),
        ensures
            r.1 < 100,
            r.0 * 100 + r.1 == hundredths(self),
    {
        let (m, k) = self.parts();
        proof {
            lemma_scaled_bound(self);
            lemma2_to64();
            lemma_pow2_pos(149);
        }
        if k >= 149 {
            let w: u128 = power_of_two(k - 149);
            proof {
                lemma_whole_hundredths(m as int, k as nat);
                lemma_shifted_fits(m as int, (k - 149) as nat);
            }
            (m as u128 * w, 0)
        } else if k <= 116 {
            proof {
                lemma_tiny_hundredths(m as int, k as nat);
            }
            (0, 0)
        } else {
            let w: u128 = power_of_two(149 - k);
            let n: u128 = m as u128 * 100;
            proof {
                lemma_some_hundredths(m as int, k as nat);
                lemma_pow2_pos((149 - k) as nat);
                if 149 - k < 32 {
                    lemma_pow2_strictly_increases((149 - k) as nat, 32);
                }
            }
            let q: u128 = n / w;
            let r: u128 = n % w;
            let h: u128 = if 2 * r > w || (2 * r == w && q % 2 == 1) {
                q + 1
            } else {
                q
            };
            (h / 100, (h % 100) as u8)
        }
    }
}

/// Numbers from `2^24` on are whole.
proof fn lemma_whole_hundredths(m: int, k: nat)
    requires
        m >= 0,
        k >= 149,
    ensures
        half_even(m * pow2(k) * 100, pow2(149) as int) == m * pow2((k - 149) as nat) * 100,
{
    let d = pow2(149) as int;
    let w = pow2((k - 149) as nat) as int;
    lemma_pow2_adds(149, (k - 149) as nat);
    lemma_pow2_pos(149);
    let q = m * w * 100;
    assert(m * pow2(k) * 100 == q * d) by (nonlinear_arith)
        requires
            pow2(k) == d * w,
            q == m * w * 100,
    ;
    vstd::arithmetic::div_mod::lemma_fundamental_div_mod_converse(q * d, d, q, 0);
}

proof fn lemma_shifted_fits(m: int, e: nat)
    requires
        0 <= m < 0x100_0000,
        e <= 104,
    ensures
        m * pow2(e) <= u128::MAX,
        m * pow2(e) >= 0,
{
    lemma_pow2_adds(24, 104);
    lemma2_to64();
    lemma_pow2_adds(64, 64);
    lemma_pow2_pos(e);
    if e < 104 {
        lemma_pow2_strictly_increases(e, 104);
    }
    assert(m * pow2(e) <= 0xFF_FFFF * pow2(104)) by (nonlinear_arith)
        requires
            0 <= m <= 0xFF_FFFF,
            0 <= pow2(e) <= pow2(104),
    ;
    assert(m * pow2(e) >= 0) by (nonlinear_arith)
        requires
            0 <= m,
            0 <= pow2(e),
    ;
}

/// Numbers below `2^-9` have no hundredths.
proof fn lemma_tiny_hundredths(m: int, k: nat)
    requires
        0 <= m < 0x100_0000,
        k <= 116,
    ensures
        half_even(m * pow2(k) * 100, pow2(149) as int) == 0,
{
    let d = pow2(149) as int;
    let a = pow2(k) as int;
    let w = pow2((149 - k) as nat) as int;
    lemma_pow2_adds(k, (149 - k) as nat);
    lemma_pow2_pos(k);
    lemma2_to64();
    lemma_pow2_unfold(33);
    if 149 - k > 33 {
        lemma_pow2_strictly_increases(33, (149 - k) as nat);
    }
    assert(0 <= 2 * (m * a * 100) < d) by (nonlinear_arith)
        requires
            d == a * w,
            w >= 0x2_0000_0000,
            a > 0,
            0 <= m < 0x100_0000,
    ;
    vstd::arithmetic::div_mod::lemma_fundamental_div_mod_converse(m * a * 100, d, 0, m * a * 100);
}

/// The hundredths of the numbers in between, computed with a smaller divisor.
proof fn lemma_some_hundredths(m: int, k: nat)
    requires
        0 <= m,
        k < 149,
    ensures
        half_even(m * pow2(k) * 100, pow2(149) as int) == half_even(
            m * 100,
            pow2((149 - k) as nat) as int,
        ),
{
    let d = pow2(149) as int;
    let a = pow2(k) as int;
    let w = pow2((149 - k) as nat) as int;
    lemma_pow2_adds(k, (149 - k) as nat);
    lemma_pow2_pos(k);
    lemma_pow2_pos((149 - k) as nat);
    let n = m * 100;
    let q = n / w;
    let r = n % w;
    vstd::arithmetic::div_mod::lemma_fundamental_div_mod(n, w);
    vstd::arithmetic::div_mod::lemma_mod_bound(n, w);
    assert(m * a * 100 == q * d + a * r) by (nonlinear_arith)
        requires
            n == m * 100,
            n == w * q + r,
            d == a * w,
    ;
    assert(0 <= a * r < d) by (nonlinear_arith)
        requires
            0 <= r < w,
            d == a * w,
            a > 0,
    ;
    vstd::arithmetic::div_mod::lemma_fundamental_div_mod_converse(m * a * 100, d, q, a * r);
    assert(2 * (a * r) > d <==> 2 * r > w) by (nonlinear_arith)
        requires
            d == a * w,
            a > 0,
    ;
    assert(2 * (a * r) == d <==> 2 * r == w) by (nonlinear_arith)
        requires
            d == a * w,
            a > 0,
    ;
}

/// There are no negative hundredths.
pub proof fn lemma_hundredths(s: Single)
    requires
        s.is_finite(),
    ensures
        hundredths(s) >= 0,
{
    let n = s.magnitude().scaled() * 100;
    let d = pow2(149) as int;
    lemma_scaled_bound(s.magnitude());
    lemma_pow2_pos(149);
    vstd::arithmetic::div_mod::lemma_div_pos_is_pos(n, d);
}

/// Numbers are written digit by digit: one below ten is its digit, and any other one is what is
/// left of it without its last digit, and then that digit.
pub proof fn law_numbers_are_written_digit_by_digit(n: int, d: int)
    requires
        n >= 0,
        0 <= d < 10,
    ensures
        decimal(d).len() == 1,
        decimal(d)[0] as int == '0' as int + d,
        n > 0 ==> decimal(10 * n + d) == decimal(n) + decimal(d),
{
    if n > 0 {
        assert((10 * n + d) / 10 == n);
        assert((10 * n + d) % 10 == d);
        assert(decimal(10 * n + d) == decimal(n) + decimal(d));
    }
}

/// A number is written with the two decimals that are nearest to it: what is written stands for a
/// number of hundredths that is at most half a hundredth away.
pub proof fn law_two_decimals_are_the_nearest(s: Single)
    requires
        s.bits < 0x7F80_0000,
    ensures
        exists|whole: int, tens: int, ones: int|
            {
                let h = 100 * whole + 10 * tens + ones;
                &&& whole >= 0
                &&& 0 <= tens < 10
                &&& 0 <= ones < 10
                &&& -pow2(149) <= 2 * (100 * s.scaled() - h * pow2(149)) <= pow2(149)
                &&& two_decimals(s) == #[trigger] decimal(whole) + seq!['.'] + #[trigger] decimal(
                    tens,
                ) + #[trigger] decimal(ones)
            },
{
    let h = hundredths(s);
    let whole = h / 100;
    let tens = h / 10 % 10;
    let ones = h % 10;
    let n = s.scaled() * 100;
    let d = pow2(149) as int;
    lemma_hundredths(s);
    lemma_pow2_pos(149);
    lemma_scaled_bound(s);
    vstd::arithmetic::div_mod::lemma_fundamental_div_mod(n, d);
    vstd::arithmetic::div_mod::lemma_mod_bound(n, d);
    let q = n / d;
    assert((q + 1) * d == q * d + d) by (nonlinear_arith);
    assert(d * q == q * d) by (nonlinear_arith);
    assert(h * d == q * d || h * d == q * d + d);
    assert(h == 100 * whole + 10 * tens + ones);
    assert(two_decimals(s) == decimal(whole) + seq!['.'] + decimal(tens) + decimal(ones));
}

} // verus!
