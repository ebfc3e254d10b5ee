//! The number that a single-precision literal stands for, and the integer that a cast of it gives.
//!
//! A literal is its bits: a sign, eight bits of exponent and twenty-three of fraction. What it stands for is
//! said here by these parts alone.

use vstd::arithmetic::power2::{lemma2_to64, lemma_pow2_adds, lemma_pow2_pos, lemma_pow2_strictly_increases, pow2};
use vstd::prelude::*;

use crate::const_prop::saturated;
use crate::induction::is_word;
use crate::ipsccp::truncated;

verus! {

/// The literal has a minus sign.
pub open spec fn is_negative(bits: u32) -> bool {
    bits >= 0x8000_0000
}

pub open spec fn exponent(bits: u32) -> int {
    (bits as int / 0x80_0000) % 256
}

pub open spec fn fraction(bits: u32) -> int {
    bits as int % 0x80_0000
}

/// The literal stands for a number, which is neither an infinity nor no number at all.
pub open spec fn is_finite(bits: u32) -> bool {
    exponent(bits) != 255
}

/// The mantissa: the fraction, and a leading bit where the exponent is not zero.
pub open spec fn mantissa(bits: u32) -> int {
    if exponent(bits) == 0 {
        fraction(bits)
    } else {
        0x80_0000 + fraction(bits)
    }
}

/// The power of two that the mantissa is multiplied by, and 150.
pub open spec fn scale(bits: u32) -> int {
    if exponent(bits) == 0 {
        1
    } else {
        exponent(bits)
    }
}

/// `k` is the largest integer that is not above `m * 2^(e - 150)`.
pub open spec fn is_whole_part(m: int, e: int, k: int) -> bool {
    if e >= 150 {
        k == m * pow2((e - 150) as nat)
    } else {
        k * pow2((150 - e) as nat) <= m < (k + 1) * pow2((150 - e) as nat)
    }
}

/// The literal stands for a number that rounds to `k` toward zero: the size of `k` is the whole part of the size
/// of the number, and its sign is that of the literal.
pub open spec fn rounds_to(bits: u32, k: int) -> bool {
    is_finite(bits) && is_whole_part(
        mantissa(bits),
        scale(bits),
        if is_negative(bits) {
            -k
        } else {
            k
        },
    )
}

/// The word nearest to `k`.
pub open spec fn nearest_word(k: int) -> i32 {
    if k < i32::MIN {
        i32::MIN
    } else if k > i32::MAX {
        i32::MAX
    } else {
        k as i32
    }
}

/// A cast of the literal to a word gives `v`: the number rounded toward zero, or the nearest word where that does
/// not fit; an infinity gives the bound on its side, and what is no number gives zero.
pub open spec fn casts_to(bits: u32, v: i32) -> bool {
    if is_finite(bits) {
        exists|k: int| #[trigger] rounds_to(bits, k) && v == nearest_word(k)
    } else if fraction(bits) != 0 {
        v == 0
    } else if is_negative(bits) {
        v == i32::MIN
    } else {
        v == i32::MAX
    }
}

proof fn lemma_parts(bits: u32)
    ensures
        ((bits >> 23) & 0xff) as int == exponent(bits),
        (bits & 0x7f_ffff) as int == fraction(bits),
        ((bits & 0x7f_ffff) | 0x80_0000) as int == 0x80_0000 + fraction(bits),
        (bits >> 31 == 1) == is_negative(bits),
        ((bits & 0x7fff_ffff) > 0x7f80_0000) == (!is_finite(bits) && fraction(bits) != 0),
        bits == 0xcf00_0000 <==> is_negative(bits) && exponent(bits) == 158 && fraction(bits) == 0,
{
    assert((bits >> 23) & 0xff == (bits / 0x80_0000) % 256) by (bit_vector);
    assert(bits & 0x7f_ffff == bits % 0x80_0000) by (bit_vector);
    assert((bits & 0x7f_ffff) | 0x80_0000 == 0x80_0000 + bits % 0x80_0000) by (bit_vector);
    assert((bits >> 31 == 1) == (bits >= 0x8000_0000)) by (bit_vector);
    assert(((bits & 0x7fff_ffff) > 0x7f80_0000) == ((bits / 0x80_0000) % 256 == 255 && bits % 0x80_0000 != 0))
        by (bit_vector);
    assert((bits == 0xcf00_0000) == (bits >= 0x8000_0000 && (bits / 0x80_0000) % 256 == 158 && bits % 0x80_0000 == 0))
        by (bit_vector);
}

/// A number has one whole part, and it is not negative.
proof fn lemma_one_whole_part(m: int, e: int, k: int, n: int)
    requires
        m >= 0,
        is_whole_part(m, e, k),
        is_whole_part(m, e, n),
    ensures
        k == n,
        k >= 0,
{
    if e >= 150 {
        let d = pow2((e - 150) as nat) as int;
        assert(m * d >= 0) by (nonlinear_arith)
            requires
                m >= 0,
                d >= 0,
        ;
    } else {
        lemma_pow2_pos((150 - e) as nat);
        let d = pow2((150 - e) as nat) as int;
        assert(k == n && k >= 0) by (nonlinear_arith)
            requires
                d > 0,
                m >= 0,
                k * d <= m,
                m < (k + 1) * d,
                n * d <= m,
                m < (n + 1) * d,
        ;
    }
}

/// The whole part of a mantissa shifted by `s` and back by 23.
proof fn lemma_shifted(m: u64, s: u64)
    requires
        m < 0x100_0000,
        s <= 30,
    ensures
        is_whole_part(m as int, s + 127, ((m << s) >> 23) as int),
        ((m << s) >> 23) <= 0x7fff_ffff,
{
    let shifted = m << s;
    let q = (shifted >> 23) as int;
    assert(m << s >> 23 <= 0x7fff_ffff) by (bit_vector)
        requires
            m < 0x100_0000,
            s <= 30,
    ;
    lemma2_to64();
    lemma_pow2_pos(s as nat);
    if s < 30 {
        lemma_pow2_strictly_increases(s as nat, 30);
    }
    let d = pow2(s as nat) as int;
    assert(m * d <= 0x100_0000 * 0x4000_0000) by (nonlinear_arith)
        requires
            0 <= m < 0x100_0000,
            0 < d <= 0x4000_0000,
    ;
    vstd::bits::lemma_u64_shl_is_mul(m, s);
    vstd::bits::lemma_u64_shr_is_div(shifted, 23);
    assert(shifted as int == m * d);
    assert(q == (m * d) / 0x80_0000);
    assert(q * 0x80_0000 <= m * d < (q + 1) * 0x80_0000);
    if s >= 23 {
        lemma_pow2_adds(23, (s - 23) as nat);
        let h = pow2((s - 23) as nat) as int;
        assert(d == 0x80_0000 * h);
        assert(q == m * h) by (nonlinear_arith)
            requires
                d == 0x80_0000 * h,
                q == (m * d) / 0x80_0000,
        ;
        assert(s + 127 - 150 == s - 23);
    } else {
        lemma_pow2_adds(s as nat, (23 - s) as nat);
        let h = pow2((23 - s) as nat) as int;
        assert(d * h == 0x80_0000);
        assert(q * h <= m < (q + 1) * h) by (nonlinear_arith)
            requires
                d > 0,
                d * h == 0x80_0000,
                q * 0x80_0000 <= m * d,
                m * d < (q + 1) * 0x80_0000,
        ;
        assert(150 - (s + 127) == 23 - s);
    }
}

/// The fold finds the number rounded toward zero where that is a word, and says so where it is not.
pub proof fn literals_round_toward_zero(bits: u32, k: int)
    requires
        rounds_to(bits, k),
    ensures
        truncated(bits) == (if is_word(k) {
            Some(k as i32)
        } else {
            None
        }),
        saturated(bits) == nearest_word(k),
        is_negative(bits) ==> k <= 0,
        !is_negative(bits) ==> k >= 0,
{
    lemma_parts(bits);
    let m = mantissa(bits);
    let e = scale(bits);
    let n = if is_negative(bits) {
        -k
    } else {
        k
    };
    lemma_one_whole_part(m, e, n, n);
    lemma2_to64();
    if exponent(bits) < 127 {
        if 150 - e > 24 {
            lemma_pow2_strictly_increases(24, (150 - e) as nat);
        }
        lemma_one_whole_part(m, e, n, 0);
    } else if exponent(bits) < 158 {
        let x = ((bits & 0x7f_ffff) | 0x80_0000) as u64;
        let s = (exponent(bits) - 127) as u64;
        assert(x as int == m);
        assert((((bits >> 23) & 0xff) - 127) as u64 == s);
        lemma_shifted(x, s);
        lemma_one_whole_part(m, e, n, ((x << s) >> 23) as int);
    } else {
        let d = pow2((e - 150) as nat) as int;
        if e > 158 {
            lemma_pow2_strictly_increases(8, (e - 150) as nat);
        }
        assert(m * d >= 0x8000_0000) by (nonlinear_arith)
            requires
                m >= 0x80_0000,
                d >= 256,
        ;
        assert(e > 158 || m > 0x80_0000 ==> m * d > 0x8000_0000) by (nonlinear_arith)
            requires
                m >= 0x80_0000,
                d >= 256,
                e > 158 ==> d > 256,
        ;
        if e == 158 && m == 0x80_0000 {
            assert(m * d == 0x8000_0000) by (nonlinear_arith)
                requires
                    m == 0x80_0000,
                    d == 256,
            ;
        }
    }
}

/// Every finite literal rounds to an integer.
pub proof fn finite_literals_round(bits: u32) -> (k: int)
    requires
        is_finite(bits),
    ensures
        rounds_to(bits, k),
{
    let m = mantissa(bits);
    let e = scale(bits);
    let n = if e >= 150 {
        m * pow2((e - 150) as nat)
    } else {
        m / (pow2((150 - e) as nat) as int)
    };
    if e < 150 {
        lemma_pow2_pos((150 - e) as nat);
        vstd::arithmetic::div_mod::lemma_fundamental_div_mod(m, pow2((150 - e) as nat) as int);
        vstd::arithmetic::div_mod::lemma_mod_bound(m, pow2((150 - e) as nat) as int);
        let d = pow2((150 - e) as nat) as int;
        assert(n * d <= m < (n + 1) * d) by (nonlinear_arith)
            requires
                m == d * n + m % d,
                0 <= m % d < d,
        ;
    }
    if is_negative(bits) {
        -n
    } else {
        n
    }
}

/// What is not finite is no word: the fold leaves it, and where it saturates an infinity gives the bound on its
/// side and what is no number gives zero.
pub proof fn what_is_not_finite_is_no_word(bits: u32)
    requires
        !is_finite(bits),
    ensures
        truncated(bits) is None,
        casts_to(bits, saturated(bits)),
{
    lemma_parts(bits);
}

/// The saturating fold gives what the cast gives, and a cast gives one value.
pub proof fn folds_are_casts(bits: u32, v: i32)
    ensures
        casts_to(bits, v) <==> v == saturated(bits),
{
    if is_finite(bits) {
        let k = finite_literals_round(bits);
        literals_round_toward_zero(bits, k);
        assert forall|n: int| #[trigger] rounds_to(bits, n) implies nearest_word(n) == saturated(bits) by {
            literals_round_toward_zero(bits, n);
        }
    } else {
        what_is_not_finite_is_no_word(bits);
    }
}

} // verus!
