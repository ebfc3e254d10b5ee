//! What the integer operations compute.

use vstd::prelude::*;

use crate::ir::BinaryOp;

verus! {

/// The `i32` congruent to `x` modulo 2^32.
pub open spec fn wrap32(x: int) -> i32 {
    let m = x % 0x1_0000_0000;
    if m > 0x7fff_ffff {
        (m - 0x1_0000_0000) as i32
    } else {
        m as i32
    }
}

pub open spec fn magnitude(x: int) -> int {
    if x < 0 {
        -x
    } else {
        x
    }
}

/// Quotient rounded toward zero.
pub open spec fn trunc_div(a: int, b: int) -> int {
    if (a < 0) != (b < 0) {
        -(magnitude(a) / magnitude(b))
    } else {
        magnitude(a) / magnitude(b)
    }
}

/// Remainder with the sign of the dividend.
pub open spec fn trunc_rem(a: int, b: int) -> int {
    if a < 0 {
        -(magnitude(a) % magnitude(b))
    } else {
        magnitude(a) % magnitude(b)
    }
}

pub open spec fn truth(b: bool) -> i32 {
    if b {
        1
    } else {
        0
    }
}

/// Division and remainder by zero have no value.
pub open spec fn defined(op: BinaryOp, b: i32) -> bool {
    !((op is Div || op is Rem) && b == 0)
}

/// The value of `a op b` on 32-bit integers, where it is defined.
///
/// Arithmetic wraps, shifts use the low five bits of their count, `Shr` shifts in zeros.
pub open spec fn int_op(op: BinaryOp, a: i32, b: i32) -> i32 {
    match op {
        BinaryOp::NotEq => truth(a != b),
        BinaryOp::Eq => truth(a == b),
        BinaryOp::Gt => truth(a > b),
        BinaryOp::Lt => truth(a < b),
        BinaryOp::Ge => truth(a >= b),
        BinaryOp::Le => truth(a <= b),
        BinaryOp::Add => wrap32(a + b),
        BinaryOp::Sub => wrap32(a - b),
        BinaryOp::Mul => wrap32(a * b),
        BinaryOp::Div => wrap32(trunc_div(a as int, b as int)),
        BinaryOp::Rem => wrap32(trunc_rem(a as int, b as int)),
        BinaryOp::And => a & b,
        BinaryOp::Or => a | b,
        BinaryOp::Xor => a ^ b,
        BinaryOp::Shl => a << ((b as u32) % 32),
        BinaryOp::Shr => ((a as u32) >> ((b as u32) % 32)) as i32,
        BinaryOp::Sar => a >> ((b as u32) % 32),
        BinaryOp::Min => if a <= b {
            a
        } else {
            b
        },
        BinaryOp::Max => if a >= b {
            a
        } else {
            b
        },
    }
}

fn truth_value(b: bool) -> (r: i32)
    ensures
        r == truth(b),
{
    if b {
        1
    } else {
        0
    }
}

proof fn lemma_div_facts(n: int, d: int)
    requires
        n >= 0,
        d > 0,
    ensures
        0 <= n / d <= n,
        0 <= n % d <= n,
        n % d < d,
        n > 0 && d > 1 ==> n / d < n,
{
    assert(0 <= n / d <= n && 0 <= n % d <= n && n % d < d) by (nonlinear_arith)
        requires
            n >= 0,
            d > 0,
    ;
    if n > 0 && d > 1 {
        assert(n / d < n) by (nonlinear_arith)
            requires
                n > 0,
                d > 1,
        ;
    }
}

fn fold_div(lhs: i32, rhs: i32) -> (r: i32)
    requires
        rhs != 0,
    ensures
        r == wrap32(trunc_div(lhs as int, rhs as int)),
{
    proof {
        lemma_div_facts(magnitude(lhs as int), magnitude(rhs as int));
        if magnitude(rhs as int) == 1 {
            assert(magnitude(lhs as int) / 1 == magnitude(lhs as int));
        }
    }
    match lhs.checked_div(rhs) {
        Some(q) => q,
        None => lhs,
    }
}

fn fold_rem(lhs: i32, rhs: i32) -> (r: i32)
    requires
        rhs != 0,
    ensures
        r == wrap32(trunc_rem(lhs as int, rhs as int)),
{
    proof {
        lemma_div_facts(magnitude(lhs as int), magnitude(rhs as int));
        if magnitude(rhs as int) == 1 {
            assert(magnitude(lhs as int) % 1 == 0);
        }
    }
    match lhs.checked_rem(rhs) {
        Some(q) => q,
        None => 0,
    }
}

/// Folds `lhs op rhs`.
pub fn fold_int(op: BinaryOp, lhs: i32, rhs: i32) -> (r: i32)
    requires
        defined(op, rhs),
    ensures
        r == int_op(op, lhs, rhs),
{
    match op {
        BinaryOp::NotEq => truth_value(lhs != rhs),
        BinaryOp::Eq => truth_value(lhs == rhs),
        BinaryOp::Gt => truth_value(lhs > rhs),
        BinaryOp::Lt => truth_value(lhs < rhs),
        BinaryOp::Ge => truth_value(lhs >= rhs),
        BinaryOp::Le => truth_value(lhs <= rhs),
        BinaryOp::Add => lhs.wrapping_add(rhs),
        BinaryOp::Sub => lhs.wrapping_sub(rhs),
        BinaryOp::Mul => lhs.wrapping_mul(rhs),
        BinaryOp::Div => fold_div(lhs, rhs),
        BinaryOp::Rem => fold_rem(lhs, rhs),
        BinaryOp::And => lhs & rhs,
        BinaryOp::Or => lhs | rhs,
        BinaryOp::Xor => lhs ^ rhs,
        BinaryOp::Shl => lhs.wrapping_shl(rhs as u32),
        BinaryOp::Shr => (lhs as u32).wrapping_shr(rhs as u32) as i32,
        BinaryOp::Sar => lhs.wrapping_shr(rhs as u32),
        BinaryOp::Min => if lhs <= rhs {
            lhs
        } else {
            rhs
        },
        BinaryOp::Max => if lhs >= rhs {
            lhs
        } else {
            rhs
        },
    }
}

/// The complement of a comparison holds exactly where the comparison does not.
pub proof fn complement_negates(op: BinaryOp, a: i32, b: i32)
    requires
        op.complement() is Some,
    ensures
        int_op(op.complement()->0, a, b) == 1 - int_op(op, a, b),
{
}

/// A mirrored comparison means the same on exchanged operands.
pub proof fn mirrored_exchanges(op: BinaryOp, a: i32, b: i32)
    requires
        op.mirrored() is Some,
    ensures
        int_op(op.mirrored()->0, b, a) == int_op(op, a, b),
{
}

/// A commutative operation does not depend on the order of its operands.
pub proof fn commutes_exchanges(op: BinaryOp, a: i32, b: i32)
    requires
        op.commutes(),
    ensures
        int_op(op, b, a) == int_op(op, a, b),
{
    assert(a & b == b & a) by (bit_vector);
    assert(a | b == b | a) by (bit_vector);
    assert(a ^ b == b ^ a) by (bit_vector);
    assert(a * b == b * a) by (nonlinear_arith);
}

/// A remainder is not negative where the dividend is not; a quotient is not negative where neither
/// operand is.
pub proof fn division_keeps_sign(a: i32, b: i32)
    requires
        b != 0,
        a >= 0,
    ensures
        int_op(BinaryOp::Rem, a, b) >= 0,
        b >= 0 ==> int_op(BinaryOp::Div, a, b) >= 0,
{
    lemma_div_facts(a as int, magnitude(b as int));
}

/// Sums, differences and products are right but for a multiple of 2^32.
pub proof fn sums_and_products_wrap(a: i32, b: i32)
    ensures
        (int_op(BinaryOp::Add, a, b) - (a + b)) % 0x1_0000_0000 == 0,
        (int_op(BinaryOp::Sub, a, b) - (a - b)) % 0x1_0000_0000 == 0,
        (int_op(BinaryOp::Mul, a, b) - (a * b)) % 0x1_0000_0000 == 0,
{
}

/// Quotients are rounded toward zero: quotient and remainder give the dividend back, and the remainder is smaller than
/// the divisor and has the sign of the dividend. The one quotient that is too large for a word wraps.
pub proof fn division_rounds_toward_zero(a: i32, b: i32)
    requires
        b != 0,
    ensures
        ({
            let q = int_op(BinaryOp::Div, a, b) as int;
            let r = int_op(BinaryOp::Rem, a, b) as int;
            if a == i32::MIN && b == -1 {
                q == i32::MIN && r == 0
            } else {
                &&& q * b + r == a
                &&& -magnitude(b as int) < r < magnitude(b as int)
                &&& a >= 0 ==> r >= 0
                &&& a <= 0 ==> r <= 0
            }
        }),
{
    let (n, d) = (magnitude(a as int), magnitude(b as int));
    lemma_div_facts(n, d);
    assert(n / d * d + n % d == n) by (nonlinear_arith)
        requires
            d > 0,
    ;
    let x = n / d;
    assert((-x) * d == -(x * d) && x * (-d) == -(x * d) && (-x) * (-d) == x * d) by (nonlinear_arith);
    if d == 1 {
        assert(x == n);
    }
}

/// Comparisons give one where they hold and zero where they do not.
pub proof fn comparisons_compare(a: i32, b: i32)
    ensures
        int_op(BinaryOp::Eq, a, b) == if a == b { 1int } else { 0 },
        int_op(BinaryOp::NotEq, a, b) == if a == b { 0int } else { 1 },
        int_op(BinaryOp::Lt, a, b) == if a < b { 1int } else { 0 },
        int_op(BinaryOp::Gt, a, b) == if b < a { 1int } else { 0 },
        int_op(BinaryOp::Le, a, b) == if b < a { 0int } else { 1 },
        int_op(BinaryOp::Ge, a, b) == if a < b { 0int } else { 1 },
{
}

/// The smaller and the larger of two words is one of them, with the other on the right side of it.
pub proof fn extremes_are_operands(a: i32, b: i32)
    ensures
        int_op(BinaryOp::Min, a, b) <= a,
        int_op(BinaryOp::Min, a, b) <= b,
        int_op(BinaryOp::Max, a, b) >= a,
        int_op(BinaryOp::Max, a, b) >= b,
        int_op(BinaryOp::Min, a, b) + int_op(BinaryOp::Max, a, b) == a + b,
{
}

/// Bit `k` of `x` is set.
pub open spec fn has_bit(x: i32, k: u32) -> bool {
    (x >> k) & 1 == 1
}

/// The bitwise operations go bit by bit.
pub proof fn bits_go_one_by_one(a: i32, b: i32, k: u32)
    requires
        k < 32,
    ensures
        has_bit(int_op(BinaryOp::And, a, b), k) == (has_bit(a, k) && has_bit(b, k)),
        has_bit(int_op(BinaryOp::Or, a, b), k) == (has_bit(a, k) || has_bit(b, k)),
        has_bit(int_op(BinaryOp::Xor, a, b), k) == (has_bit(a, k) != has_bit(b, k)),
{
    assert((((a & b) >> k) & 1 == 1) == ((a >> k) & 1 == 1 && (b >> k) & 1 == 1)) by (bit_vector);
    assert((((a | b) >> k) & 1 == 1) == ((a >> k) & 1 == 1 || (b >> k) & 1 == 1)) by (bit_vector);
    assert((((a ^ b) >> k) & 1 == 1) == (((a >> k) & 1 == 1) != ((b >> k) & 1 == 1))) by (bit_vector);
}

/// A word as a number that is not negative.
pub open spec fn unsigned(x: i32) -> int {
    if x < 0 {
        x + 0x1_0000_0000
    } else {
        x as int
    }
}

/// Shifts go bit by bit: a shift by nothing leaves a word, and each further place doubles it, or halves it and rounds
/// down, as a signed or as an unsigned number.
pub proof fn shifts_double_and_halve(a: i32, n: i32)
    requires
        0 <= n < 31,
    ensures
        int_op(BinaryOp::Shl, a, 0) == a,
        int_op(BinaryOp::Shr, a, 0) == a,
        int_op(BinaryOp::Sar, a, 0) == a,
        (int_op(BinaryOp::Shl, a, (n + 1) as i32) - 2 * int_op(BinaryOp::Shl, a, n)) % 0x1_0000_0000 == 0,
        int_op(BinaryOp::Sar, a, (n + 1) as i32) == int_op(BinaryOp::Sar, a, n) as int / 2,
        unsigned(int_op(BinaryOp::Shr, a, (n + 1) as i32)) == unsigned(int_op(BinaryOp::Shr, a, n)) / 2,
{
    let m = (n + 1) as i32;
    let (x, y) = (n as u32, m as u32);
    assert(x < 31 && y == x + 1 && (n as u32) % 32 == x && (m as u32) % 32 == y && 0u32 % 32 == 0);
    assert(a << 0u32 == a && ((a as u32) >> 0u32) as i32 == a && a >> 0u32 == a) by (bit_vector);
    let l = a << x;
    let d = a << y;
    assert(d - 2 * l == 0 || d - 2 * l == 0x1_0000_0000 || d - 2 * l == -0x1_0000_0000) by (bit_vector)
        requires
            x < 31,
            y == x + 1,
            l == a << x,
            d == a << y,
    ;
    let s = a >> x;
    let h = a >> y;
    assert(s - 2 * h == 0 || s - 2 * h == 1) by (bit_vector)
        requires
            x < 31,
            y == x + 1,
            s == a >> x,
            h == a >> y,
    ;
    let u = ((a as u32) >> x) as i32;
    let v = ((a as u32) >> y) as i32;
    assert(v >= 0 && (if u < 0 { u + 0x1_0000_0000 } else { u as int }) - 2 * v <= 1 && (if u < 0 {
        u + 0x1_0000_0000
    } else {
        u as int
    }) - 2 * v >= 0) by (bit_vector)
        requires
            x < 31,
            y == x + 1,
            u == ((a as u32) >> x) as i32,
            v == ((a as u32) >> y) as i32,
    ;
}

/// Only what a count leaves when divided by thirty-two counts.
pub proof fn counts_are_taken_by_their_low_bits(a: i32, b: i32, n: i32)
    requires
        (b - n) % 32 == 0,
    ensures
        int_op(BinaryOp::Shl, a, b) == int_op(BinaryOp::Shl, a, n),
        int_op(BinaryOp::Shr, a, b) == int_op(BinaryOp::Shr, a, n),
        int_op(BinaryOp::Sar, a, b) == int_op(BinaryOp::Sar, a, n),
{
    assert(forall|x: i32| x < 0 ==> #[trigger] (x as u32) == x + 0x1_0000_0000) by (bit_vector);
    assert((b as u32) % 32 == (n as u32) % 32);
}

} // verus!
