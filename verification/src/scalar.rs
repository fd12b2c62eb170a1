//! Single-precision numbers by their bit patterns.
//!
//! Nothing here computes with such numbers. A number is taken as the 32 bits
//! of its IEEE 754 binary32 encoding: one sign bit, eight exponent bits and
//! twenty-three fraction bits. That is enough to tell which of two numbers is
//! the smaller, and that is all the rest of the library asks of a number.
use vstd::arithmetic::div_mod::lemma_fundamental_div_mod;
use vstd::arithmetic::power2::lemma_pow2_pos;
use vstd::arithmetic::power2::lemma_pow2_strictly_increases;
use vstd::arithmetic::power2::lemma_pow2_unfold;
use vstd::arithmetic::power2::pow2;
use vstd::prelude::*;

verus! {

/// Whether the sign bit is set.
pub open spec fn is_negative(bits: u32) -> bool {
    bits >= 0x8000_0000
}

/// The exponent and fraction bits: the encoding without its sign.
pub open spec fn magnitude_bits(bits: u32) -> nat {
    (bits % 0x8000_0000) as nat
}

/// Whether the bits encode no number at all: all exponent bits set and a
/// fraction other than zero.
pub open spec fn is_nan(bits: u32) -> bool {
    magnitude_bits(bits) > 0x7f80_0000
}

/// The size of the number with magnitude bits `m`, in units of two to the
/// power of minus 149.
///
/// With exponent bits `e` and fraction bits `f`, the size is `f` units if
/// `e` is zero and `(2^23 + f) * 2^(e - 1)` units otherwise. Infinity, which
/// has all exponent bits set and fraction zero, comes out above every finite
/// number.
pub open spec fn scaled_magnitude(m: nat) -> nat {
    let e = m / 0x80_0000;
    let f = m % 0x80_0000;
    if e == 0 {
        f
    } else {
        (0x80_0000 + f) * pow2((e - 1) as nat)
    }
}

/// The number that the bits encode, in units of two to the power of minus
/// 149. Both zeros give 0.
pub open spec fn scaled_value(bits: u32) -> int {
    if is_negative(bits) {
        -(scaled_magnitude(magnitude_bits(bits)) as int)
    } else {
        scaled_magnitude(magnitude_bits(bits)) as int
    }
}

/// An integer that orders bit patterns as the numbers they encode are
/// ordered: the magnitude bits, negated where the sign bit is set.
pub open spec fn key_of(bits: u32) -> int {
    if is_negative(bits) {
        -(magnitude_bits(bits) as int)
    } else {
        magnitude_bits(bits) as int
    }
}

/// Larger magnitude bits encode a larger size.
pub proof fn lemma_magnitude_increases(m1: nat, m2: nat)
    requires
        m1 < m2,
    ensures
        scaled_magnitude(m1) < scaled_magnitude(m2),
{
    let p: nat = 0x80_0000;
    let e1 = m1 / p;
    let f1 = m1 % p;
    let e2 = m2 / p;
    let f2 = m2 % p;
    lemma_fundamental_div_mod(m1 as int, p as int);
    lemma_fundamental_div_mod(m2 as int, p as int);
    assert(e1 <= e2) by (nonlinear_arith)
        requires
            m1 == p * e1 + f1,
            m2 == p * e2 + f2,
            0 <= f1 < p,
            0 <= f2 < p,
            m1 < m2,
    ;
    if e1 == e2 {
        assert(f1 < f2);
        if e1 > 0 {
            let w = pow2((e1 - 1) as nat);
            lemma_pow2_pos((e1 - 1) as nat);
            assert((p + f1) * w < (p + f2) * w) by (nonlinear_arith)
                requires
                    f1 < f2,
                    0 < w,
            ;
        }
    } else {
        let w2 = pow2((e2 - 1) as nat);
        lemma_pow2_pos((e2 - 1) as nat);
        assert(p * w2 <= (p + f2) * w2) by (nonlinear_arith)
            requires
                0 <= f2,
                0 < w2,
        ;
        if e1 == 0 {
            assert(p * 1 <= p * w2) by (nonlinear_arith)
                requires
                    1 <= w2,
            ;
        } else {
            let w1 = pow2((e1 - 1) as nat);
            lemma_pow2_pos((e1 - 1) as nat);
            lemma_pow2_unfold(e1);
            assert((p + f1) * w1 < p * (2 * w1)) by (nonlinear_arith)
                requires
                    f1 < p,
                    0 < w1,
            ;
            if e1 < e2 - 1 {
                lemma_pow2_strictly_increases(e1, (e2 - 1) as nat);
            }
            assert(p * pow2(e1) <= p * w2) by (nonlinear_arith)
                requires
                    pow2(e1) <= w2,
            ;
        }
    }
}

/// Of two bit patterns that encode numbers, the one with the smaller key
/// encodes the smaller number, and equal keys encode equal numbers.
pub proof fn lemma_key_order(a: u32, b: u32)
    requires
        !is_nan(a),
        !is_nan(b),
    ensures
        key_of(a) < key_of(b) <==> scaled_value(a) < scaled_value(b),
        key_of(a) == key_of(b) <==> scaled_value(a) == scaled_value(b),
{
    let ma = magnitude_bits(a);
    let mb = magnitude_bits(b);
    if ma < mb {
        lemma_magnitude_increases(ma, mb);
    }
    if mb < ma {
        lemma_magnitude_increases(mb, ma);
    }
    if 0 < ma {
        lemma_magnitude_increases(0, ma);
    }
    if 0 < mb {
        lemma_magnitude_increases(0, mb);
    }
    assert(scaled_magnitude(0) == 0);
}

/// The ordering key of a bit pattern, or `None` if the bits encode no number.
pub fn order_key(bits: u32) -> (k: Option<i32>)
    ensures
        k is None <==> is_nan(bits),
        k matches Some(v) ==> v == key_of(bits),
{
    let negative = bits >= 0x8000_0000;
    let m: u32 = if negative {
        bits - 0x8000_0000
    } else {
        bits
    };
    if m > 0x7f80_0000 {
        None
    } else if negative {
        Some(-(m as i32))
    } else {
        Some(m as i32)
    }
}

/// The bit pattern of zero.
pub const ZERO: u32 = 0;

/// The bit pattern of one: exponent bits 127, fraction zero.
pub const ONE: u32 = 0x3f80_0000;

/// Whether the first number is less than the second. Nothing is less than,
/// and nothing is more than, bits that encode no number.
pub open spec fn less(a: u32, b: u32) -> bool {
    !is_nan(a) && !is_nan(b) && scaled_value(a) < scaled_value(b)
}

/// Whether the first number is less than or equal to the second. This is
/// false where either side encodes no number.
pub open spec fn less_or_equal(a: u32, b: u32) -> bool {
    !is_nan(a) && !is_nan(b) && scaled_value(a) <= scaled_value(b)
}

/// The larger of two numbers; where one side encodes no number, the other
/// side.
pub open spec fn larger(a: u32, b: u32) -> u32 {
    if is_nan(a) {
        b
    } else if is_nan(b) {
        a
    } else if scaled_value(a) < scaled_value(b) {
        b
    } else {
        a
    }
}

/// The smaller of two numbers; where one side encodes no number, the other
/// side.
pub open spec fn smaller(a: u32, b: u32) -> u32 {
    if is_nan(a) {
        b
    } else if is_nan(b) {
        a
    } else if scaled_value(b) < scaled_value(a) {
        b
    } else {
        a
    }
}

/// Zero encodes the number 0, and one encodes a number above it.
pub proof fn lemma_zero_and_one()
    ensures
        !is_nan(ZERO),
        !is_nan(ONE),
        scaled_value(ZERO) == 0,
        scaled_value(ONE) > 0,
{
    lemma_magnitude_increases(0, 0x3f80_0000);
}

/// Whether the bits encode no number.
pub fn is_not_a_number(bits: u32) -> (r: bool)
    ensures
        r == is_nan(bits),
{
    order_key(bits).is_none()
}

/// Whether the first number is less than the second.
pub fn is_less(a: u32, b: u32) -> (r: bool)
    ensures
        r == less(a, b),
{
    match (order_key(a), order_key(b)) {
        (Some(x), Some(y)) => {
            proof {
                lemma_key_order(a, b);
            }
            x < y
        },
        _ => false,
    }
}

/// Whether the first number is less than or equal to the second.
pub fn is_less_or_equal(a: u32, b: u32) -> (r: bool)
    ensures
        r == less_or_equal(a, b),
{
    match (order_key(a), order_key(b)) {
        (Some(x), Some(y)) => {
            proof {
                lemma_key_order(a, b);
            }
            x <= y
        },
        _ => false,
    }
}

/// The larger of two numbers, ignoring bits that encode no number.
pub fn max(a: u32, b: u32) -> (r: u32)
    ensures
        r == larger(a, b),
{
    if is_not_a_number(a) {
        b
    } else if is_not_a_number(b) {
        a
    } else if is_less(a, b) {
        b
    } else {
        a
    }
}

/// The smaller of two numbers, ignoring bits that encode no number.
pub fn min(a: u32, b: u32) -> (r: u32)
    ensures
        r == smaller(a, b),
{
    if is_not_a_number(a) {
        b
    } else if is_not_a_number(b) {
        a
    } else if is_less(b, a) {
        b
    } else {
        a
    }
}

/// Whether the first number is less than or equal to the second, for bits
/// that encode numbers.
pub fn at_most(a: u32, b: u32) -> (r: bool)
    requires
        !is_nan(a),
        !is_nan(b),
    ensures
        r == (scaled_value(a) <= scaled_value(b)),
{
    is_less_or_equal(a, b)
}

} // verus!
