//! Binary64 numbers as bit patterns: order, sign and rectification.
use vstd::prelude::*;

verus! {

/// The sign bit of a binary64 pattern.
pub const SIGN_BIT: u64 = 0x8000_0000_0000_0000;

/// The pattern of positive infinity; every larger magnitude is a NaN.
pub const INFINITY_BITS: u64 = 0x7ff0_0000_0000_0000;

/// The pattern of positive zero.
pub const ZERO_BITS: u64 = 0;

/// The pattern of 1.0.
pub const ONE_BITS: u64 = 0x3ff0_0000_0000_0000;

/// The binary operations of arithmetic.
#[derive(Clone, Copy, Debug, PartialEq, Eq, Structural)]
pub enum NumericOp {
    Add,
    Subtract,
    Multiply,
    Divide,
    Power,
}

/// One operation on two binary64 patterns: `lhs op rhs`, for `Power`
/// `lhs` raised to `rhs`.
#[derive(Clone, Copy, Debug, PartialEq, Eq, Structural)]
pub struct Request {
    pub op: NumericOp,
    pub lhs: u64,
    pub rhs: u64,
}

/// The pattern with its sign bit cleared.
pub open spec fn magnitude(bits: u64) -> int {
    if bits >= SIGN_BIT {
        bits - SIGN_BIT
    } else {
        bits as int
    }
}

/// Whether the pattern denotes a NaN.
pub open spec fn is_nan(bits: u64) -> bool {
    magnitude(bits) > INFINITY_BITS
}

/// Position of a non-NaN pattern on the number line: two patterns denote
/// the same number exactly when their ranks agree (both zeros have rank 0),
/// and the smaller number has the smaller rank.
pub open spec fn rank(bits: u64) -> int {
    if bits >= SIGN_BIT {
        -magnitude(bits)
    } else {
        magnitude(bits)
    }
}

/// IEEE equality: NaN equals nothing, the two zeros are equal.
pub open spec fn same_number(a: u64, b: u64) -> bool {
    !is_nan(a) && !is_nan(b) && rank(a) == rank(b)
}

/// IEEE `<`: false as soon as one side is a NaN.
pub open spec fn below(a: u64, b: u64) -> bool {
    !is_nan(a) && !is_nan(b) && rank(a) < rank(b)
}

/// The pattern with its sign bit flipped.
pub open spec fn negated(bits: u64) -> u64 {
    if bits >= SIGN_BIT {
        (bits - SIGN_BIT) as u64
    } else {
        (bits + SIGN_BIT) as u64
    }
}

/// `max(0, x)`: the pattern itself when it denotes a number above zero,
/// positive zero otherwise (for NaN and both zeros too).
pub open spec fn rectified(bits: u64) -> u64 {
    if below(ZERO_BITS, bits) {
        bits
    } else {
        ZERO_BITS
    }
}

/// Derivative of `max(0, x)` at the pattern: 1.0 above zero, 0.0 elsewhere.
pub open spec fn rectifier_slope(bits: u64) -> u64 {
    if below(ZERO_BITS, bits) {
        ONE_BITS
    } else {
        ZERO_BITS
    }
}

pub fn number_is_nan(bits: u64) -> (r: bool)
    ensures
        r == is_nan(bits),
{
    if bits >= SIGN_BIT {
        bits - SIGN_BIT > INFINITY_BITS
    } else {
        bits > INFINITY_BITS
    }
}

pub fn number_negate(bits: u64) -> (r: u64)
    ensures
        r == negated(bits),
{
    if bits >= SIGN_BIT {
        bits - SIGN_BIT
    } else {
        bits + SIGN_BIT
    }
}

pub fn number_equal(a: u64, b: u64) -> (r: bool)
    ensures
        r == same_number(a, b),
{
    if number_is_nan(a) || number_is_nan(b) {
        false
    } else if a == b {
        true
    } else {
        let both_zero = (a == ZERO_BITS || a == SIGN_BIT) && (b == ZERO_BITS || b == SIGN_BIT);
        both_zero
    }
}

pub fn number_less(a: u64, b: u64) -> (r: bool)
    ensures
        r == below(a, b),
{
    if number_is_nan(a) || number_is_nan(b) {
        false
    } else if a >= SIGN_BIT {
        if b >= SIGN_BIT {
            b < a
        } else {
            a > SIGN_BIT || b > ZERO_BITS
        }
    } else {
        b < SIGN_BIT && a < b
    }
}

pub fn number_greater(a: u64, b: u64) -> (r: bool)
    ensures
        r == below(b, a),
{
    number_less(b, a)
}

pub fn number_relu(bits: u64) -> (r: u64)
    ensures
        r == rectified(bits),
{
    if number_less(ZERO_BITS, bits) {
        bits
    } else {
        ZERO_BITS
    }
}

pub fn number_relu_slope(bits: u64) -> (r: u64)
    ensures
        r == rectifier_slope(bits),
{
    if number_less(ZERO_BITS, bits) {
        ONE_BITS
    } else {
        ZERO_BITS
    }
}

/// Negating twice gives the pattern back, and negation mirrors the rank.
pub proof fn lemma_negation(bits: u64)
    ensures
        negated(negated(bits)) == bits,
        rank(negated(bits)) == -rank(bits),
        is_nan(negated(bits)) == is_nan(bits),
{
}

/// `below` is a strict order on the patterns that are not NaN, and
/// `same_number` is its equivalence.
pub proof fn lemma_order(a: u64, b: u64, c: u64)
    ensures
        !below(a, a),
        below(a, b) && below(b, c) ==> below(a, c),
        !is_nan(a) && !is_nan(b) ==> (below(a, b) || below(b, a) || same_number(a, b)),
        same_number(a, b) ==> !below(a, b) && !below(b, a),
{
}

} // verus!
