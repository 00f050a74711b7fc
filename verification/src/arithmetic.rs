//! Sums, differences, products and quotients of binary64 numbers, computed
//! on their bit patterns.
//!
//! A finite binary64 number is a whole multiple of 2^-1074. Sum, product
//! and quotient of two such numbers are ratios of integers; the result of
//! an operation is the binary64 number nearest to the exact ratio, ties to
//! even, as IEEE 754 asks. Every NaN that an operation makes has the same
//! pattern, whatever went in.
use vstd::prelude::*;
use vstd::arithmetic::power2::{lemma_pow2_adds, lemma_pow2_pos, pow2};
use crate::decimal::{at_most, dec_value, digits_ok, doubled, minus, plus, times};
use crate::literal::{
    binade, convert, in_binade, lemma_binade_exists, lemma_binade_unique, lemma_nearest_scale,
    nearest_binary64, round_half_even, HIDDEN_BIT,
};
use crate::number::{is_nan, magnitude, negated, number_negate, INFINITY_BITS, SIGN_BIT};

verus! {

/// The pattern of the NaN that the operations make.
pub const NAN_BITS: u64 = 0x7ff8_0000_0000_0000;

/// Whether the sign bit is set.
pub open spec fn is_negative(bits: u64) -> bool {
    bits >= SIGN_BIT
}

/// Whether the pattern denotes an infinity.
pub open spec fn is_infinite(bits: u64) -> bool {
    magnitude(bits) == INFINITY_BITS
}

/// Whether the pattern denotes a zero.
pub open spec fn is_zero(bits: u64) -> bool {
    magnitude(bits) == 0
}

/// The exponent field of the pattern.
pub open spec fn field(bits: u64) -> nat {
    (magnitude(bits) / (HIDDEN_BIT as int)) as nat
}

/// The significand of a finite pattern: the fraction field, and the hidden
/// bit unless the exponent field is zero.
pub open spec fn significand(bits: u64) -> nat {
    if field(bits) == 0 {
        (magnitude(bits) % (HIDDEN_BIT as int)) as nat
    } else {
        (HIDDEN_BIT + magnitude(bits) % (HIDDEN_BIT as int)) as nat
    }
}

/// The power of two by which the significand of a finite pattern counts
/// units of 2^-1074.
pub open spec fn scale(bits: u64) -> nat {
    if field(bits) == 0 {
        0
    } else {
        (field(bits) - 1) as nat
    }
}

/// The magnitude of a finite number in units of 2^-1074.
pub open spec fn units(bits: u64) -> nat {
    significand(bits) * pow2(scale(bits))
}

/// A finite number in units of 2^-1074.
pub open spec fn signed_units(bits: u64) -> int {
    if is_negative(bits) {
        -(units(bits) as int)
    } else {
        units(bits) as int
    }
}

/// The pattern of a magnitude with a sign.
pub open spec fn with_sign(negative: bool, magnitude: u64) -> u64 {
    if negative {
        (magnitude + SIGN_BIT) as u64
    } else {
        magnitude
    }
}

/// The sum of two numbers. Infinities of opposite signs have none. Two
/// zeros, or two numbers that cancel, give positive zero, unless both
/// are negative zeros.
pub open spec fn sum(a: u64, b: u64) -> u64 {
    if is_nan(a) || is_nan(b) {
        NAN_BITS
    } else if is_infinite(a) {
        if is_infinite(b) && is_negative(a) != is_negative(b) {
            NAN_BITS
        } else {
            a
        }
    } else if is_infinite(b) {
        b
    } else {
        let s = signed_units(a) + signed_units(b);
        if s == 0 {
            if is_negative(a) && is_negative(b) {
                SIGN_BIT
            } else {
                0
            }
        } else if s < 0 {
            with_sign(true, nearest_binary64((-s) as nat, pow2(1074)))
        } else {
            with_sign(false, nearest_binary64(s as nat, pow2(1074)))
        }
    }
}

/// The difference of two numbers: the sum of the first and the negated
/// second.
pub open spec fn difference(a: u64, b: u64) -> u64 {
    if is_nan(a) || is_nan(b) {
        NAN_BITS
    } else {
        sum(a, negated(b))
    }
}

/// The product of two numbers. Zero times infinity has none.
pub open spec fn product(a: u64, b: u64) -> u64 {
    let negative = is_negative(a) != is_negative(b);
    if is_nan(a) || is_nan(b) {
        NAN_BITS
    } else if is_infinite(a) || is_infinite(b) {
        if is_zero(a) || is_zero(b) {
            NAN_BITS
        } else {
            with_sign(negative, INFINITY_BITS)
        }
    } else {
        with_sign(negative, nearest_binary64(units(a) * units(b), pow2(2148)))
    }
}

/// The quotient of two numbers. Zero by zero and infinity by infinity
/// have none; another number by zero is infinite.
pub open spec fn quotient(a: u64, b: u64) -> u64 {
    let negative = is_negative(a) != is_negative(b);
    if is_nan(a) || is_nan(b) {
        NAN_BITS
    } else if is_infinite(a) {
        if is_infinite(b) {
            NAN_BITS
        } else {
            with_sign(negative, INFINITY_BITS)
        }
    } else if is_infinite(b) {
        with_sign(negative, 0)
    } else if is_zero(b) {
        if is_zero(a) {
            NAN_BITS
        } else {
            with_sign(negative, INFINITY_BITS)
        }
    } else {
        with_sign(negative, nearest_binary64(units(a), units(b)))
    }
}

/// Sum and product do not depend on the order of their operands.
pub proof fn lemma_commutative(a: u64, b: u64)
    ensures
        sum(a, b) == sum(b, a),
        product(a, b) == product(b, a),
{
    assert(units(a) * units(b) == units(b) * units(a)) by (nonlinear_arith);
}

/// The magnitude of a finite number, rounded, is the number itself.
pub proof fn lemma_exact(a: u64)
    requires
        !is_nan(a),
        !is_infinite(a),
    ensures
        nearest_binary64(units(a), pow2(1074)) == magnitude(a),
{
    let m = magnitude(a);
    let h = HIDDEN_BIT as int;
    let s = significand(a);
    let t = scale(a);
    let c = pow2(1074);
    let p = pow2(t);
    let x = units(a) * c;
    lemma_pow2_pos(1074);
    lemma_pow2_pos(t);
    vstd::arithmetic::div_mod::lemma_fundamental_div_mod(m, h);
    assert(m == h * (m / h) + m % h);
    assert(field(a) <= 2046);
    let unit = c * p;
    assert(unit > 0) by (nonlinear_arith)
        requires
            unit == c * p,
            c > 0,
            p > 0,
    ;
    assert(x == s * unit) by (nonlinear_arith)
        requires
            x == (s * p) * c,
            unit == c * p,
    ;
    if s == 0 {
        assert(m == 0);
        assert(units(a) == 0) by (nonlinear_arith)
            requires
                units(a) == s * p,
                s == 0,
        ;
    } else {
        assert(units(a) > 0) by (nonlinear_arith)
            requires
                units(a) == s * p,
                s > 0,
                p > 0,
        ;
        // The number lies below the binade of the infinite patterns.
        if t < 2045 {
            vstd::arithmetic::power2::lemma_pow2_strictly_increases(t, 2045);
        }
        vstd::arithmetic::power2::lemma_pow2_unfold(2046);
        let top = pow2(2046);
        assert(x < HIDDEN_BIT * (c * top)) by (nonlinear_arith)
            requires
                x == s * (c * p),
                s < 2 * HIDDEN_BIT,
                2 * p <= top,
                c > 0,
                p > 0,
        ;
        // Rounding finds the significand without a remainder.
        vstd::arithmetic::div_mod::lemma_fundamental_div_mod_converse(
            x as int,
            unit as int,
            s as int,
            0,
        );
        assert(round_half_even(x, unit) == s);
        if field(a) == 0 {
            assert(p == 1) by {
                vstd::arithmetic::power2::lemma2_to64();
            }
            assert(x < HIDDEN_BIT * c) by (nonlinear_arith)
                requires
                    x == s * (c * p),
                    p == 1,
                    s < HIDDEN_BIT,
                    c > 0,
            ;
            assert(c * pow2(0) == unit);
        } else {
            assert(HIDDEN_BIT * unit <= x < 2 * HIDDEN_BIT * unit) by (nonlinear_arith)
                requires
                    x == s * unit,
                    HIDDEN_BIT <= s < 2 * HIDDEN_BIT,
                    unit > 0,
            ;
            assert(in_binade(units(a), c, t));
            assert(HIDDEN_BIT * c <= HIDDEN_BIT * unit) by (nonlinear_arith)
                requires
                    unit == c * p,
                    p >= 1,
                    c > 0,
            ;
            lemma_binade_exists(units(a), c);
            lemma_binade_unique(units(a), c, t, binade(units(a), c));
            assert(t * HIDDEN_BIT + s == m) by (nonlinear_arith)
                requires
                    m == h * (m / h) + m % h,
                    h == HIDDEN_BIT,
                    t == m / h - 1,
                    s == HIDDEN_BIT + m % h,
            ;
        }
    }
}

/// A finite number less itself is positive zero, and a number that is
/// not zero, plus zero, is the number.
pub proof fn lemma_zero(a: u64)
    requires
        !is_nan(a),
        !is_infinite(a),
    ensures
        difference(a, a) == 0,
        !is_zero(a) ==> sum(a, 0) == a,
{
    assert(units(0) == 0) by {
        assert(magnitude(0) == 0);
        assert(significand(0) == 0);
        assert(0 * pow2(scale(0)) == 0) by (nonlinear_arith);
    }
    assert(units(negated(a)) == units(a));
    if !is_zero(a) {
        assert(significand(a) > 0);
        lemma_pow2_pos(scale(a));
        assert(units(a) > 0) by (nonlinear_arith)
            requires
                units(a) == significand(a) * pow2(scale(a)),
                significand(a) > 0,
                pow2(scale(a)) > 0,
        ;
        lemma_exact(a);
    }
}

/// The parts of a pattern: its magnitude, and whether it is negative.
fn split(bits: u64) -> (r: (bool, u64))
    ensures
        r.0 == is_negative(bits),
        r.1 == magnitude(bits),
        r.1 < SIGN_BIT,
{
    if bits >= SIGN_BIT {
        (true, bits - SIGN_BIT)
    } else {
        (false, bits)
    }
}

/// The pattern of a magnitude with a sign.
fn signed(negative: bool, magnitude: u64) -> (r: u64)
    requires
        magnitude <= INFINITY_BITS,
    ensures
        r == with_sign(negative, magnitude),
{
    if negative {
        magnitude + SIGN_BIT
    } else {
        magnitude
    }
}

/// The digits of a number.
fn natural(k: u64) -> (r: Vec<u8>)
    ensures
        digits_ok(r@),
        dec_value(r@) == k,
{
    let mut one: Vec<u8> = Vec::new();
    one.push(1);
    proof {
        assert(one@.drop_last() =~= Seq::<u8>::empty());
        assert(one@.last() == 1);
        assert(dec_value(one@.drop_last()) == 0);
        assert(crate::decimal::pow10(0) == 1);
        assert(dec_value(one@) == 1);
        assert(1 * k == k) by (nonlinear_arith);
    }
    times(&one, k)
}

/// Significand and scale of a finite pattern, the significand as digits.
fn measure(bits: u64) -> (r: (Vec<u8>, usize))
    requires
        magnitude(bits) < INFINITY_BITS,
    ensures
        digits_ok(r.0@),
        dec_value(r.0@) == significand(bits),
        r.1 == scale(bits),
        r.1 <= 2045,
        significand(bits) == 0 <==> is_zero(bits),
{
    let (_, m) = split(bits);
    let exponent = m / HIDDEN_BIT;
    let fraction = m % HIDDEN_BIT;
    if exponent == 0 {
        (natural(fraction), 0)
    } else {
        (natural(HIDDEN_BIT + fraction), (exponent - 1) as usize)
    }
}

/// Numerator and denominator of `value * 2^k / 2^base`, with the common
/// power of two taken out.
fn reduced(value: &Vec<u8>, k: usize, base: usize) -> (r: (Vec<u8>, Vec<u8>))
    requires
        digits_ok(value@),
    ensures
        digits_ok(r.0@),
        digits_ok(r.1@),
        dec_value(r.1@) > 0,
        nearest_binary64(dec_value(r.0@), dec_value(r.1@)) == nearest_binary64(
            dec_value(value@) * pow2(k as nat),
            pow2(base as nat),
        ),
{
    let one = natural(1);
    let ghost v = dec_value(value@);
    if k >= base {
        let num = doubled(value, k - base);
        proof {
            let c = pow2(base as nat);
            lemma_pow2_pos(base as nat);
            lemma_pow2_adds((k - base) as nat, base as nat);
            assert(v * (pow2((k - base) as nat) * c) == c * (v * pow2((k - base) as nat)))
                by (nonlinear_arith);
            assert(c * 1 == c) by (nonlinear_arith);
            lemma_nearest_scale(dec_value(num@), 1, c);
        }
        (num, one)
    } else {
        let den = doubled(&one, base - k);
        proof {
            let c = pow2(k as nat);
            lemma_pow2_pos(k as nat);
            lemma_pow2_pos((base - k) as nat);
            lemma_pow2_adds((base - k) as nat, k as nat);
            assert(v * c == c * v) by (nonlinear_arith);
            assert(1 * pow2((base - k) as nat) == pow2((base - k) as nat)) by (nonlinear_arith);
            assert(pow2((base - k) as nat) * c == c * pow2((base - k) as nat))
                by (nonlinear_arith);
            lemma_nearest_scale(v, dec_value(den@), c);
        }
        (times(value, 1), den)
    }
}

/// The sum of two numbers.
pub fn number_add(a: u64, b: u64) -> (r: u64)
    ensures
        r == sum(a, b),
{
    let (negative_a, ma) = split(a);
    let (negative_b, mb) = split(b);
    if ma > INFINITY_BITS || mb > INFINITY_BITS {
        return NAN_BITS;
    }
    if ma == INFINITY_BITS {
        if mb == INFINITY_BITS && negative_a != negative_b {
            return NAN_BITS;
        }
        return a;
    }
    if mb == INFINITY_BITS {
        return b;
    }
    let (sa, ta) = measure(a);
    let (sb, tb) = measure(b);
    let least = if ta < tb {
        ta
    } else {
        tb
    };
    let left = doubled(&sa, ta - least);
    let right = doubled(&sb, tb - least);
    let ghost c = pow2(least as nat);
    let ghost lv = dec_value(left@);
    let ghost rv = dec_value(right@);
    proof {
        lemma_pow2_pos(least as nat);
        lemma_pow2_adds((ta - least) as nat, least as nat);
        lemma_pow2_adds((tb - least) as nat, least as nat);
        assert(units(a) == lv * c) by (nonlinear_arith)
            requires
                units(a) == significand(a) * pow2(ta as nat),
                pow2(ta as nat) == pow2((ta - least) as nat) * c,
                lv == significand(a) * pow2((ta - least) as nat),
        ;
        assert(units(b) == rv * c) by (nonlinear_arith)
            requires
                units(b) == significand(b) * pow2(tb as nat),
                pow2(tb as nat) == pow2((tb - least) as nat) * c,
                rv == significand(b) * pow2((tb - least) as nat),
        ;
        assert((lv + rv) * c == lv * c + rv * c) by (nonlinear_arith);
        assert((lv - rv) * c == lv * c - rv * c) by (nonlinear_arith);
        assert((rv - lv) * c == rv * c - lv * c) by (nonlinear_arith);
    }
    let (negative, total) = if negative_a == negative_b {
        (negative_a, plus(&left, &right))
    } else if at_most(&right, &left) {
        (negative_a, minus(&left, &right))
    } else {
        (negative_b, minus(&right, &left))
    };
    let ghost tv = dec_value(total@);
    let zero: Vec<u8> = Vec::new();
    assert(dec_value(zero@) == 0);
    proof {
        assert(tv == 0 ==> tv * c == 0) by (nonlinear_arith);
        assert(tv > 0 ==> tv * c > 0) by (nonlinear_arith)
            requires
                c > 0,
        ;
    }
    if at_most(&total, &zero) {
        return if negative_a && negative_b {
            SIGN_BIT
        } else {
            0
        };
    }
    let (num, den) = reduced(&total, least, 1074);
    signed(negative, convert(&num, &den))
}

/// The difference of two numbers.
pub fn number_subtract(a: u64, b: u64) -> (r: u64)
    ensures
        r == difference(a, b),
{
    let (_, ma) = split(a);
    let (_, mb) = split(b);
    if ma > INFINITY_BITS || mb > INFINITY_BITS {
        return NAN_BITS;
    }
    number_add(a, number_negate(b))
}

/// The product of two numbers.
pub fn number_multiply(a: u64, b: u64) -> (r: u64)
    ensures
        r == product(a, b),
{
    let (negative_a, ma) = split(a);
    let (negative_b, mb) = split(b);
    let negative = negative_a != negative_b;
    if ma > INFINITY_BITS || mb > INFINITY_BITS {
        return NAN_BITS;
    }
    if ma == INFINITY_BITS || mb == INFINITY_BITS {
        if ma == 0 || mb == 0 {
            return NAN_BITS;
        }
        return signed(negative, INFINITY_BITS);
    }
    let (sa, ta) = measure(a);
    let (sb, tb) = measure(b);
    let (_, wb) = split(b);
    let fraction = wb % HIDDEN_BIT;
    let factor: u64 = if wb / HIDDEN_BIT == 0 {
        fraction
    } else {
        HIDDEN_BIT + fraction
    };
    let both = times(&sa, factor);
    proof {
        lemma_pow2_adds(ta as nat, tb as nat);
        let x = significand(a);
        let y = significand(b);
        assert((x * pow2(ta as nat)) * (y * pow2(tb as nat)) == (x * y) * (pow2(ta as nat) * pow2(
            tb as nat,
        ))) by (nonlinear_arith);
    }
    let (num, den) = reduced(&both, ta + tb, 2148);
    signed(negative, convert(&num, &den))
}

/// The quotient of two numbers.
pub fn number_divide(a: u64, b: u64) -> (r: u64)
    ensures
        r == quotient(a, b),
{
    let (negative_a, ma) = split(a);
    let (negative_b, mb) = split(b);
    let negative = negative_a != negative_b;
    if ma > INFINITY_BITS || mb > INFINITY_BITS {
        return NAN_BITS;
    }
    if ma == INFINITY_BITS {
        if mb == INFINITY_BITS {
            return NAN_BITS;
        }
        return signed(negative, INFINITY_BITS);
    }
    if mb == INFINITY_BITS {
        return signed(negative, 0);
    }
    if mb == 0 {
        if ma == 0 {
            return NAN_BITS;
        }
        return signed(negative, INFINITY_BITS);
    }
    let (sa, ta) = measure(a);
    let (sb, tb) = measure(b);
    let least = if ta < tb {
        ta
    } else {
        tb
    };
    let num = doubled(&sa, ta - least);
    let den = doubled(&sb, tb - least);
    proof {
        let c = pow2(least as nat);
        let nv = dec_value(num@);
        let dv = dec_value(den@);
        lemma_pow2_pos(least as nat);
        lemma_pow2_pos((tb - least) as nat);
        lemma_pow2_adds((ta - least) as nat, least as nat);
        lemma_pow2_adds((tb - least) as nat, least as nat);
        assert(units(a) == c * nv) by (nonlinear_arith)
            requires
                units(a) == significand(a) * pow2(ta as nat),
                pow2(ta as nat) == pow2((ta - least) as nat) * c,
                nv == significand(a) * pow2((ta - least) as nat),
        ;
        assert(units(b) == c * dv) by (nonlinear_arith)
            requires
                units(b) == significand(b) * pow2(tb as nat),
                pow2(tb as nat) == pow2((tb - least) as nat) * c,
                dv == significand(b) * pow2((tb - least) as nat),
        ;
        assert(dv > 0) by (nonlinear_arith)
            requires
                dv == significand(b) * pow2((tb - least) as nat),
                significand(b) > 0,
                pow2((tb - least) as nat) > 0,
        ;
        lemma_nearest_scale(nv, dv, c);
    }
    signed(negative, convert(&num, &den))
}

} // verus!
