//! Number literals: from decimal digits to the nearest binary64 pattern.
//!
//! A literal `ddd.ddd` denotes the rational `digits / 10^scale`. Its value
//! in the language is the binary64 number nearest to that rational, ties
//! going to the even significand; a literal beyond the largest number is
//! infinite. The conversion is exact for literals of any length: it works
//! on the decimal digits and needs nothing but products and comparisons.
use vstd::prelude::*;
use vstd::arithmetic::div_mod::{
    lemma_div_multiples_vanish_quotient, lemma_fundamental_div_mod,
    lemma_fundamental_div_mod_converse, lemma_truncate_middle,
};
use vstd::arithmetic::power2::{
    lemma2_to64, lemma_pow2_adds, lemma_pow2_pos, lemma_pow2_strictly_increases,
    lemma_pow2_unfold, pow2,
};
use crate::decimal::{
    at_most, dec_value, digits_ok, horner, lemma_pow10_grows, pow10, power_of_ten, reversed,
    times,
};
use crate::number::INFINITY_BITS;
use crate::scanner::is_digit;

verus! {

/// The weight of the hidden bit of a binary64 significand: 2^52.
pub const HIDDEN_BIT: u64 = 0x0010_0000_0000_0000;

/// The integer nearest to `num / den`; of two equally near, the even one.
pub open spec fn round_half_even(num: nat, den: nat) -> nat {
    let q = num / den;
    let r = num % den;
    if 2 * r < den || (2 * r == den && q % 2 == 0) {
        q
    } else {
        q + 1
    }
}

/// Whether `num / den`, in units of `2^(t - 1074)`, lies in the range of a
/// significand with its hidden bit: from 2^52 up to, but not including,
/// 2^53.
pub open spec fn in_binade(num: nat, den: nat, t: nat) -> bool {
    HIDDEN_BIT * (den * pow2(t)) <= num * pow2(1074) < 2 * HIDDEN_BIT * (den * pow2(t))
}

/// The one `t` for which `num / den` lies in the binade of `t`.
pub open spec fn binade(num: nat, den: nat) -> nat {
    choose|t: nat| in_binade(num, den, t)
}

/// The pattern of the binary64 number nearest to `num / den`. The ratio is
/// taken in units of `2^(t - 1074)`: for the numbers below the normal
/// range `t` is zero, for the others it is their binade. There the ratio
/// is rounded to an integer, ties to even. The pattern is that integer
/// plus `t` in the exponent field; a significand that rounds up to 2^53
/// carries into the exponent. A ratio in or beyond the binade of the
/// infinite patterns is infinite.
pub open spec fn nearest_binary64(num: nat, den: nat) -> u64 {
    let x = num * pow2(1074);
    if num == 0 {
        0
    } else if x >= HIDDEN_BIT * (den * pow2(2046)) {
        INFINITY_BITS
    } else {
        let t = if x < HIDDEN_BIT * den {
            0
        } else {
            binade(num, den)
        };
        (t * HIDDEN_BIT + round_half_even(x, den * pow2(t))) as u64
    }
}

/// What has been read of a literal.
pub struct Reading {
    /// The digits so far, as one integer.
    pub digits: nat,
    /// How many bytes stand behind the point.
    pub scale: nat,
    /// Whether a point has been read.
    pub pointed: bool,
}

/// Reads a literal from left to right: digits, and a point among them.
/// Where the text has more than one point, the last one counts; a byte
/// that is neither a digit nor a point adds no digit.
pub open spec fn reading(text: Seq<u8>) -> Reading
    decreases text.len(),
{
    if text.len() == 0 {
        Reading { digits: 0, scale: 0, pointed: false }
    } else {
        let r = reading(text.drop_last());
        let c = text.last();
        if c == 46u8 {
            Reading { digits: r.digits, scale: 0, pointed: true }
        } else {
            Reading {
                digits: if is_digit(c) {
                    r.digits * 10 + (c - 48u8) as nat
                } else {
                    r.digits
                },
                scale: if r.pointed {
                    r.scale + 1
                } else {
                    0
                },
                pointed: r.pointed,
            }
        }
    }
}

/// The value of a number literal: the binary64 number nearest to its
/// digits over ten to the number of digits behind the point.
pub open spec fn literal_bits(text: Seq<u8>) -> u64 {
    nearest_binary64(reading(text).digits, pow10(reading(text).scale))
}

/// What rounding means: the result is at most half a unit away from the
/// ratio, and where it is exactly half a unit away, it is even.
pub proof fn lemma_round_half_even(num: nat, den: nat)
    requires
        den > 0,
    ensures
        2 * (num - round_half_even(num, den) * den) <= den,
        2 * (round_half_even(num, den) * den - num) <= den,
        2 * (num - round_half_even(num, den) * den) == den || 2 * (round_half_even(num, den) * den
            - num) == den ==> round_half_even(num, den) % 2 == 0,
{
    let q = num / den;
    let r = num % den;
    lemma_fundamental_div_mod(num as int, den as int);
    assert(num == den * q + r);
    assert(0 <= r < den);
    assert((q + 1) * den == q * den + den) by (nonlinear_arith);
    assert(den * q == q * den) by (nonlinear_arith);
}

/// A ratio lies in one binade at most.
pub proof fn lemma_binade_unique(num: nat, den: nat, t1: nat, t2: nat)
    requires
        den > 0,
        in_binade(num, den, t1),
        in_binade(num, den, t2),
    ensures
        t1 == t2,
{
    if t1 < t2 {
        lemma_binades_apart(num, den, t1, t2);
    } else if t2 < t1 {
        lemma_binades_apart(num, den, t2, t1);
    }
}

/// A ratio in one binade lies below every higher binade.
pub proof fn lemma_binades_apart(num: nat, den: nat, t1: nat, t2: nat)
    requires
        den > 0,
        t1 < t2,
        in_binade(num, den, t1),
    ensures
        !in_binade(num, den, t2),
{
    lemma_pow2_unfold(t1 + 1);
    if t1 + 1 < t2 {
        lemma_pow2_strictly_increases(t1 + 1, t2);
    }
    let a = pow2(t1);
    let b = pow2(t2);
    let x = num * pow2(1074);
    assert(2 * a <= b);
    assert(2 * HIDDEN_BIT * (den * a) <= HIDDEN_BIT * (den * b)) by (nonlinear_arith)
        requires
            2 * a <= b,
            den > 0,
    ;
}

/// Rounding a ratio does not depend on a common factor.
pub proof fn lemma_round_scale(num: nat, den: nat, c: nat)
    requires
        den > 0,
        c > 0,
    ensures
        round_half_even(c * num, c * den) == round_half_even(num, den),
{
    lemma_div_multiples_vanish_quotient(c as int, num as int, den as int);
    lemma_truncate_middle(num as int, c as int, den as int);
    let r = num % den;
    assert((c * num) % (c * den) == c * r);
    assert((c * num) / (c * den) == num / den);
    assert((2 * (c * r) < c * den) == (2 * r < den)) by (nonlinear_arith)
        requires
            c > 0,
    ;
    assert((2 * (c * r) == c * den) == (2 * r == den)) by (nonlinear_arith)
        requires
            c > 0,
    ;
}

/// A number that is at least `y` lies between `y` times a power of two
/// and twice that.
pub proof fn lemma_power_of_two_below(x: nat, y: nat) -> (t: nat)
    requires
        0 < y <= x,
    ensures
        y * pow2(t) <= x < 2 * (y * pow2(t)),
    decreases x - y,
{
    lemma2_to64();
    if x < 2 * y {
        assert(y * pow2(0) == y) by (nonlinear_arith)
            requires
                pow2(0) == 1,
        ;
        0
    } else {
        let t = lemma_power_of_two_below(x, (2 * y) as nat);
        lemma_pow2_unfold(t + 1);
        assert((2 * y) * pow2(t) == y * (2 * pow2(t))) by (nonlinear_arith);
        t + 1
    }
}

/// A ratio of 2^-1022 or more lies in a binade.
pub proof fn lemma_binade_exists(num: nat, den: nat)
    requires
        den > 0,
        num * pow2(1074) >= HIDDEN_BIT * den,
    ensures
        in_binade(num, den, binade(num, den)),
{
    let t = lemma_power_of_two_below(num * pow2(1074), (HIDDEN_BIT * den) as nat);
    assert((HIDDEN_BIT * den) * pow2(t) == HIDDEN_BIT * (den * pow2(t))) by (nonlinear_arith);
    assert(2 * ((HIDDEN_BIT * den) * pow2(t)) == 2 * HIDDEN_BIT * (den * pow2(t)))
        by (nonlinear_arith);
    assert(in_binade(num, den, t));
}

/// The nearest number to a ratio does not depend on a common factor of
/// numerator and denominator.
pub proof fn lemma_nearest_scale(num: nat, den: nat, c: nat)
    requires
        den > 0,
        c > 0,
    ensures
        nearest_binary64(c * num, c * den) == nearest_binary64(num, den),
{
    let x = num * pow2(1074);
    let y = (c * num) * pow2(1074);
    assert(y == c * x) by (nonlinear_arith)
        requires
            x == num * pow2(1074),
            y == (c * num) * pow2(1074),
    ;
    assert(c * num == 0 <==> num == 0) by (nonlinear_arith)
        requires
            c > 0,
    ;
    let top = den * pow2(2046);
    assert(HIDDEN_BIT * ((c * den) * pow2(2046)) == c * (HIDDEN_BIT * top)) by (nonlinear_arith)
        requires
            top == den * pow2(2046),
    ;
    assert((c * x >= c * (HIDDEN_BIT * top)) == (x >= HIDDEN_BIT * top)) by (nonlinear_arith)
        requires
            c > 0,
    ;
    assert(HIDDEN_BIT * (c * den) == c * (HIDDEN_BIT * den)) by (nonlinear_arith);
    assert((c * x < c * (HIDDEN_BIT * den)) == (x < HIDDEN_BIT * den)) by (nonlinear_arith)
        requires
            c > 0,
    ;
    if num != 0 && x < HIDDEN_BIT * top {
        let t = if x < HIDDEN_BIT * den {
            0
        } else {
            lemma_binade_exists(num, den);
            let t = binade(num, den);
            let unit = den * pow2(t);
            assert(HIDDEN_BIT * ((c * den) * pow2(t)) == c * (HIDDEN_BIT * unit))
                by (nonlinear_arith)
                requires
                    unit == den * pow2(t),
            ;
            assert(2 * HIDDEN_BIT * ((c * den) * pow2(t)) == c * (2 * HIDDEN_BIT * unit))
                by (nonlinear_arith)
                requires
                    unit == den * pow2(t),
            ;
            assert(c * (HIDDEN_BIT * unit) <= c * x < c * (2 * HIDDEN_BIT * unit))
                by (nonlinear_arith)
                requires
                    c > 0,
                    HIDDEN_BIT * unit <= x < 2 * HIDDEN_BIT * unit,
            ;
            assert(in_binade(c * num, c * den, t));
            assert(c * den > 0) by (nonlinear_arith)
                requires
                    c > 0,
                    den > 0,
            ;
            lemma_binade_exists(c * num, c * den);
            lemma_binade_unique(c * num, c * den, t, binade(c * num, c * den));
            t
        };
        let unit = den * pow2(t);
        lemma_pow2_pos(t);
        assert(unit > 0) by (nonlinear_arith)
            requires
                unit == den * pow2(t),
                den > 0,
                pow2(t) > 0,
        ;
        lemma_round_scale(x, unit, c);
        assert((c * den) * pow2(t) == c * unit) by (nonlinear_arith)
            requires
                unit == den * pow2(t),
        ;
    }
}

/// The binary64 pattern nearest to `num / den`, both given by their
/// decimal digits, least significant first.
pub fn convert(num: &Vec<u8>, den: &Vec<u8>) -> (bits: u64)
    requires
        digits_ok(num@),
        digits_ok(den@),
        dec_value(den@) > 0,
    ensures
        bits == nearest_binary64(dec_value(num@), dec_value(den@)),
        bits <= INFINITY_BITS,
{
    let ghost n = dec_value(num@);
    let ghost d = dec_value(den@);
    let zero: Vec<u8> = Vec::new();
    assert(dec_value(zero@) == 0);
    if at_most(num, &zero) {
        return 0;
    }
    proof {
        lemma2_to64();
        lemma_pow2_adds(32, 20);
        lemma_pow2_adds(32, 21);
        assert(pow2(52) == HIDDEN_BIT);
        assert(pow2(53) == 2 * HIDDEN_BIT);
    }
    // Scale the numerator up until the ratio reaches 2^52, as far as the
    // smallest unit allows.
    let mut a = times(num, 1);
    let floor = times(den, HIDDEN_BIT);
    let mut up: u64 = 0;
    while up < 1074 && !at_most(&floor, &a)
        invariant
            n == dec_value(num@),
            d == dec_value(den@),
            n > 0,
            d > 0,
            digits_ok(a@),
            digits_ok(floor@),
            up <= 1074,
            dec_value(a@) == n * pow2(up as nat),
            dec_value(floor@) == d * HIDDEN_BIT,
            up > 0 ==> dec_value(a@) < 2 * (d * HIDDEN_BIT),
        decreases 1074 - up,
    {
        proof {
            lemma_pow2_unfold((up + 1) as nat);
            assert(n * (2 * pow2(up as nat)) == (n * pow2(up as nat)) * 2) by (nonlinear_arith);
        }
        a = times(&a, 2);
        up = up + 1;
    }
    // Scale the denominator up until the ratio falls below 2^53.
    let mut b = times(den, 1);
    let mut ceiling = times(den, 2 * HIDDEN_BIT);
    let mut down: u64 = 0;
    proof {
        assert(d * (2 * HIDDEN_BIT) == 2 * (d * HIDDEN_BIT)) by (nonlinear_arith);
        assert(d * pow2(0) == d) by (nonlinear_arith)
            requires
                pow2(0) == 1,
        ;
    }
    while at_most(&ceiling, &a)
        invariant
            n == dec_value(num@),
            d == dec_value(den@),
            n > 0,
            d > 0,
            digits_ok(a@),
            digits_ok(b@),
            digits_ok(ceiling@),
            up <= 1074,
            down <= 972,
            dec_value(a@) == n * pow2(up as nat),
            dec_value(b@) == d * pow2(down as nat),
            dec_value(ceiling@) == 2 * (dec_value(b@) * HIDDEN_BIT),
            up > 0 ==> dec_value(a@) < dec_value(ceiling@) && down == 0,
            down > 0 ==> dec_value(b@) * HIDDEN_BIT <= dec_value(a@),
            down == 0 && up < 1074 ==> dec_value(b@) * HIDDEN_BIT <= dec_value(a@),
        decreases 972 - down,
    {
        if down == 972 {
            proof {
                lemma_beyond(n, d, dec_value(a@), dec_value(b@), 0, 972);
            }
            return INFINITY_BITS;
        }
        proof {
            lemma_pow2_unfold((down + 1) as nat);
            let v = dec_value(b@);
            assert(d * (2 * pow2(down as nat)) == (d * pow2(down as nat)) * 2) by (nonlinear_arith);
            assert((2 * (v * HIDDEN_BIT)) * 2 == 2 * ((v * 2) * HIDDEN_BIT)) by (nonlinear_arith);
            assert((v * 2) * HIDDEN_BIT == 2 * (v * HIDDEN_BIT)) by (nonlinear_arith);
        }
        b = times(&b, 2);
        ceiling = times(&ceiling, 2);
        down = down + 1;
    }
    let ghost av = dec_value(a@);
    let ghost bv = dec_value(b@);
    proof {
        lemma_pow2_pos(down as nat);
        assert(bv > 0) by (nonlinear_arith)
            requires
                bv == d * pow2(down as nat),
                d > 0,
                pow2(down as nat) > 0,
        ;
    }
    if down == 972 {
        proof {
            lemma_beyond(n, d, av, bv, up as nat, 972);
        }
        return INFINITY_BITS;
    }
    // The quotient, by bisection.
    let mut low: u64 = 0;
    let mut high: u64 = 2 * HIDDEN_BIT;
    proof {
        assert(0 * bv == 0) by (nonlinear_arith);
        assert((2 * HIDDEN_BIT) * bv == 2 * (bv * HIDDEN_BIT)) by (nonlinear_arith);
    }
    while high - low > 1
        invariant
            digits_ok(a@),
            digits_ok(b@),
            av == dec_value(a@),
            bv == dec_value(b@),
            low < high <= 2 * HIDDEN_BIT,
            low * bv <= av < high * bv,
        decreases high - low,
    {
        let middle = low + (high - low) / 2;
        let product = times(&b, middle);
        proof {
            assert(bv * middle == middle * bv) by (nonlinear_arith);
        }
        if at_most(&product, &a) {
            low = middle;
        } else {
            high = middle;
        }
    }
    let q = low;
    // Which neighbour is nearer: compare the ratio with the midpoint.
    let twice = times(&a, 2);
    let midpoint = times(&b, 2 * q + 1);
    let not_above = at_most(&twice, &midpoint);
    let not_below = at_most(&midpoint, &twice);
    let m: u64 = if !not_below || (not_above && q % 2 == 0) {
        q
    } else {
        q + 1
    };
    let t: u64 = 1074 - up + down;
    proof {
        let r = (av - q * bv) as nat;
        assert((q + 1) * bv == q * bv + bv) by (nonlinear_arith);
        lemma_fundamental_div_mod_converse(av as int, bv as int, q as int, r as int);
        assert(bv * (2 * q + 1) == 2 * (q * bv) + bv) by (nonlinear_arith);
        assert(m == round_half_even(av, bv));
        lemma_scaled(n, d, av, bv, up as nat, down as nat);
        let c = pow2((1074 - up) as nat);
        let x = n * pow2(1074);
        lemma_round_scale(av, bv, c);
        if av < bv * HIDDEN_BIT {
            assert(up == 1074 && down == 0);
            assert(c == 1);
            assert(pow2(0) == 1);
            assert(x == av) by (nonlinear_arith)
                requires
                    x == c * av,
                    c == 1,
            ;
            assert(bv == d) by (nonlinear_arith)
                requires
                    bv == d * pow2(0),
                    pow2(0) == 1,
            ;
            assert(HIDDEN_BIT * d == d * HIDDEN_BIT) by (nonlinear_arith);
            assert(d * pow2(0) == c * bv);
        } else {
            lemma_in_binade(n, d, av, bv, up as nat, down as nat);
            lemma_binade_unique(n, d, t as nat, binade(n, d));
        }
        lemma_below_infinity(n, d, av, bv, up as nat, down as nat);
    }
    t * HIDDEN_BIT + m
}

/// The scaled numerator and denominator are the ratio's numerator and
/// denominator in units of `2^(t - 1074)`, up to a common factor.
proof fn lemma_scaled(n: nat, d: nat, av: nat, bv: nat, up: nat, down: nat)
    requires
        up <= 1074,
        av == n * pow2(up),
        bv == d * pow2(down),
    ensures
        n * pow2(1074) == pow2((1074 - up) as nat) * av,
        d * pow2((1074 - up + down) as nat) == pow2((1074 - up) as nat) * bv,
        pow2((1074 - up) as nat) > 0,
{
    let c = pow2((1074 - up) as nat);
    lemma_pow2_pos((1074 - up) as nat);
    lemma_pow2_adds(up, (1074 - up) as nat);
    lemma_pow2_adds(down, (1074 - up) as nat);
    assert(n * (pow2(up) * c) == c * (n * pow2(up))) by (nonlinear_arith);
    assert(d * (pow2(down) * c) == c * (d * pow2(down))) by (nonlinear_arith);
}

/// A scaled ratio between 2^52 and 2^53 lies in the binade of its scale.
proof fn lemma_in_binade(n: nat, d: nat, av: nat, bv: nat, up: nat, down: nat)
    requires
        up <= 1074,
        av == n * pow2(up),
        bv == d * pow2(down),
        d > 0,
        bv * HIDDEN_BIT <= av < 2 * (bv * HIDDEN_BIT),
    ensures
        in_binade(n, d, (1074 - up + down) as nat),
        n * pow2(1074) >= HIDDEN_BIT * d,
{
    let t = (1074 - up + down) as nat;
    let c = pow2((1074 - up) as nat);
    lemma_scaled(n, d, av, bv, up, down);
    assert(HIDDEN_BIT * (c * bv) <= c * av < 2 * HIDDEN_BIT * (c * bv)) by (nonlinear_arith)
        requires
            c > 0,
            bv * HIDDEN_BIT <= av < 2 * (bv * HIDDEN_BIT),
    ;
    lemma_pow2_pos(t);
    assert(HIDDEN_BIT * d <= HIDDEN_BIT * (d * pow2(t))) by (nonlinear_arith)
        requires
            pow2(t) >= 1,
    ;
}

/// A scaled ratio of 2^52 or more at a scale of 2046 or more is beyond
/// the finite numbers.
proof fn lemma_beyond(n: nat, d: nat, av: nat, bv: nat, up: nat, down: nat)
    requires
        up <= 1074,
        1074 - up + down >= 2046,
        av == n * pow2(up),
        bv == d * pow2(down),
        d > 0,
        n > 0,
        bv * HIDDEN_BIT <= av,
    ensures
        nearest_binary64(n, d) == INFINITY_BITS,
{
    let t = (1074 - up + down) as nat;
    let c = pow2((1074 - up) as nat);
    lemma_scaled(n, d, av, bv, up, down);
    assert(HIDDEN_BIT * (c * bv) <= c * av) by (nonlinear_arith)
        requires
            c > 0,
            bv * HIDDEN_BIT <= av,
    ;
    if t > 2046 {
        lemma_pow2_strictly_increases(2046, t);
    }
    assert(HIDDEN_BIT * (d * pow2(2046)) <= HIDDEN_BIT * (d * pow2(t))) by (nonlinear_arith)
        requires
            pow2(2046) <= pow2(t),
    ;
}

/// A scaled ratio below 2^53 at a scale below 2046 is not beyond the
/// finite numbers.
proof fn lemma_below_infinity(n: nat, d: nat, av: nat, bv: nat, up: nat, down: nat)
    requires
        up <= 1074,
        1074 - up + down < 2046,
        av == n * pow2(up),
        bv == d * pow2(down),
        d > 0,
        av < 2 * (bv * HIDDEN_BIT),
    ensures
        n * pow2(1074) < HIDDEN_BIT * (d * pow2(2046)),
{
    let t = (1074 - up + down) as nat;
    let c = pow2((1074 - up) as nat);
    lemma_scaled(n, d, av, bv, up, down);
    assert(c * av < 2 * HIDDEN_BIT * (c * bv)) by (nonlinear_arith)
        requires
            c > 0,
            av < 2 * (bv * HIDDEN_BIT),
    ;
    lemma_pow2_unfold(t + 1);
    if t + 1 < 2046 {
        lemma_pow2_strictly_increases(t + 1, 2046);
    }
    assert(2 * HIDDEN_BIT * (d * pow2(t)) <= HIDDEN_BIT * (d * pow2(2046))) by (nonlinear_arith)
        requires
            2 * pow2(t) <= pow2(2046),
    ;
}

/// The value of the number literal that spans `start..end` of `source`.
pub fn parse_number(source: &Vec<u8>, start: usize, end: usize) -> (bits: u64)
    requires
        start <= end <= source.len(),
    ensures
        bits == literal_bits(source@.subrange(start as int, end as int)),
{
    let ghost text = source@.subrange(start as int, end as int);
    let mut digits: Vec<u8> = Vec::new();
    let mut scale: usize = 0;
    let mut pointed = false;
    let mut i: usize = start;
    assert(text.take(0) =~= Seq::<u8>::empty());
    while i < end
        invariant
            start <= i <= end <= source.len(),
            text == source@.subrange(start as int, end as int),
            scale <= i - start,
            digits_ok(digits@),
            reading(text.take(i - start)).digits == horner(digits@),
            reading(text.take(i - start)).scale == scale,
            reading(text.take(i - start)).pointed == pointed,
        decreases end - i,
    {
        let c = source[i];
        proof {
            let longer = text.take(i + 1 - start);
            assert(longer.drop_last() =~= text.take(i - start));
            assert(longer.last() == c);
        }
        if c == 46 {
            pointed = true;
            scale = 0;
        } else {
            if pointed {
                scale = scale + 1;
            }
            if c >= 48 && c <= 57 {
                let ghost before = digits@;
                digits.push(c - 48);
                proof {
                    assert(digits@.drop_last() =~= before);
                }
            }
        }
        i += 1;
    }
    assert(text.take(end - start) =~= text);
    let num = reversed(&digits);
    let den = power_of_ten(scale);
    proof {
        lemma_pow10_grows(scale as nat, scale as nat);
    }
    convert(&num, &den)
}

} // verus!
