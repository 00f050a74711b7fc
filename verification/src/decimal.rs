//! Natural numbers of any size, as decimal digits with the least
//! significant digit first.
use vstd::prelude::*;
use vstd::arithmetic::div_mod::lemma_fundamental_div_mod;
use vstd::arithmetic::power2::{lemma2_to64, lemma_pow2_adds, lemma_pow2_unfold, pow2};

verus! {

/// Ten to the power `n`.
pub open spec fn pow10(n: nat) -> nat
    decreases n,
{
    if n == 0 {
        1
    } else {
        10 * pow10((n - 1) as nat)
    }
}

/// Every element is a digit.
pub open spec fn digits_ok(d: Seq<u8>) -> bool {
    forall|i: int| 0 <= i < d.len() ==> d[i] <= 9
}

/// The number that the digits denote.
pub open spec fn dec_value(d: Seq<u8>) -> nat
    decreases d.len(),
{
    if d.len() == 0 {
        0
    } else {
        dec_value(d.drop_last()) + d.last() as nat * pow10((d.len() - 1) as nat)
    }
}

/// The digit at place `i`; zero above the last digit.
pub open spec fn digit_at(d: Seq<u8>, i: int) -> nat {
    if 0 <= i < d.len() {
        d[i] as nat
    } else {
        0
    }
}

/// The number that the lowest `n` digits denote.
pub open spec fn low(d: Seq<u8>, n: int) -> nat {
    if n >= d.len() {
        dec_value(d)
    } else if n <= 0 {
        0
    } else {
        dec_value(d.take(n))
    }
}

/// Powers of ten are positive and grow with the exponent.
pub proof fn lemma_pow10_grows(a: nat, b: nat)
    requires
        a <= b,
    ensures
        pow10(a) <= pow10(b),
        pow10(a) > 0,
    decreases b,
{
    if a < b {
        lemma_pow10_grows(a, (b - 1) as nat);
    } else if a > 0 {
        lemma_pow10_grows((a - 1) as nat, (a - 1) as nat);
    }
}

/// `n` digits denote a number below ten to the `n`.
pub proof fn lemma_dec_bound(d: Seq<u8>)
    requires
        digits_ok(d),
    ensures
        dec_value(d) < pow10(d.len()),
    decreases d.len(),
{
    if d.len() > 0 {
        lemma_dec_bound(d.drop_last());
        let p = pow10((d.len() - 1) as nat);
        let x = d.last() as nat;
        assert(x * p <= 9 * p) by (nonlinear_arith)
            requires
                x <= 9,
        ;
    }
}

/// One more digit adds that digit at its place.
pub proof fn lemma_low_step(d: Seq<u8>, i: int)
    requires
        0 <= i,
        digits_ok(d),
    ensures
        low(d, i + 1) == low(d, i) + digit_at(d, i) * pow10(i as nat),
        low(d, i) < pow10(i as nat),
{
    if i < d.len() {
        let longer = d.take(i + 1);
        assert(longer.drop_last() =~= d.take(i));
        assert(longer.last() == d[i]);
        if i + 1 == d.len() {
            assert(longer =~= d);
        }
        if i == 0 {
            assert(d.take(0) =~= Seq::<u8>::empty());
        }
        lemma_dec_bound(d.take(i));
    } else {
        lemma_dec_bound(d);
        lemma_pow10_grows(d.len(), i as nat);
    }
}

/// The number that digits denote when the most significant comes first.
pub open spec fn horner(d: Seq<u8>) -> nat
    decreases d.len(),
{
    if d.len() == 0 {
        0
    } else {
        horner(d.drop_last()) * 10 + d.last() as nat
    }
}

/// The digits in the opposite order: from most significant first to least
/// significant first.
pub fn reversed(d: &Vec<u8>) -> (r: Vec<u8>)
    requires
        digits_ok(d@),
    ensures
        digits_ok(r@),
        dec_value(r@) == horner(d@),
{
    let mut out: Vec<u8> = Vec::new();
    let mut j: usize = d.len();
    assert(d@.take(d@.len() as int) =~= d@);
    assert(pow10(0) == 1);
    assert(dec_value(out@) == 0);
    while j > 0
        invariant
            j <= d.len(),
            digits_ok(d@),
            digits_ok(out@),
            out.len() == d.len() - j,
            horner(d@.take(j as int)) * pow10(out.len() as nat) + dec_value(out@) == horner(d@),
        decreases j,
    {
        j -= 1;
        let x = d[j];
        let ghost before = out@;
        proof {
            let longer = d@.take(j + 1);
            assert(longer.drop_last() =~= d@.take(j as int));
            assert(longer.last() == x);
            let h = horner(d@.take(j as int));
            let p = pow10(before.len());
            assert((h * 10 + x) * p == h * (10 * p) + x * p) by (nonlinear_arith);
        }
        out.push(x);
        proof {
            assert(out@.drop_last() =~= before);
            assert(out@.last() == x);
        }
    }
    assert(d@.take(0) =~= Seq::<u8>::empty());
    assert(horner(d@.take(0)) * pow10(out.len() as nat) == 0) by (nonlinear_arith)
        requires
            horner(d@.take(0)) == 0,
    ;
    out
}

/// The product of a number and a factor.
pub fn times(d: &Vec<u8>, k: u64) -> (r: Vec<u8>)
    requires
        digits_ok(d@),
    ensures
        digits_ok(r@),
        dec_value(r@) == dec_value(d@) * k,
{
    let mut out: Vec<u8> = Vec::new();
    let mut carry: u128 = 0;
    let mut i: usize = 0;
    assert(dec_value(out@) == 0);
    assert(low(d@, 0) == 0);
    assert(low(d@, 0) * k == 0) by (nonlinear_arith)
        requires
            low(d@, 0) == 0,
    ;
    while i < d.len()
        invariant
            i <= d.len(),
            digits_ok(d@),
            digits_ok(out@),
            out.len() == i,
            carry <= k,
            dec_value(out@) + carry * pow10(i as nat) == low(d@, i as int) * k,
        decreases d.len() - i,
    {
        let x = d[i];
        assert(x <= 9);
        assert((x as u128) * (k as u128) <= 9 * 0xffff_ffff_ffff_ffff) by (nonlinear_arith)
            requires
                x <= 9,
                k <= 0xffff_ffff_ffff_ffff,
        ;
        assert((x as u128) * (k as u128) <= 9 * k) by (nonlinear_arith)
            requires
                x <= 9,
        ;
        let current: u128 = (x as u128) * (k as u128) + carry;
        let digit = (current % 10) as u8;
        let ghost before = out@;
        proof {
            lemma_low_step(d@, i as int);
            lemma_fundamental_div_mod(current as int, 10);
            let p = pow10(i as nat);
            let l = low(d@, i as int);
            assert((l + x * p) * k == l * k + (x * k) * p) by (nonlinear_arith);
            assert((10 * (current / 10) + (current % 10)) * p == (current / 10) * (10 * p) + (
            current % 10) * p) by (nonlinear_arith);
            assert(((x * k) + carry) * p == (x * k) * p + carry * p) by (nonlinear_arith);
        }
        out.push(digit);
        proof {
            assert(out@.drop_last() =~= before);
        }
        carry = current / 10;
        i += 1;
    }
    while carry > 0
        invariant
            digits_ok(out@),
            dec_value(out@) + carry * pow10(out.len() as nat) == dec_value(d@) * k,
        decreases carry,
    {
        let digit = (carry % 10) as u8;
        let ghost before = out@;
        proof {
            lemma_fundamental_div_mod(carry as int, 10);
            let p = pow10(before.len());
            assert((10 * (carry / 10) + (carry % 10)) * p == (carry / 10) * (10 * p) + (carry % 10)
                * p) by (nonlinear_arith);
        }
        out.push(digit);
        proof {
            assert(out@.drop_last() =~= before);
        }
        carry = carry / 10;
    }
    out
}

/// Whether the first number is at most the second.
pub fn at_most(a: &Vec<u8>, b: &Vec<u8>) -> (r: bool)
    requires
        digits_ok(a@),
        digits_ok(b@),
    ensures
        r == (dec_value(a@) <= dec_value(b@)),
{
    let mut i: usize = if a.len() > b.len() {
        a.len()
    } else {
        b.len()
    };
    while i > 0
        invariant
            digits_ok(a@),
            digits_ok(b@),
            (dec_value(a@) <= dec_value(b@)) == (low(a@, i as int) <= low(b@, i as int)),
        decreases i,
    {
        i -= 1;
        let x = if i < a.len() {
            a[i]
        } else {
            0
        };
        let y = if i < b.len() {
            b[i]
        } else {
            0
        };
        proof {
            lemma_low_step(a@, i as int);
            lemma_low_step(b@, i as int);
            let p = pow10(i as nat);
            if x < y {
                assert((x + 1) * p <= y * p) by (nonlinear_arith)
                    requires
                        x < y,
                ;
                assert((x + 1) * p == x * p + p) by (nonlinear_arith);
            }
            if y < x {
                assert((y + 1) * p <= x * p) by (nonlinear_arith)
                    requires
                        y < x,
                ;
                assert((y + 1) * p == y * p + p) by (nonlinear_arith);
            }
        }
        if x < y {
            return true;
        }
        if y < x {
            return false;
        }
    }
    true
}

/// Ten to the power `n`, as digits.
pub fn power_of_ten(n: usize) -> (r: Vec<u8>)
    ensures
        digits_ok(r@),
        dec_value(r@) == pow10(n as nat),
{
    let mut out: Vec<u8> = Vec::new();
    let mut i: usize = 0;
    while i < n
        invariant
            i <= n,
            out.len() == i,
            digits_ok(out@),
            dec_value(out@) == 0,
        decreases n - i,
    {
        let ghost before = out@;
        out.push(0);
        assert(out@.drop_last() =~= before);
        assert(out@.last() == 0);
        i += 1;
    }
    let ghost before = out@;
    out.push(1);
    assert(out@.drop_last() =~= before);
    assert(out@.last() == 1);
    out
}

/// The sum of two numbers.
pub fn plus(a: &Vec<u8>, b: &Vec<u8>) -> (r: Vec<u8>)
    requires
        digits_ok(a@),
        digits_ok(b@),
    ensures
        digits_ok(r@),
        dec_value(r@) == dec_value(a@) + dec_value(b@),
{
    let n = if a.len() > b.len() {
        a.len()
    } else {
        b.len()
    };
    let mut out: Vec<u8> = Vec::new();
    let mut carry: u8 = 0;
    let mut i: usize = 0;
    assert(dec_value(out@) == 0);
    assert(pow10(0) == 1);
    while i < n
        invariant
            i <= n,
            n >= a.len(),
            n >= b.len(),
            digits_ok(a@),
            digits_ok(b@),
            digits_ok(out@),
            out.len() == i,
            carry <= 1,
            dec_value(out@) + carry * pow10(i as nat) == low(a@, i as int) + low(b@, i as int),
        decreases n - i,
    {
        let x = if i < a.len() {
            a[i]
        } else {
            0
        };
        let y = if i < b.len() {
            b[i]
        } else {
            0
        };
        let current = x + y + carry;
        let digit = if current >= 10 {
            current - 10
        } else {
            current
        };
        let ghost before = out@;
        proof {
            lemma_low_step(a@, i as int);
            lemma_low_step(b@, i as int);
            let p = pow10(i as nat);
            assert(x * p + y * p + carry * p == (x + y + carry) * p) by (nonlinear_arith);
            if current >= 10 {
                assert((x + y + carry) * p == (current - 10) * p + 1 * (10 * p))
                    by (nonlinear_arith)
                    requires
                        current == x + y + carry,
                ;
            } else {
                assert(0 * (10 * p) == 0) by (nonlinear_arith);
            }
        }
        out.push(digit);
        proof {
            assert(out@.drop_last() =~= before);
            assert(out@.last() == digit);
        }
        carry = if current >= 10 {
            1
        } else {
            0
        };
        i += 1;
    }
    let ghost before = out@;
    out.push(carry);
    proof {
        assert(out@.drop_last() =~= before);
        assert(out@.last() == carry);
    }
    out
}

/// The difference of two numbers, the second at most the first.
pub fn minus(a: &Vec<u8>, b: &Vec<u8>) -> (r: Vec<u8>)
    requires
        digits_ok(a@),
        digits_ok(b@),
        dec_value(b@) <= dec_value(a@),
    ensures
        digits_ok(r@),
        dec_value(r@) == dec_value(a@) - dec_value(b@),
{
    let n = if a.len() > b.len() {
        a.len()
    } else {
        b.len()
    };
    let mut out: Vec<u8> = Vec::new();
    let mut borrow: u8 = 0;
    let mut i: usize = 0;
    assert(dec_value(out@) == 0);
    assert(pow10(0) == 1);
    while i < n
        invariant
            i <= n,
            n >= a.len(),
            n >= b.len(),
            digits_ok(a@),
            digits_ok(b@),
            digits_ok(out@),
            out.len() == i,
            borrow <= 1,
            dec_value(out@) + low(b@, i as int) == low(a@, i as int) + borrow * pow10(i as nat),
        decreases n - i,
    {
        let x = if i < a.len() {
            a[i]
        } else {
            0
        };
        let y = if i < b.len() {
            b[i]
        } else {
            0
        };
        let taken = y + borrow;
        let digit = if x >= taken {
            x - taken
        } else {
            x + 10 - taken
        };
        let ghost before = out@;
        proof {
            lemma_low_step(a@, i as int);
            lemma_low_step(b@, i as int);
            let p = pow10(i as nat);
            if x >= taken {
                assert((x - taken) * p + y * p + borrow * p == x * p) by (nonlinear_arith)
                    requires
                        taken == y + borrow,
                        x >= taken,
                ;
                assert(0 * (10 * p) == 0) by (nonlinear_arith);
            } else {
                assert((x + 10 - taken) * p + y * p + borrow * p == x * p + 1 * (10 * p))
                    by (nonlinear_arith)
                    requires
                        taken == y + borrow,
                        x + 10 >= taken,
                ;
            }
        }
        out.push(digit);
        proof {
            assert(out@.drop_last() =~= before);
            assert(out@.last() == digit);
        }
        borrow = if x >= taken {
            0
        } else {
            1
        };
        i += 1;
    }
    proof {
        // A borrow out of the top would make the difference negative.
        lemma_dec_bound(out@);
        let p = pow10(n as nat);
        if borrow == 1 {
            assert(1 * p == p) by (nonlinear_arith);
            assert(false);
        }
        assert(0 * p == 0) by (nonlinear_arith);
    }
    out
}

/// The product of a number and a power of two.
pub fn doubled(d: &Vec<u8>, k: usize) -> (r: Vec<u8>)
    requires
        digits_ok(d@),
    ensures
        digits_ok(r@),
        dec_value(r@) == dec_value(d@) * pow2(k as nat),
{
    let mut out = times(d, 1);
    let mut done: usize = 0;
    proof {
        lemma2_to64();
        assert(dec_value(d@) * 1 == dec_value(d@) * pow2(0));
    }
    while done < k
        invariant
            done <= k,
            digits_ok(out@),
            dec_value(out@) == dec_value(d@) * pow2(done as nat),
        decreases k - done,
    {
        if k - done >= 32 {
            proof {
                lemma2_to64();
                lemma_pow2_adds(done as nat, 32);
                assert(dec_value(d@) * (pow2(done as nat) * 0x1_0000_0000) == (dec_value(d@)
                    * pow2(done as nat)) * 0x1_0000_0000) by (nonlinear_arith);
            }
            out = times(&out, 0x1_0000_0000);
            done += 32;
        } else {
            proof {
                lemma_pow2_unfold((done + 1) as nat);
                assert(dec_value(d@) * (2 * pow2(done as nat)) == (dec_value(d@) * pow2(
                    done as nat,
                )) * 2) by (nonlinear_arith);
            }
            out = times(&out, 2);
            done += 1;
        }
    }
    out
}

} // verus!
