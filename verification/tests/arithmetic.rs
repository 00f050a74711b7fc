use tensor_vm::arithmetic::{number_add, number_divide, number_multiply, number_subtract};

fn samples() -> Vec<f64> {
    let mut values = vec![
        0.0,
        -0.0,
        1.0,
        -1.0,
        2.0,
        3.0,
        0.5,
        0.1,
        0.2,
        0.3,
        1.5,
        -2.5,
        10.0,
        1024.0,
        1e-5,
        1e10,
        1e22,
        1e23,
        1e100,
        1e-100,
        1e300,
        -1e300,
        1e-300,
        f64::MAX,
        f64::MIN,
        f64::MIN_POSITIVE,
        -f64::MIN_POSITIVE,
        f64::EPSILON,
        5e-324,
        -5e-324,
        1.5e-323,
        2.2250738585072009e-308,
        9007199254740992.0,
        9007199254740993.0,
        9007199254740994.0,
        1.0000000000000002,
        0.9999999999999999,
        f64::INFINITY,
        f64::NEG_INFINITY,
        f64::NAN,
    ];
    let mut state: u64 = 0x9e37_79b9_7f4a_7c15;
    for _ in 0..4 {
        state = state.wrapping_mul(6364136223846793005).wrapping_add(1442695040888963407);
        values.push(f64::from_bits(state));
        state = state.wrapping_mul(6364136223846793005).wrapping_add(1442695040888963407);
        let near_one = 0x3ff0_0000_0000_0000 ^ (state >> 12);
        values.push(f64::from_bits(near_one));
    }
    values
}

fn same(got: u64, expected: f64, what: &str, a: f64, b: f64) {
    if expected.is_nan() {
        assert_eq!(got, 0x7ff8_0000_0000_0000, "{} {} {}", a, what, b);
    } else {
        assert_eq!(got, expected.to_bits(), "{} {} {}", a, what, b);
    }
}

#[test]
fn sums_agree_with_the_hardware() {
    for a in samples() {
        for b in samples() {
            same(number_add(a.to_bits(), b.to_bits()), a + b, "+", a, b);
        }
    }
}

#[test]
fn differences_agree_with_the_hardware() {
    for a in samples() {
        for b in samples() {
            same(number_subtract(a.to_bits(), b.to_bits()), a - b, "-", a, b);
        }
    }
}

#[test]
fn products_agree_with_the_hardware() {
    for a in samples() {
        for b in samples() {
            same(number_multiply(a.to_bits(), b.to_bits()), a * b, "*", a, b);
        }
    }
}

#[test]
fn quotients_agree_with_the_hardware() {
    for a in samples() {
        for b in samples() {
            same(number_divide(a.to_bits(), b.to_bits()), a / b, "/", a, b);
        }
    }
}

#[test]
fn exact_results() {
    assert_eq!(number_add(2.0f64.to_bits(), 3.0f64.to_bits()), 5.0f64.to_bits());
    assert_eq!(number_add(0.1f64.to_bits(), 0.2f64.to_bits()), 0.30000000000000004f64.to_bits());
    assert_eq!(number_subtract(1.0f64.to_bits(), 1.0f64.to_bits()), 0);
    assert_eq!(number_subtract((-0.0f64).to_bits(), 0.0f64.to_bits()), (-0.0f64).to_bits());
    assert_eq!(number_multiply(6.0f64.to_bits(), 7.0f64.to_bits()), 42.0f64.to_bits());
    assert_eq!(number_multiply((-0.0f64).to_bits(), 5.0f64.to_bits()), (-0.0f64).to_bits());
    assert_eq!(number_divide(1.0f64.to_bits(), 3.0f64.to_bits()), 0x3fd5_5555_5555_5555);
    assert_eq!(number_divide(1.0f64.to_bits(), 0.0f64.to_bits()), f64::INFINITY.to_bits());
    assert_eq!(number_divide((-1.0f64).to_bits(), 0.0f64.to_bits()), f64::NEG_INFINITY.to_bits());
    assert_eq!(number_divide(0.0f64.to_bits(), 0.0f64.to_bits()), 0x7ff8_0000_0000_0000);
    assert_eq!(number_multiply(f64::MAX.to_bits(), 2.0f64.to_bits()), f64::INFINITY.to_bits());
    assert_eq!(number_multiply(5e-324f64.to_bits(), 0.5f64.to_bits()), 0);
    assert_eq!(number_multiply(5e-324f64.to_bits(), 0.75f64.to_bits()), 1);
}
