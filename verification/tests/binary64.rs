//! Double-precision arithmetic against that of the machine.

use llmfit::binary64::Binary64;

fn number(x: f64) -> Binary64 {
    Binary64::from_bits(x.to_bits())
}

/// Patterns of every exponent, the extremes among them.
fn patterns(count: usize) -> Vec<f64> {
    let mut values = vec![
        0.0,
        1.0,
        0.1,
        0.3,
        100.0,
        16000.0,
        f64::MAX,
        f64::MIN_POSITIVE,
        f64::from_bits(1),
        f64::from_bits(0x000f_ffff_ffff_ffff),
        f64::INFINITY,
    ];
    let mut state: u64 = 0x9e37_79b9_7f4a_7c15;
    while values.len() < count {
        state = state.wrapping_mul(6364136223846793005).wrapping_add(1442695040888963407);
        let x = f64::from_bits((state ^ (state >> 29)) & 0x7fff_ffff_ffff_ffff);
        if x.is_finite() {
            values.push(x);
        }
    }
    values
}

/// Patterns close to each other, where rounding ties happen.
fn close_patterns() -> Vec<f64> {
    let mut values = Vec::new();
    for shift in [0i32, 1, 2, 50, 51, 52, 53, 54, 55] {
        for m in [1u64, 3, 5, (1 << 52) + 1, (1 << 53) - 1, (1 << 53) - 3] {
            values.push(m as f64 * 2f64.powi(shift));
        }
    }
    values
}

#[test]
fn sums_round_as_the_machine_does() {
    let values = patterns(40);
    for &a in &values {
        for &b in &values {
            let got = number(a).plus(number(b)).to_bits();
            assert_eq!(got, (a + b).to_bits(), "{a} + {b}");
        }
    }
    let near = close_patterns();
    for &a in &near {
        for &b in &near {
            assert_eq!(number(a).plus(number(b)).to_bits(), (a + b).to_bits(), "{a} + {b}");
        }
    }
}

#[test]
fn sums_of_zeros_keep_their_sign() {
    for a in [0.0, -0.0] {
        for b in [0.0, -0.0] {
            assert_eq!(number(a).plus(number(b)).to_bits(), (a + b).to_bits());
        }
    }
    assert_eq!(number(-0.0).plus(number(2.5)).to_bits(), 2.5f64.to_bits());
}

#[test]
fn products_round_as_the_machine_does() {
    let values = patterns(30);
    for &a in &values {
        for &b in &values {
            if b.is_finite() && b > 0.0 {
                assert_eq!(number(a).times(number(b)).to_bits(), (a * b).to_bits(), "{a} * {b}");
            }
        }
    }
}

#[test]
fn quotients_round_as_the_machine_does() {
    let values = patterns(26);
    for &a in &values {
        for &b in &values {
            if b.is_finite() && b > 0.0 {
                assert_eq!(number(a).over(number(b)).to_bits(), (a / b).to_bits(), "{a} / {b}");
            }
        }
    }
}

#[test]
fn differences_round_as_the_machine_does() {
    for h in 0..100u32 {
        let free = f64::from(h) / 100.0;
        assert_eq!(Binary64::from_ratio(u64::from(h), 100).to_bits(), free.to_bits());
        assert_eq!(
            number(1.0).minus(number(free)).to_bits(),
            (1.0 - free).to_bits(),
            "1 - {free}"
        );
    }
    let near = close_patterns();
    for &a in &near {
        for &b in &near {
            if b <= a {
                assert_eq!(number(a).minus(number(b)).to_bits(), (a - b).to_bits(), "{a} - {b}");
            }
        }
    }
}

#[test]
fn numbers_are_ordered_as_the_machine_orders_them() {
    let mut values = patterns(30);
    let negative: Vec<f64> = values.iter().map(|x| -x).collect();
    values.extend(negative);
    values.push(f64::NAN);
    values.push(-f64::NAN);
    for &a in &values {
        assert_eq!(number(a).finite(), a.is_finite());
        assert_eq!(number(a).finite_amount(), a.is_finite() && a >= 0.0);
        for &b in &values {
            assert_eq!(number(a).at_most(number(b)), a <= b, "{a} <= {b}");
            assert_eq!(number(a).below(number(b)), a < b, "{a} < {b}");
            assert_eq!(number(a) == number(b), a == b, "{a} == {b}");
        }
        for n in [0u32, 1, 256, 16000, u32::MAX] {
            assert_eq!(number(a).at_most_whole(n), a <= f64::from(n), "{a} <= {n}");
        }
    }
}

#[test]
fn more_is_never_less() {
    let values = patterns(12);
    for &a in &values {
        for &b in &values {
            let s = number(a).plus(number(b));
            assert!(number(a).at_most(s) && number(b).at_most(s));
        }
    }
}
