use factorion::math::{
    adjust_approximate_factorial, factorial, format_approximate_factorial, round, subfactorial,
    Mantissa, MANTISSA_ONE,
};
use num_bigint::BigInt;

fn rounded(s: &str) -> String {
    let mut number = s.to_string();
    round(&mut number);
    number
}

#[test]
fn factorial_of_five_is_120() {
    assert_eq!(factorial(5, 1), BigInt::from(120));
}

#[test]
fn factorial_is_the_product_from_one_up() {
    let mut product = BigInt::from(1);
    for n in 1..=60u64 {
        product *= n;
        assert_eq!(factorial(n, 1), product);
    }
    assert_eq!(factorial(0, 1), BigInt::from(1));
    assert_eq!(factorial(1, 1), BigInt::from(1));
    assert_eq!(
        factorial(25, 1),
        "15511210043330985984000000".parse::<BigInt>().unwrap()
    );
}

#[test]
fn multifactorial_steps_down_by_its_level() {
    assert_eq!(factorial(6, 2), BigInt::from(48));
    assert_eq!(factorial(6, 3), BigInt::from(18));
    assert_eq!(factorial(10, 3), BigInt::from(280));
    assert_eq!(factorial(7, 2), BigInt::from(105));
    assert_eq!(factorial(5, 5), BigInt::from(5));
    assert_eq!(factorial(5, 9), BigInt::from(5));
    assert_eq!(factorial(0, 4), BigInt::from(1));
    for n in 0..40u64 {
        for k in 1..8u64 {
            let mut product = BigInt::from(1);
            let mut term = n;
            while term > 0 {
                product *= term;
                term = term.saturating_sub(k);
            }
            assert_eq!(factorial(n, k), product);
        }
    }
}

#[test]
fn subfactorial_counts_derangements() {
    let expected: [u64; 11] = [1, 0, 1, 2, 9, 44, 265, 1854, 14833, 133496, 1334961];
    for (n, value) in expected.iter().enumerate() {
        assert_eq!(subfactorial(n as u64), BigInt::from(*value));
    }
    assert_eq!(
        subfactorial(25),
        "5706255282633466762357224".parse::<BigInt>().unwrap()
    );
}

#[test]
fn round_drops_the_last_digit() {
    assert_eq!(rounded("1929472373"), "192947237");
    assert_eq!(rounded("74836748625"), "7483674863");
    assert_eq!(rounded("124"), "12");
    assert_eq!(rounded("125"), "13");
    assert_eq!(rounded("0"), "");
    assert_eq!(rounded("5"), "1");
    assert_eq!(rounded(""), "");
}

#[test]
fn round_carries_through_nines() {
    assert_eq!(rounded("999"), "100");
    assert_eq!(rounded("995"), "100");
    assert_eq!(rounded("994"), "99");
    assert_eq!(rounded("24999999995"), "2500000000");
    assert_eq!(rounded("1995"), "200");
    assert_eq!(rounded("0995"), "100");
}

#[test]
fn round_divides_by_ten_rounding_half_up() {
    for n in 0..3000u64 {
        let text = format!("{n:04}");
        let expected = (n + 5) / 10;
        let result = rounded(&text);
        assert_eq!(result.parse::<u64>().unwrap(), expected);
        assert_eq!(result.len(), if expected >= 1000 { 4 } else { 3 });
    }
}

#[test]
fn adjust_brings_the_mantissa_below_ten() {
    let one = MANTISSA_ONE;
    assert_eq!(
        adjust_approximate_factorial((Mantissa { units: 10 * one }, 4)),
        (Mantissa { units: one }, 5)
    );
    assert_eq!(
        adjust_approximate_factorial((Mantissa { units: 120 * one }, 3)),
        (Mantissa { units: 12 * one / 10 }, 5)
    );
    assert_eq!(
        adjust_approximate_factorial((Mantissa { units: 1234 * one + 5678 }, 0)),
        (Mantissa { units: 1234 * (one / 1000) + 5 }, 3)
    );
    assert_eq!(
        adjust_approximate_factorial((Mantissa { units: 10 * one - 1 }, 7)),
        (Mantissa { units: 10 * one - 1 }, 7)
    );
    assert_eq!(
        adjust_approximate_factorial((Mantissa { units: one / 2 }, 7)),
        (Mantissa { units: 5 * one }, 6)
    );
    assert_eq!(
        adjust_approximate_factorial((Mantissa { units: one / 200 }, 1)),
        (Mantissa { units: one / 20 }, 0)
    );
    assert_eq!(
        adjust_approximate_factorial((Mantissa { units: 3 }, 20)),
        (Mantissa { units: 3 * one }, 4)
    );
    assert_eq!(
        adjust_approximate_factorial((Mantissa { units: 0 }, 20)),
        (Mantissa { units: 0 }, 20)
    );
    assert_eq!(
        adjust_approximate_factorial((Mantissa { units: one - 1 }, 0)),
        (Mantissa { units: one - 1 }, 0)
    );
    assert_eq!(
        adjust_approximate_factorial((Mantissa { units: 100 * one }, u64::MAX - 1)),
        (Mantissa { units: one }, u64::MAX)
    );
    assert_eq!(
        adjust_approximate_factorial((Mantissa { units: u64::MAX }, 0)),
        (Mantissa { units: u64::MAX / 1000 }, 3)
    );
}

#[test]
fn approximations_are_written_with_an_e() {
    let one = MANTISSA_ONE;
    assert_eq!(format_approximate_factorial((Mantissa { units: one }, 0)), "1e0");
    assert_eq!(
        format_approximate_factorial((Mantissa { units: 12 * one / 10 }, 5)),
        "1.2e5"
    );
    assert_eq!(
        format_approximate_factorial((Mantissa { units: 26_525_285_981_219_103 }, 456573)),
        "2.6525285981219103e456573"
    );
    assert_eq!(
        format_approximate_factorial((Mantissa { units: 10_000_000_000_000_001 }, 1)),
        "1.0000000000000001e1"
    );
    assert_eq!(
        format_approximate_factorial((Mantissa { units: 50_000_000_000 }, 18446744073709551615)),
        "0.000005e18446744073709551615"
    );
    assert_eq!(
        format_approximate_factorial((Mantissa { units: 123 * one + one / 4 }, 2)),
        "123.25e2"
    );
    assert_eq!(format_approximate_factorial((Mantissa { units: 0 }, 2)), "0e2");
}
