use factorion::factorial::{CalculatedFactorial, Factorial};
use factorion::math::Mantissa;
use num_bigint::BigInt;

#[test]
fn test_factorial_level_string() {
    assert_eq!(Factorial::get_factorial_level_string(1), "The ");
    assert_eq!(Factorial::get_factorial_level_string(2), "Double-");
    assert_eq!(Factorial::get_factorial_level_string(3), "Triple-");
    assert_eq!(
        Factorial::get_factorial_level_string(45),
        "Quinquadragintuple-"
    );
    assert_eq!(Factorial::get_factorial_level_string(50), "50-");
}

#[test]
fn test_factorial_format() {
    let mut acc = String::new();
    let factorial = Factorial {
        number: 5.into(),
        levels: vec![1],
        factorial: CalculatedFactorial::Exact(BigInt::from(120)),
    };
    factorial.format(&mut acc, false).unwrap();
    assert_eq!(acc, "The factorial of 5 is 120 \n\n");

    let mut acc = String::new();
    let factorial = Factorial {
        number: 5.into(),
        levels: vec![-1],
        factorial: CalculatedFactorial::Exact(BigInt::from(120)),
    };
    factorial.format(&mut acc, false).unwrap();
    assert_eq!(acc, "Subfactorial of 5 is 120 \n\n");

    let mut acc = String::new();
    let factorial = Factorial {
        number: 5.into(),
        levels: vec![1],
        factorial: CalculatedFactorial::Approximate(
            Mantissa { units: 120 * 10_000_000_000_000_000 },
            3.into(),
        ),
    };
    factorial.format(&mut acc, false).unwrap();
    assert_eq!(acc, "The factorial of 5 is approximately 1.2 × 10^5 \n\n");

    let mut acc = String::new();
    let factorial = Factorial {
        number: 5.into(),
        levels: vec![1],
        factorial: CalculatedFactorial::ApproximateDigits(3.into()),
    };
    factorial.format(&mut acc, false).unwrap();
    assert_eq!(acc, "The factorial of 5 has approximately 3 digits \n\n");

    let mut acc = String::new();
    let factorial = Factorial {
        number: 5.into(),
        levels: vec![1],
        factorial: CalculatedFactorial::Exact(BigInt::from(120)),
    };
    factorial.format(&mut acc, true).unwrap();
    assert_eq!(acc, "The factorial of 5 is 120 \n\n");
}

#[test]
fn level_strings_outside_the_table() {
    assert_eq!(Factorial::get_factorial_level_string(-1), "Sub");
    assert_eq!(Factorial::get_factorial_level_string(0), "0-");
    assert_eq!(Factorial::get_factorial_level_string(46), "46-");
    assert_eq!(Factorial::get_factorial_level_string(-2), "-2-");
    assert_eq!(Factorial::get_factorial_level_string(i32::MIN), "-2147483648-");
}

#[test]
fn chained_levels_are_named_from_the_last_to_the_first() {
    let mut acc = String::new();
    let factorial = Factorial {
        number: 3.into(),
        levels: vec![1, 2],
        factorial: CalculatedFactorial::Exact(BigInt::from(48)),
    };
    factorial.format(&mut acc, false).unwrap();
    assert_eq!(acc, "Double-factorial of The factorial of 3 is 48 \n\n");
}

#[test]
fn truncate_keeps_short_numbers() {
    let n: BigInt = "1".repeat(102).parse().unwrap();
    assert_eq!(Factorial::truncate(&n, true), "1".repeat(102));
    assert_eq!(Factorial::truncate(&BigInt::from(0), false), "0");
    assert_eq!(Factorial::truncate(&BigInt::from(-7), false), "-7");
}

#[test]
fn truncate_rounds_and_strips_zeros() {
    // 103 digits: 1, 2, then zeros, then a 6 in the place that is rounded on.
    let text = format!("12{}6{}", "0".repeat(99), "3");
    let n: BigInt = text.parse().unwrap();
    assert_eq!(
        Factorial::truncate(&n, true),
        format!("roughly 1.2{}1 × 10^102", "0".repeat(98))
    );
    let text = format!("15{}", "0".repeat(101));
    let n: BigInt = text.parse().unwrap();
    assert_eq!(Factorial::truncate(&n, false), "1.5 × 10^102");
    let text = format!("1{}", "0".repeat(102));
    let n: BigInt = text.parse().unwrap();
    assert_eq!(Factorial::truncate(&n, false), "1 × 10^102");
}

#[test]
fn truncate_carries_through_nines() {
    let n: BigInt = "9".repeat(103).parse().unwrap();
    assert_eq!(Factorial::truncate(&n, false), "1 × 10^102");
    let text = format!("12{}", "9".repeat(101));
    let n: BigInt = text.parse().unwrap();
    assert_eq!(Factorial::truncate(&n, false), "1.3 × 10^102");
}

#[test]
fn small_mantissas_take_from_the_exponent() {
    let factorial = Factorial {
        number: 5.into(),
        levels: vec![1],
        factorial: CalculatedFactorial::Approximate(
            Mantissa { units: 25_000_000_000_000 },
            1.into(),
        ),
    };
    let mut acc = String::new();
    factorial.format(&mut acc, false).unwrap();
    assert_eq!(acc, "The factorial of 5 is approximately 2.5 × 10^-2 \n\n");
}

#[test]
fn too_long_results_are_shortened() {
    let big: BigInt = format!("25{}", "0".repeat(9_999)).parse().unwrap();
    let factorial = Factorial {
        number: 7.into(),
        levels: vec![1],
        factorial: CalculatedFactorial::ApproximateDigits(big.clone()),
    };
    assert!(factorial.is_too_long());
    assert!(factorial.is_aproximate_digits());
    assert!(!factorial.is_approximate());
    let mut acc = String::new();
    factorial.format(&mut acc, false).unwrap();
    assert_eq!(
        acc,
        "The factorial of 7 has approximately 2.5 × 10^10000 digits \n\n"
    );

    let limit: BigInt = format!("1{}", "0".repeat(9_999)).parse().unwrap();
    let factorial = Factorial {
        number: 7.into(),
        levels: vec![1],
        factorial: CalculatedFactorial::Approximate(Mantissa { units: 25_000_000_000_000_000 }, limit),
    };
    assert!(!factorial.is_too_long());
    assert!(factorial.is_approximate());

    let factorial = Factorial {
        number: big,
        levels: vec![1],
        factorial: CalculatedFactorial::Approximate(Mantissa { units: 25_000_000_000_000_000 }, 12.into()),
    };
    let mut acc = String::new();
    factorial.format(&mut acc, false).unwrap();
    assert_eq!(
        acc,
        "The factorial of 2.5 × 10^10000 is approximately 2.5 × 10^12 \n\n"
    );
    let mut acc = String::new();
    factorial.format(&mut acc, true).unwrap();
    assert_eq!(
        acc,
        "The factorial of 2.5 × 10^10000 is approximately 2.5 × 10^(12) \n\n"
    );
}
