use hodge_belief::error::{push_decimal, HodgeError};
use hodge_belief::hodge::validate_signal;

#[test]
fn messages() {
    assert_eq!(HodgeError::EmptyMatrix.message(), "empty matrix");
    assert_eq!(HodgeError::SingularMatrix.message(), "singular matrix");
    assert_eq!(
        HodgeError::DimensionMismatch { expected: 4, actual: 10 }.message(),
        "dimension mismatch: expected 4, got 10"
    );
    assert_eq!(
        HodgeError::NoConvergence(100).message(),
        "no convergence after 100 iterations"
    );
}

#[test]
fn decimal_digits() {
    let mut s = String::from("n=");
    push_decimal(&mut s, 0);
    assert_eq!(s, "n=0");
    let mut t = String::new();
    push_decimal(&mut t, 1203);
    assert_eq!(t, "1203");
    let mut u = String::new();
    push_decimal(&mut u, usize::MAX);
    assert_eq!(u, usize::MAX.to_string());
}

#[test]
fn validate_signal_errors() {
    assert_eq!(validate_signal(0, 0), Err(HodgeError::EmptyMatrix));
    assert_eq!(validate_signal(0, 3), Err(HodgeError::EmptyMatrix));
    assert_eq!(
        validate_signal(4, 3),
        Err(HodgeError::DimensionMismatch { expected: 4, actual: 3 })
    );
    assert_eq!(validate_signal(4, 4), Ok(()));
}

#[test]
fn errors_compare_by_value() {
    let e = HodgeError::DimensionMismatch { expected: 2, actual: 5 };
    assert_eq!(e.clone(), e);
    assert_ne!(e, HodgeError::DimensionMismatch { expected: 5, actual: 2 });
}
