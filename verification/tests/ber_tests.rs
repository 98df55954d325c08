use modem_core::ber::{count_bit_errors, count_symbol_errors, ErrorTally};

fn rate(t: ErrorTally) -> f64 {
    if t.total == 0 {
        0.0
    } else {
        t.errors as f64 / t.total as f64
    }
}

#[test]
fn test_ber_zero_errors() {
    let tx = [1, 0, 1, 1, 0];
    let rx = [1, 0, 1, 1, 0];
    let t = count_bit_errors(&tx, &rx);
    assert_eq!(t, ErrorTally { errors: 0, total: 5 });
    assert!(t.is_error_free());
    assert!((rate(t) - 0.0).abs() < 1e-14);
}

#[test]
fn test_ber_all_errors() {
    let tx = [1, 0, 1, 0];
    let rx = [0, 1, 0, 1];
    let t = count_bit_errors(&tx, &rx);
    assert_eq!(t, ErrorTally { errors: 4, total: 4 });
    assert!((rate(t) - 1.0).abs() < 1e-14);
}

#[test]
fn test_ber_half_errors() {
    let tx = [1, 0, 1, 0];
    let rx = [0, 0, 1, 1];
    let t = count_bit_errors(&tx, &rx);
    assert_eq!(t, ErrorTally { errors: 2, total: 4 });
    assert!((rate(t) - 0.5).abs() < 1e-14);
}

#[test]
fn test_ber_empty() {
    let t = count_bit_errors(&[], &[]);
    assert_eq!(t, ErrorTally { errors: 0, total: 0 });
    assert!(t.is_error_free());
    assert!((rate(t) - 0.0).abs() < 1e-14);
}

#[test]
fn test_ser_compute() {
    let tx = [0u32, 1, 2, 3];
    let rx = [0u32, 1, 2, 0];
    let t = count_symbol_errors(&tx, &rx);
    assert_eq!(t, ErrorTally { errors: 1, total: 4 });
    assert!((rate(t) - 0.25).abs() < 1e-14);
}

#[test]
fn bit_errors_count_any_differing_value() {
    // A received value of 2 differs from a transmitted 1 just as a 0 would.
    let t = count_bit_errors(&[1, 1, 0], &[2, 1, 0]);
    assert_eq!(t, ErrorTally { errors: 1, total: 3 });
    assert!(!t.is_error_free());
}

#[test]
fn bit_errors_are_symmetric() {
    let a = [1, 0, 0, 1, 1, 0, 1];
    let b = [1, 1, 0, 0, 1, 0, 0];
    assert_eq!(count_bit_errors(&a, &b), count_bit_errors(&b, &a));
    assert_eq!(count_bit_errors(&a, &b).errors, 3);
}

#[test]
fn bit_errors_add_over_blocks() {
    let a1 = [1, 0, 1];
    let b1 = [0, 0, 1];
    let a2 = [1, 1];
    let b2 = [0, 0];
    let whole = count_bit_errors(&[1, 0, 1, 1, 1], &[0, 0, 1, 0, 0]);
    assert_eq!(
        whole.errors,
        count_bit_errors(&a1, &b1).errors + count_bit_errors(&a2, &b2).errors
    );
    assert_eq!(whole.errors, 3);
}

#[test]
fn symbol_errors_bounded_by_length() {
    let t = count_symbol_errors(&[7, 8, 9], &[9, 8, 7]);
    assert_eq!(t, ErrorTally { errors: 2, total: 3 });
    assert!(t.errors <= t.total);
}
