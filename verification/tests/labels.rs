use bfjit::labels::{decimal_string, label_name, Nesting};

#[test]
fn numbers_are_written_in_decimal_digits() {
    assert_eq!(decimal_string(0), "0");
    assert_eq!(decimal_string(7), "7");
    assert_eq!(decimal_string(9), "9");
    assert_eq!(decimal_string(10), "10");
    assert_eq!(decimal_string(42), "42");
    assert_eq!(decimal_string(100), "100");
    assert_eq!(decimal_string(4096), "4096");
    assert_eq!(decimal_string(1234567890), "1234567890");
    assert_eq!(decimal_string(usize::MAX), usize::MAX.to_string());
}

#[test]
fn a_label_names_bracket_depth_and_number() {
    assert_eq!(label_name(true, 1, 1), "[1_1");
    assert_eq!(label_name(false, 1, 1), "]1_1");
    assert_eq!(label_name(true, 2, 5), "[2_5");
    assert_eq!(label_name(false, 12, 345), "]12_345");
    assert_eq!(label_name(true, 0, 0), "[0_0");
}

#[test]
fn labels_that_share_their_digits_differ() {
    assert_ne!(label_name(true, 1, 23), label_name(true, 12, 3));
    assert_ne!(label_name(true, 11, 1), label_name(true, 1, 11));
    assert_ne!(label_name(true, 1, 1), label_name(false, 1, 1));
}

#[test]
fn counting_starts_at_depth_zero() {
    let nesting = Nesting::new();
    assert_eq!(nesting.depth, 0);
    assert_eq!(nesting.ids, vec![0]);
}
