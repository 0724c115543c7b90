use pandigrid::row::{Cell, Row};

#[test]
fn from_number_keeps_last_nine_digits() {
    let r = Row::from(123_456_789);
    for col in 0..9 {
        assert_eq!(r.cell(col), Cell::Number((col + 1) as u8));
    }
}

#[test]
fn from_number_pads_with_zeros() {
    let r = Row::from(21);
    for col in 0..7 {
        assert_eq!(r.cell(col), Cell::Number(0));
    }
    assert_eq!(r.cell(7), Cell::Number(2));
    assert_eq!(r.cell(8), Cell::Number(1));
}

#[test]
fn from_zero_is_all_zero_digits() {
    let r = Row::from(0);
    for col in 0..9 {
        assert_eq!(r.cell(col), Cell::Number(0));
    }
}

#[test]
fn from_ceiling_value() {
    let r = Row::from(999_999_999);
    for col in 0..9 {
        assert_eq!(r.cell(col), Cell::Number(9));
    }
}

#[test]
fn cell_from_wraps_digit() {
    assert_eq!(Cell::from(5), Cell::Number(5));
    assert_eq!(Cell::from(0), Cell::Number(0));
}

#[test]
fn distinct_digits_are_valid() {
    assert!(Row::from(123_456_789).is_valid());
}

#[test]
fn repeated_digit_is_invalid() {
    assert!(!Row::from(112_345_678).is_valid());
}

#[test]
fn all_unknown_row_is_valid() {
    assert!(Row::empty().is_valid());
}

#[test]
fn missing_digit_of_one_through_nine_is_zero() {
    assert_eq!(Row::from(123_456_789).get_missing(), 0);
}

#[test]
fn missing_digit_in_the_middle() {
    // Digits 9,8,7,6,5,4,3,2,0: only 1 is absent.
    assert_eq!(Row::from(987_654_320).get_missing(), 1);
}

#[test]
fn set_replaces_one_cell() {
    let mut r = Row::empty();
    r.set(3, Cell::Number(7));
    assert_eq!(r.cell(3), Cell::Number(7));
    assert_eq!(r.cell(2), Cell::Unknown);
    assert_eq!(r.cell(4), Cell::Unknown);
}

#[test]
fn anchor_match_accepts_fit() {
    let mut anchored = Row::empty();
    anchored.set(7, Cell::Number(2));
    // Column 7 of 000000020 carries digit 2.
    assert!(anchored.does_row_fit(&Row::from(20)));
}

#[test]
fn anchor_mismatch_rejects_fit() {
    let mut anchored = Row::empty();
    anchored.set(7, Cell::Number(2));
    // Column 7 of 123456789 carries digit 8, not 2.
    assert!(!anchored.does_row_fit(&Row::from(123_456_789)));
}

#[test]
fn unknown_cells_never_block_a_fit() {
    let unconstrained = Row::empty();
    assert!(unconstrained.does_row_fit(&Row::from(123_456_789)));
    assert!(unconstrained.does_row_fit(&Row::from(0)));
    assert!(unconstrained.does_row_fit(&Row::empty()));
}

#[test]
fn anchor_against_unknown_cell_rejects_fit() {
    let mut anchored = Row::empty();
    anchored.set(0, Cell::Number(1));
    assert!(!anchored.does_row_fit(&Row::empty()));
}
