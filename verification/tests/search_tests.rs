use pandigrid::row::{Cell, Row};
use pandigrid::search::{candidate_is_eligible, group_by_missing, valid_rows, MAX_FACTOR};

fn digits_of(r: &Row) -> Vec<u8> {
    (0..9)
        .map(|col| match r.cell(col) {
            Cell::Number(d) => d,
            Cell::Unknown => panic!("enumerated rows have all digits known"),
        })
        .collect()
}

#[test]
fn only_odd_candidates_are_eligible() {
    assert!(candidate_is_eligible(3));
    assert!(candidate_is_eligible(123_456_789));
    assert!(!candidate_is_eligible(4));
    assert!(!candidate_is_eligible(0));
}

#[test]
fn small_candidate_has_no_valid_rows() {
    // Multiples of 21 up to 200 all start with seven zero digits, so every
    // row repeats the digit 0 and none is valid.
    let rows = valid_rows(21, 200);
    assert_eq!(rows.len(), 0);
}

#[test]
fn small_candidate_buckets_are_all_empty() {
    let rows = valid_rows(21, 200);
    let groups = group_by_missing(rows);
    assert_eq!(groups.len(), 10);
    for bucket in &groups {
        assert_eq!(bucket.len(), 0);
    }
}

#[test]
fn ceiling_candidate_emits_exactly_one_row() {
    // Only multiplier 1 stays within the ceiling.
    let rows = valid_rows(987_654_321, MAX_FACTOR);
    assert_eq!(rows.len(), 1);
    assert_eq!(digits_of(&rows[0]), vec![9, 8, 7, 6, 5, 4, 3, 2, 1]);
}

#[test]
fn large_candidate_valid_rows_in_multiplier_order() {
    // Multipliers 1..=8 of 123456789 stay within the ceiling; of those,
    // 3, 6 repeat digits, leaving six valid rows in multiplier order.
    let rows = valid_rows(123_456_789, MAX_FACTOR);
    assert_eq!(rows.len(), 6);
    assert_eq!(digits_of(&rows[0]), vec![1, 2, 3, 4, 5, 6, 7, 8, 9]);
    assert_eq!(digits_of(&rows[1]), vec![2, 4, 6, 9, 1, 3, 5, 7, 8]);
    assert_eq!(digits_of(&rows[2]), vec![4, 9, 3, 8, 2, 7, 1, 5, 6]);
    assert_eq!(digits_of(&rows[3]), vec![6, 1, 7, 2, 8, 3, 9, 4, 5]);
    assert_eq!(digits_of(&rows[4]), vec![8, 6, 4, 1, 9, 7, 5, 2, 3]);
    assert_eq!(digits_of(&rows[5]), vec![9, 8, 7, 6, 5, 4, 3, 1, 2]);
}

#[test]
fn large_candidate_rows_all_miss_zero() {
    let rows = valid_rows(123_456_789, MAX_FACTOR);
    let count = rows.len();
    let groups = group_by_missing(rows);
    assert_eq!(groups.len(), 10);
    assert_eq!(groups[0].len(), count);
    for bucket in groups.iter().skip(1) {
        assert_eq!(bucket.len(), 0);
    }
}

#[test]
fn grouping_partitions_rows_by_missing_digit() {
    // 123456789 misses 0; 102345678 misses 9; 987654321 misses 0.
    let rows = vec![Row::from(123_456_789), Row::from(102_345_678), Row::from(987_654_321)];
    let total = rows.len();
    let groups = group_by_missing(rows);
    assert_eq!(groups.len(), 10);
    assert_eq!(groups[0].len(), 2);
    assert_eq!(groups[9].len(), 1);
    let sum: usize = groups.iter().map(|b| b.len()).sum();
    assert_eq!(sum, total);
    // Order within a bucket follows the input order.
    assert_eq!(digits_of(&groups[0][0]), vec![1, 2, 3, 4, 5, 6, 7, 8, 9]);
    assert_eq!(digits_of(&groups[0][1]), vec![9, 8, 7, 6, 5, 4, 3, 2, 1]);
    assert_eq!(digits_of(&groups[9][0]), vec![1, 0, 2, 3, 4, 5, 6, 7, 8]);
}
