use pandigrid::grid::Grid;
use pandigrid::row::{Cell, Row};
use pandigrid::search::{group_by_missing, search_candidate, valid_rows, MAX_FACTOR};

#[test]
fn empty_grid_has_no_anchors() {
    let g = Grid::empty();
    for row in 0..9 {
        for col in 0..9 {
            assert_eq!(g.cell(row, col), Cell::Unknown);
        }
    }
}

#[test]
fn set_fixes_one_anchor() {
    let mut g = Grid::empty();
    g.set(2, 1, Cell::Number(2));
    assert_eq!(g.cell(2, 1), Cell::Number(2));
    assert_eq!(g.cell(2, 0), Cell::Unknown);
    assert_eq!(g.cell(1, 1), Cell::Unknown);
}

#[test]
fn unanchored_grid_accepts_any_nine_rows() {
    let g = Grid::empty();
    let rows: Vec<Row> = (1..=9).map(Row::from).collect();
    assert!(g.solve_with(rows));
}

#[test]
fn fewer_than_nine_rows_never_fill_nine_slots() {
    let g = Grid::empty();
    let rows: Vec<Row> = (1..=8).map(Row::from).collect();
    assert!(!g.solve_with(rows));
}

#[test]
fn conflicting_anchor_rejects_every_placement() {
    let mut g = Grid::empty();
    g.set(0, 0, Cell::Number(5));
    // Every supplied row carries digit 1 in column 0.
    let rows: Vec<Row> = (0..9).map(|_| Row::from(123_456_789)).collect();
    assert!(!g.solve_with(rows));
}

#[test]
fn matching_anchor_accepts_placement() {
    let mut g = Grid::empty();
    g.set(0, 0, Cell::Number(1));
    let rows: Vec<Row> = (0..9).map(|_| Row::from(123_456_789)).collect();
    assert!(g.solve_with(rows));
}

#[test]
fn search_backtracks_out_of_a_dead_end() {
    // Slot 1 needs digit 1 in column 0 and only one row carries it. A search
    // that spends that row on the unconstrained slot 0 must back out.
    let mut g = Grid::empty();
    g.set(1, 0, Cell::Number(1));
    let mut rows: Vec<Row> = vec![Row::from(123_456_789)];
    for k in 0..8 {
        rows.push(Row::from(900_000_001 + k));
    }
    assert!(g.solve_with(rows));
}

#[test]
fn assignment_reports_a_valid_placement() {
    let mut g = Grid::empty();
    g.set(0, 7, Cell::Number(2));
    g.set(3, 2, Cell::Number(0));
    let mut rows: Vec<Row> = Vec::new();
    // Ten rows whose column-7 digit is 2 and column-2 digit is 0.
    for k in 0..10 {
        rows.push(Row::from(110_000_020 + 1_000_000 * k));
    }
    let assign = g.find_assignment(&rows).expect("a placement exists");
    assert_eq!(assign.len(), 9);
    for (k1, &j1) in assign.iter().enumerate() {
        assert!(j1 < rows.len());
        for &j2 in assign.iter().skip(k1 + 1) {
            assert_ne!(j1, j2);
        }
    }
    // Every anchored cell is honoured by the placed row.
    for slot in 0..9 {
        let placed = &rows[assign[slot]];
        for col in 0..9 {
            if let Cell::Number(d) = g.cell(slot, col) {
                assert_eq!(placed.cell(col), Cell::Number(d));
            }
        }
    }
}

#[test]
fn no_assignment_from_too_few_rows() {
    let g = Grid::empty();
    let rows: Vec<Row> = vec![Row::from(123_456_789), Row::from(987_654_321)];
    assert!(g.find_assignment(&rows).is_none());
}

#[test]
fn candidate_with_small_buckets_finds_no_placement() {
    // Candidate 123456789 yields six valid rows in all, so no bucket can
    // fill nine slots.
    let g = Grid::empty();
    assert!(!search_candidate(&g, 123_456_789, MAX_FACTOR));
}

#[test]
fn search_candidate_agrees_with_bucket_sizes_on_unanchored_grid() {
    // On a grid without anchors a bucket succeeds exactly when it holds at
    // least nine rows.
    let g = Grid::empty();
    let candidate = 12_345_679;
    let groups = group_by_missing(valid_rows(candidate, MAX_FACTOR));
    let expected = groups.iter().any(|bucket| bucket.len() >= 9);
    assert_eq!(search_candidate(&g, candidate, MAX_FACTOR), expected);
}
