//! The 9x9 grid of anchor cells and the backtracking fit search that tries to
//! place candidate rows into grid row slots.

use crate::row::{fits, row_wf, Cell, Row};
use vstd::prelude::*;
use vstd::set_lib::{lemma_int_range, lemma_len_subset, set_int_range};

verus! {

/// The views of a sequence of rows.
pub open spec fn row_views(rows: Seq<Row>) -> Seq<Seq<Cell>> {
    rows.map_values(|r: Row| r@)
}

/// Every row of the sequence has exactly nine cells.
pub open spec fn rows_sized(rows: Seq<Row>) -> bool {
    forall|i: int| 0 <= i < rows.len() ==> (#[trigger] rows[i])@.len() == 9
}

/// A grid is well formed when it has nine well-formed rows.
pub open spec fn grid_wf(g: Seq<Seq<Cell>>) -> bool {
    &&& g.len() == 9
    &&& forall|i: int| 0 <= i < 9 ==> row_wf(#[trigger] g[i])
}

/// The set of row indices marked used.
pub open spec fn used_set(u: Seq<bool>) -> Set<int> {
    Set::new(|j: int| 0 <= j < u.len() && u[j])
}

/// Grid row slots `slot..9` can all be filled from `rows`, using each row at
/// most once and none of the indices in `used`, with every placed row fitting
/// its slot.
pub open spec fn can_fill(g: Seq<Seq<Cell>>, rows: Seq<Seq<Cell>>, slot: int, used: Set<int>) -> bool
    decreases 9 - slot,
{
    if slot >= 9 {
        true
    } else {
        exists|j: int|
            0 <= j < rows.len() && !used.contains(j) && fits(g[slot], rows[j]) && can_fill(
                g,
                rows,
                slot + 1,
                used.insert(j),
            )
    }
}

/// `m` assigns to every grid row slot a distinct row index whose row fits that
/// slot.
pub open spec fn assignment_ok(g: Seq<Seq<Cell>>, rows: Seq<Seq<Cell>>, m: Seq<int>) -> bool {
    &&& m.len() == 9
    &&& forall|k: int| 0 <= k < 9 ==> 0 <= #[trigger] m[k] < rows.len() && fits(g[k], rows[m[k]])
    &&& forall|k1: int, k2: int| 0 <= k1 < k2 < 9 ==> m[k1] != m[k2]
}

/// No cell of the grid is anchored: every cell is unknown.
pub open spec fn grid_unanchored(g: Seq<Seq<Cell>>) -> bool {
    &&& g.len() == 9
    &&& forall|i: int, j: int| 0 <= i < 9 && 0 <= j < g[i].len() ==> #[trigger] g[i][j] == Cell::Unknown
}

/// `m` assigns to slots `slot..9` distinct row indices outside `used`, each
/// row fitting its slot.
spec fn partial_assignment_ok(
    g: Seq<Seq<Cell>>,
    rows: Seq<Seq<Cell>>,
    slot: int,
    used: Set<int>,
    m: Seq<int>,
) -> bool {
    &&& m.len() == 9 - slot
    &&& forall|k: int|
        0 <= k < m.len() ==> 0 <= #[trigger] m[k] < rows.len() && !used.contains(m[k]) && fits(
            g[slot + k],
            rows[m[k]],
        )
    &&& forall|k1: int, k2: int| 0 <= k1 < k2 < m.len() ==> m[k1] != m[k2]
}

proof fn lemma_can_fill_iff_partial(g: Seq<Seq<Cell>>, rows: Seq<Seq<Cell>>, slot: int, used: Set<int>)
    requires
        0 <= slot <= 9,
    ensures
        can_fill(g, rows, slot, used) <==> exists|m: Seq<int>|
            #[trigger] partial_assignment_ok(g, rows, slot, used, m),
    decreases 9 - slot,
{
    if slot == 9 {
        let m = Seq::<int>::empty();
        assert(partial_assignment_ok(g, rows, slot, used, m));
    } else {
        if can_fill(g, rows, slot, used) {
            let j = choose|j: int|
                0 <= j < rows.len() && !used.contains(j) && fits(g[slot], rows[j]) && can_fill(
                    g,
                    rows,
                    slot + 1,
                    used.insert(j),
                );
            lemma_can_fill_iff_partial(g, rows, slot + 1, used.insert(j));
            let m1 = choose|m1: Seq<int>|
                #[trigger] partial_assignment_ok(g, rows, slot + 1, used.insert(j), m1);
            let m = seq![j] + m1;
            assert(partial_assignment_ok(g, rows, slot, used, m)) by {
                assert(m[0] == j);
                assert forall|k: int| 1 <= k < m.len() implies m[k] == m1[k - 1] by {}
            }
        }
        if exists|m: Seq<int>| #[trigger] partial_assignment_ok(g, rows, slot, used, m) {
            let m = choose|m: Seq<int>| #[trigger] partial_assignment_ok(g, rows, slot, used, m);
            let j = m[0];
            let m1 = m.subrange(1, m.len() as int);
            assert(partial_assignment_ok(g, rows, slot + 1, used.insert(j), m1)) by {
                assert forall|k: int| 0 <= k < m1.len() implies 0 <= #[trigger] m1[k] < rows.len()
                    && !used.insert(j).contains(m1[k]) && fits(g[slot + 1 + k], rows[m1[k]]) by {
                    assert(m1[k] == m[k + 1]);
                    assert(m[0] != m[k + 1]);
                }
                assert forall|k1: int, k2: int| 0 <= k1 < k2 < m1.len() implies m1[k1]
                    != m1[k2] by {
                    assert(m1[k1] == m[k1 + 1] && m1[k2] == m[k2 + 1]);
                }
            }
            lemma_can_fill_iff_partial(g, rows, slot + 1, used.insert(j));
            assert(can_fill(g, rows, slot, used)) by {
                assert(0 <= j < rows.len() && !used.contains(j) && fits(g[slot], rows[j])
                    && can_fill(g, rows, slot + 1, used.insert(j)));
            }
        }
    }
}

/// Law: the fit search succeeds exactly when some assignment of distinct,
/// fitting rows to all nine slots exists.
pub proof fn lemma_solvable_iff_assignment(g: Seq<Seq<Cell>>, rows: Seq<Seq<Cell>>)
    ensures
        can_fill(g, rows, 0, Set::empty()) <==> exists|m: Seq<int>| #[trigger] assignment_ok(g, rows, m),
{
    lemma_can_fill_iff_partial(g, rows, 0, Set::empty());
    if exists|m: Seq<int>| #[trigger] partial_assignment_ok(g, rows, 0, Set::empty(), m) {
        let m = choose|m: Seq<int>| #[trigger] partial_assignment_ok(g, rows, 0, Set::empty(), m);
        assert(assignment_ok(g, rows, m));
    }
    if exists|m: Seq<int>| #[trigger] assignment_ok(g, rows, m) {
        let m = choose|m: Seq<int>| #[trigger] assignment_ok(g, rows, m);
        assert(partial_assignment_ok(g, rows, 0, Set::empty(), m));
    }
}

proof fn lemma_unanchored_fill_from(g: Seq<Seq<Cell>>, rows: Seq<Seq<Cell>>, slot: int, used: Set<int>)
    requires
        grid_unanchored(g),
        rows.len() >= 9,
        0 <= slot <= 9,
        forall|j: int| used.contains(j) ==> 0 <= j < slot,
    ensures
        can_fill(g, rows, slot, used),
    decreases 9 - slot,
{
    if slot < 9 {
        assert(fits(g[slot], rows[slot])) by {
            assert forall|j: int|
                0 <= j < g[slot].len() && (#[trigger] g[slot][j]) is Number implies rows[slot][j]
                == g[slot][j] by {
                assert(g[slot][j] == Cell::Unknown);
            }
        }
        assert(!used.contains(slot));
        lemma_unanchored_fill_from(g, rows, slot + 1, used.insert(slot));
        assert(can_fill(g, rows, slot, used)) by {
            assert(0 <= slot < rows.len() && !used.contains(slot) && fits(g[slot], rows[slot])
                && can_fill(g, rows, slot + 1, used.insert(slot)));
        }
    }
}

/// Law: a grid with no anchor cells accepts any supply of at least nine rows;
/// nothing constrains a placement, so the first nine rows fill the nine slots.
pub proof fn lemma_unanchored_grid_fillable(g: Seq<Seq<Cell>>, rows: Seq<Seq<Cell>>)
    requires
        grid_unanchored(g),
        rows.len() >= 9,
    ensures
        can_fill(g, rows, 0, Set::empty()),
{
    lemma_unanchored_fill_from(g, rows, 0, Set::empty());
}

/// Law: fewer than nine rows can never fill the grid, whatever its anchors:
/// each of the nine slots must take a distinct row.
pub proof fn lemma_too_few_rows_unsolvable(g: Seq<Seq<Cell>>, rows: Seq<Seq<Cell>>)
    requires
        rows.len() < 9,
    ensures
        !can_fill(g, rows, 0, Set::empty()),
{
    lemma_solvable_iff_assignment(g, rows);
    if can_fill(g, rows, 0, Set::empty()) {
        let m = choose|m: Seq<int>| #[trigger] assignment_ok(g, rows, m);
        assert(m.no_duplicates()) by {
            assert forall|i: int, j: int|
                0 <= i < m.len() && 0 <= j < m.len() && i != j implies m[i] != m[j] by {
                if i < j {
                    assert(m[i] != m[j]);
                } else {
                    assert(m[j] != m[i]);
                }
            }
        }
        m.unique_seq_to_set();
        broadcast use vstd::seq_lib::seq_to_set_is_finite;

        let range = set_int_range(0, rows.len() as int);
        assert forall|x: int| m.to_set().contains(x) implies range.contains(x) by {
            let i = choose|i: int| 0 <= i < m.len() && m[i] == x;
        }
        lemma_int_range(0, rows.len() as int);
        lemma_len_subset(m.to_set(), range);
        assert(false);
    }
}

/// A 9x9 matrix of cells: nine rows of nine cells each.
#[derive(Clone, Copy)]
pub struct Grid {
    rows: [Row; 9],
}

impl View for Grid {
    type V = Seq<Seq<Cell>>;

    closed spec fn view(&self) -> Seq<Seq<Cell>> {
        self.rows@.map_values(|r: Row| r@)
    }
}

impl Grid {
    /// The grid with every cell unknown.
    pub fn empty() -> (g: Grid)
        ensures
            g@.len() == 9,
            forall|i: int, j: int| 0 <= i < 9 && 0 <= j < 9 ==> g@[i][j] == Cell::Unknown,
            grid_wf(g@),
    {
        let r = Row::empty();
        let g = Grid { rows: [r, r, r, r, r, r, r, r, r] };
        proof {
            assert(forall|i: int| 0 <= i < 9 ==> g@[i] == r@);
        }
        g
    }

    /// Fix an anchor cell.
    pub fn set(&mut self, row: usize, col: usize, cell: Cell)
        requires
            row < 9,
            col < 9,
            grid_wf(old(self)@),
            crate::row::cell_wf(cell),
        ensures
            final(self)@ == old(self)@.update(row as int, old(self)@[row as int].update(col as int, cell)),
            grid_wf(final(self)@),
    {
        let mut r = self.rows[row];
        r.set(col, cell);
        self.rows[row] = r;
        proof {
            assert(final(self)@ =~= old(self)@.update(
                row as int,
                old(self)@[row as int].update(col as int, cell),
            ));
        }
    }

    /// Read the cell at a position.
    pub fn cell(&self, row: usize, col: usize) -> (c: Cell)
        requires
            row < 9,
            col < 9,
            grid_wf(self@),
        ensures
            c == self@[row as int][col as int],
    {
        self.rows[row].cell(col)
    }

    /// Backtracking search for rows to place into slots `slot..9`. On success
    /// `assign` grows to a full assignment; on failure `assign` and `used` are
    /// left as they were.
    fn fill_rec(&self, rows: &Vec<Row>, slot: usize, used: &mut Vec<bool>, assign: &mut Vec<usize>) -> (r: bool)
        requires
            grid_wf(self@),
            rows_sized(rows@),
            slot <= 9,
            old(used)@.len() == rows@.len(),
            old(assign)@.len() == slot,
            forall|k: int| 0 <= k < slot ==> (#[trigger] old(assign)@[k]) < rows@.len(),
            forall|j: int|
                0 <= j < old(used)@.len() ==> ((#[trigger] old(used)@[j]) <==> exists|k: int|
                    0 <= k < slot && old(assign)@[k] == j),
        ensures
            final(used)@ == old(used)@,
            r == can_fill(self@, row_views(rows@), slot as int, used_set(old(used)@)),
            r ==> final(assign)@.len() == 9 && final(assign)@.subrange(0, slot as int) == old(
                assign,
            )@ && (forall|k: int|
                slot <= k < 9 ==> (#[trigger] final(assign)@[k]) < rows@.len() && fits(
                    self@[k],
                    row_views(rows@)[final(assign)@[k] as int],
                ) && !old(used)@[final(assign)@[k] as int]) && (forall|k1: int, k2: int|
                slot <= k1 < k2 < 9 ==> final(assign)@[k1] != final(assign)@[k2]),
            !r ==> final(assign)@ == old(assign)@,
        decreases 9 - slot,
    {
        let ghost g = self@;
        let ghost rv = row_views(rows@);
        let ghost us = used_set(old(used)@);
        if slot == 9 {
            proof {
                assert(assign@.subrange(0, 9) =~= assign@);
            }
            return true;
        }
        let mut j: usize = 0;
        while j < rows.len()
            invariant
                grid_wf(g),
                g == self@,
                rv == row_views(rows@),
                us == used_set(old(used)@),
                rows_sized(rows@),
                slot < 9,
                j <= rows@.len(),
                used@ == old(used)@,
                assign@ == old(assign)@,
                used@.len() == rows@.len(),
                assign@.len() == slot,
                forall|k: int| 0 <= k < slot ==> (#[trigger] assign@[k]) < rows@.len(),
                forall|j2: int|
                    0 <= j2 < used@.len() ==> ((#[trigger] used@[j2]) <==> exists|k: int|
                        0 <= k < slot && assign@[k] == j2),
                forall|j2: int|
                    0 <= j2 < j ==> !(!us.contains(j2) && fits(g[slot as int], rv[j2]) && can_fill(
                        g,
                        rv,
                        slot as int + 1,
                        us.insert(j2),
                    )),
            decreases rows@.len() - j,
        {
            let row_used = used[j];
            let candidate = rows[j];
            proof {
                assert(self.rows@[slot as int]@ == g[slot as int]);
                assert(candidate@ == rv[j as int]);
                assert(rv.len() == rows@.len());
            }
            if !row_used && self.rows[slot].does_row_fit(&candidate) {
                proof {
                    assert(fits(g[slot as int], rv[j as int]));
                }
                used.set(j, true);
                assign.push(j);
                proof {
                    assert(used_set(used@) =~= us.insert(j as int));
                    assert forall|j2: int|
                        0 <= j2 < used@.len() implies ((#[trigger] used@[j2]) <==> exists|k: int|
                        0 <= k < slot + 1 && assign@[k] == j2) by {
                        if used@[j2] {
                            if j2 == j as int {
                                assert(assign@[slot as int] == j2);
                            } else {
                                let k = choose|k: int|
                                    0 <= k < slot && old(assign)@[k] == j2;
                                assert(assign@[k] == j2);
                            }
                        }
                    }
                }
                let found = self.fill_rec(rows, slot + 1, used, assign);
                if found {
                    used.set(j, false);
                    proof {
                        assert(used@ =~= old(used)@);
                        assert(can_fill(g, rv, slot as int + 1, us.insert(j as int)));
                        assert(can_fill(g, rv, slot as int, us)) by {
                            let j2 = j as int;
                            assert(0 <= j2 < rv.len() && !us.contains(j2) && fits(
                                g[slot as int],
                                rv[j2],
                            ) && can_fill(g, rv, slot as int + 1, us.insert(j2)));
                        }
                        // The prefix below the new entry is unchanged.
                        assert(assign@.subrange(0, slot as int) =~= old(assign)@) by {
                            let mid = old(assign)@.push(j);
                            assert(assign@.subrange(0, slot as int + 1) == mid);
                            assert forall|k: int| 0 <= k < slot implies assign@[k]
                                == old(assign)@[k] by {
                                assert(assign@.subrange(0, slot as int + 1)[k] == assign@[k]);
                                assert(mid[k] == old(assign)@[k]);
                            }
                        }
                        assert((assign@[slot as int]) == j) by {
                            let mid = old(assign)@.push(j);
                            assert(assign@.subrange(0, slot as int + 1) == mid);
                            assert(assign@.subrange(0, slot as int + 1)[slot as int]
                                == assign@[slot as int]);
                            assert(mid[slot as int] == j);
                        }
                        // Entries placed from this slot on stay distinct and unused.
                        assert forall|k: int|
                            slot <= k < 9 implies (#[trigger] assign@[k]) < rows@.len() && fits(
                            g[k],
                            rv[assign@[k] as int],
                        ) && !old(used)@[assign@[k] as int] by {
                            if k > slot {
                                assert(!used_set(used@).insert(j as int).contains(
                                    assign@[k] as int,
                                ));
                            }
                        }
                        assert forall|k1: int, k2: int|
                            slot <= k1 < k2 < 9 implies assign@[k1] != assign@[k2] by {
                            if k1 == slot {
                                assert(!used_set(used@).insert(j as int).contains(
                                    assign@[k2] as int,
                                ));
                            }
                        }
                    }
                    return true;
                }
                used.set(j, false);
                let _ = assign.pop();
                proof {
                    assert(used@ =~= old(used)@);
                    assert(assign@ =~= old(assign)@);
                    assert(!can_fill(g, rv, slot as int + 1, us.insert(j as int)));
                }
            } else {
                proof {
                    if row_used {
                        assert(us.contains(j as int));
                    } else {
                        assert(self.rows@[slot as int]@ == g[slot as int]);
                        assert(candidate@ == rv[j as int]);
                        assert(!fits(g[slot as int], rv[j as int]));
                    }
                }
            }
            j += 1;
        }
        proof {
            if can_fill(g, rv, slot as int, us) {
                let j2 = choose|j2: int|
                    0 <= j2 < rv.len() && !us.contains(j2) && fits(g[slot as int], rv[j2])
                        && can_fill(g, rv, slot as int + 1, us.insert(j2));
                assert(false);
            }
        }
        false
    }

    /// Search for a full placement: one row of `rows` for each of the nine
    /// grid row slots, rows pairwise distinct, every placed row fitting its
    /// slot. Returns the slot-to-row-index assignment when one exists.
    pub fn find_assignment(&self, rows: &Vec<Row>) -> (r: Option<Vec<usize>>)
        requires
            grid_wf(self@),
            rows_sized(rows@),
        ensures
            match r {
                Some(assign) => {
                    &&& assign@.len() == 9
                    &&& forall|k: int|
                        0 <= k < 9 ==> (#[trigger] assign@[k]) < rows@.len() && fits(
                            self@[k],
                            row_views(rows@)[assign@[k] as int],
                        )
                    &&& forall|k1: int, k2: int| 0 <= k1 < k2 < 9 ==> assign@[k1] != assign@[k2]
                    &&& assignment_ok(
                        self@,
                        row_views(rows@),
                        assign@.map_values(|x: usize| x as int),
                    )
                    &&& can_fill(self@, row_views(rows@), 0, Set::empty())
                },
                None => !can_fill(self@, row_views(rows@), 0, Set::empty()),
            },
    {
        let mut used: Vec<bool> = Vec::new();
        let mut k: usize = 0;
        while k < rows.len()
            invariant
                used@.len() == k <= rows@.len(),
                forall|d: int| 0 <= d < k ==> !(#[trigger] used@[d]),
            decreases rows@.len() - k,
        {
            used.push(false);
            k += 1;
        }
        let mut assign: Vec<usize> = Vec::new();
        proof {
            assert(used_set(used@) =~= Set::empty());
        }
        if self.fill_rec(rows, 0, &mut used, &mut assign) {
            proof {
                let m = assign@.map_values(|x: usize| x as int);
                assert forall|k: int| 0 <= k < 9 implies 0 <= #[trigger] m[k] < rows@.len()
                    && fits(self@[k], row_views(rows@)[m[k]]) by {
                    assert(m[k] == assign@[k] as int);
                }
                assert forall|k1: int, k2: int| 0 <= k1 < k2 < 9 implies m[k1] != m[k2] by {
                    assert(m[k1] == assign@[k1] as int && m[k2] == assign@[k2] as int);
                }
            }
            Some(assign)
        } else {
            None
        }
    }

    /// Decide whether some full placement of rows from `rows` into the nine
    /// grid row slots exists.
    pub fn solve_with(&self, rows: Vec<Row>) -> (r: bool)
        requires
            grid_wf(self@),
            rows_sized(rows@),
        ensures
            r == can_fill(self@, row_views(rows@), 0, Set::empty()),
    {
        match self.find_assignment(&rows) {
            Some(_) => true,
            None => false,
        }
    }
}

} // verus!
