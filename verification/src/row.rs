//! Nine-digit rows: cells, construction from a number, validity and the
//! missing digit.

use vstd::arithmetic::div_mod::lemma_div_multiples_vanish;
use vstd::prelude::*;
use vstd::set_lib::{lemma_int_range, lemma_len_subset, lemma_subset_equality, set_int_range};

verus! {

/// One cell of a nine-digit row: a decimal digit that is known, or unknown.
#[derive(Clone, Copy, Debug, PartialEq, Eq, Structural)]
pub enum Cell {
    Number(u8),
    Unknown,
}

/// A cell is well formed when a known digit lies in 0..=9.
pub open spec fn cell_wf(c: Cell) -> bool {
    c matches Cell::Number(d) ==> d <= 9
}

impl Cell {
    /// Wrap a decimal digit as a known cell.
    pub fn from(number: u8) -> (c: Cell)
        requires
            number <= 9,
        ensures
            c == Cell::Number(number),
    {
        Cell::Number(number)
    }
}

/// 10 raised to the power `e`.
pub open spec fn pow10(e: nat) -> nat
    decreases e,
{
    if e == 0 {
        1
    } else {
        10 * pow10((e - 1) as nat)
    }
}

/// Digit `j` (most significant first, `0 <= j < 9`) of the last nine decimal
/// digits of `n`.
pub open spec fn nth_digit(n: nat, j: int) -> nat {
    (n / pow10((8 - j) as nat)) % 10
}

/// The row formed by the last nine decimal digits of `n`, all cells known.
pub open spec fn row_of_number(n: nat) -> Seq<Cell> {
    Seq::new(9, |j: int| Cell::Number(nth_digit(n, j) as u8))
}

/// A row is well formed when it has exactly nine well-formed cells.
pub open spec fn row_wf(s: Seq<Cell>) -> bool {
    &&& s.len() == 9
    &&& forall|i: int| 0 <= i < s.len() ==> cell_wf(#[trigger] s[i])
}

/// Every cell of the row carries a known digit.
pub open spec fn all_known(s: Seq<Cell>) -> bool {
    forall|i: int| 0 <= i < s.len() ==> (#[trigger] s[i]) is Number
}

/// No digit value appears twice among the known cells. Known cells are equal
/// exactly when their digits are, so distinct cells mean distinct digits.
pub open spec fn row_valid(s: Seq<Cell>) -> bool {
    forall|i: int, j: int|
        0 <= i < j < s.len() && (#[trigger] s[i]) is Number && (#[trigger] s[j]) is Number
            ==> s[i] != s[j]
}

/// Digit `d` appears in some known cell of the row.
pub open spec fn digit_present(s: Seq<Cell>, d: u8) -> bool {
    exists|i: int| 0 <= i < s.len() && #[trigger] s[i] == Cell::Number(d)
}

/// A row on which the missing digit is defined: nine known, pairwise-distinct
/// digits, hence exactly one of the ten digit values absent.
pub open spec fn row_eligible(s: Seq<Cell>) -> bool {
    row_wf(s) && all_known(s) && row_valid(s)
}

/// The one digit value absent from an eligible row.
pub open spec fn spec_missing(s: Seq<Cell>) -> u8 {
    choose|d: u8| d <= 9 && !digit_present(s, d)
}

/// Row `r` fits grid row `g`: wherever `g` has a known digit, `r` carries the
/// same digit. Unknown cells of `g` impose no constraint.
pub open spec fn fits(g: Seq<Cell>, r: Seq<Cell>) -> bool {
    forall|j: int|
        0 <= j < g.len() && (#[trigger] g[j]) is Number ==> r[j] == g[j]
}

/// An ordered sequence of exactly nine cells, most significant digit first.
#[derive(Clone, Copy)]
pub struct Row {
    cells: [Cell; 9],
}

impl View for Row {
    type V = Seq<Cell>;

    closed spec fn view(&self) -> Seq<Cell> {
        self.cells@
    }
}

proof fn lemma_pow10_pos(e: nat)
    ensures
        pow10(e) >= 1,
    decreases e,
{
    if e > 0 {
        lemma_pow10_pos((e - 1) as nat);
    }
}

impl Row {
    /// Build the row of the last nine decimal digits of `number`, left-padded
    /// with zeros. The ceiling on multiples keeps every input within nine
    /// digits.
    pub fn from(number: u32) -> (r: Row)
        requires
            number <= 999_999_999,
        ensures
            r@ == row_of_number(number as nat),
            row_wf(r@),
            all_known(r@),
    {
        let mut cells: [Cell; 9] = [Cell::Unknown, Cell::Unknown, Cell::Unknown, Cell::Unknown,
            Cell::Unknown, Cell::Unknown, Cell::Unknown, Cell::Unknown, Cell::Unknown];
        let mut p: u32 = 100_000_000;
        let mut j: usize = 0;
        proof {
            assert(pow10(8) == 100_000_000) by {
                reveal_with_fuel(pow10, 9);
            }
        }
        while j < 9
            invariant
                j <= 9,
                number <= 999_999_999,
                j < 9 ==> p as nat == pow10((8 - j) as nat),
                j < 9 ==> p >= 1,
                cells@.len() == 9,
                forall|k: int| 0 <= k < j ==> cells@[k] == row_of_number(number as nat)[k],
            decreases 9 - j,
        {
            let d: u32 = (number / p) % 10;
            cells[j] = Cell::Number(d as u8);
            proof {
                assert(d as nat == nth_digit(number as nat, j as int));
                assert(row_of_number(number as nat)[j as int]
                    == Cell::Number(nth_digit(number as nat, j as int) as u8));
            }
            if j < 8 {
                proof {
                    let e = (8 - j) as nat;
                    assert(pow10(e) == 10 * pow10((e - 1) as nat));
                    lemma_pow10_pos((e - 1) as nat);
                    lemma_div_multiples_vanish(pow10((e - 1) as nat) as int, 10);
                }
                p = p / 10;
            }
            j += 1;
        }
        proof {
            assert(cells@ =~= row_of_number(number as nat));
            assert forall|i: int| 0 <= i < 9 implies cell_wf(#[trigger] cells@[i]) by {
                assert(cells@[i] == row_of_number(number as nat)[i]);
            }
        }
        Row { cells }
    }

    /// The all-unknown row.
    pub fn empty() -> (r: Row)
        ensures
            r@.len() == 9,
            forall|i: int| 0 <= i < 9 ==> r@[i] == Cell::Unknown,
            row_wf(r@),
    {
        Row { cells: [Cell::Unknown, Cell::Unknown, Cell::Unknown, Cell::Unknown, Cell::Unknown,
            Cell::Unknown, Cell::Unknown, Cell::Unknown, Cell::Unknown] }
    }

    /// Replace the cell at a column.
    pub fn set(&mut self, col: usize, cell: Cell)
        requires
            col < 9,
        ensures
            final(self)@ == old(self)@.update(col as int, cell),
    {
        self.cells[col] = cell;
    }

    /// Read the cell at a column.
    pub fn cell(&self, col: usize) -> (c: Cell)
        requires
            col < 9,
        ensures
            c == self@[col as int],
    {
        self.cells[col]
    }

    /// Decide whether no digit value appears twice among the known cells.
    pub fn is_valid(&self) -> (r: bool)
        requires
            row_wf(self@),
        ensures
            r == row_valid(self@),
    {
        let mut seen: Vec<bool> = Vec::new();
        let mut k: usize = 0;
        while k < 10
            invariant
                seen@.len() == k <= 10,
                forall|d: int| 0 <= d < k ==> !(#[trigger] seen@[d]),
            decreases 10 - k,
        {
            seen.push(false);
            k += 1;
        }
        let mut i: usize = 0;
        while i < 9
            invariant
                i <= 9,
                row_wf(self@),
                seen@.len() == 10,
                forall|d: int|
                    0 <= d < 10
                        ==> ((#[trigger] seen@[d]) <==> exists|k2: int|
                        0 <= k2 < i && self@[k2] == Cell::Number(d as u8)),
                forall|k1: int, k2: int|
                    0 <= k1 < k2 < i && (#[trigger] self@[k1]) is Number
                        && (#[trigger] self@[k2]) is Number ==> self@[k1] != self@[k2],
            decreases 9 - i,
        {
            match self.cells[i] {
                Cell::Number(d) => {
                    if seen[d as usize] {
                        proof {
                            let k2 = choose|k2: int|
                                0 <= k2 < i && self@[k2] == Cell::Number(d);
                            assert(self@[k2] is Number && self@[i as int] is Number);
                            assert(!row_valid(self@));
                        }
                        return false;
                    }
                    seen.set(d as usize, true);
                }
                Cell::Unknown => {},
            }
            i += 1;
        }
        true
    }

    /// The one digit value in 0..=9 absent from a row whose nine cells are
    /// known and pairwise distinct.
    pub fn get_missing(&self) -> (r: u8)
        requires
            row_eligible(self@),
        ensures
            r <= 9,
            !digit_present(self@, r),
            forall|d: u8| d <= 9 && d != r ==> digit_present(self@, d),
            r == spec_missing(self@),
    {
        let mut seen: Vec<bool> = Vec::new();
        let mut k: usize = 0;
        while k < 10
            invariant
                seen@.len() == k <= 10,
                forall|d: int| 0 <= d < k ==> !(#[trigger] seen@[d]),
            decreases 10 - k,
        {
            seen.push(false);
            k += 1;
        }
        let mut i: usize = 0;
        while i < 9
            invariant
                i <= 9,
                row_eligible(self@),
                seen@.len() == 10,
                forall|d: int|
                    0 <= d < 10
                        ==> ((#[trigger] seen@[d]) <==> exists|k2: int|
                        0 <= k2 < i && self@[k2] == Cell::Number(d as u8)),
            decreases 9 - i,
        {
            match self.cells[i] {
                Cell::Number(d) => {
                    seen.set(d as usize, true);
                }
                Cell::Unknown => {
                    proof {
                        assert(self@[i as int] is Number);
                    }
                },
            }
            i += 1;
        }
        proof {
            assert forall|d: int| 0 <= d < 10 implies
                ((#[trigger] seen@[d]) <==> digit_present(self@, d as u8)) by {}
        }
        let mut d: usize = 0;
        while d < 10
            invariant
                d <= 10,
                row_eligible(self@),
                seen@.len() == 10,
                forall|e: int| 0 <= e < 10 ==> ((#[trigger] seen@[e]) <==> digit_present(self@, e as u8)),
                forall|e: u8| e < d ==> digit_present(self@, e),
            decreases 10 - d,
        {
            if !seen[d] {
                let r = d as u8;
                proof {
                    lemma_missing_digit_unique(self@, r);
                    assert(spec_missing(self@) <= 9 && !digit_present(self@, spec_missing(self@)));
                    if spec_missing(self@) != r {
                        assert(digit_present(self@, spec_missing(self@)));
                    }
                }
                return r;
            }
            d += 1;
        }
        proof {
            lemma_missing_digit_exists(self@);
            let m = choose|m: u8| m <= 9 && !digit_present(self@, m);
            assert(seen@[m as int]);
            assert(false);
        }
        vstd::pervasive::unreached()
    }

    /// Decide whether the candidate row `row` fits this grid row: every known
    /// cell of `self` must be matched by the same known digit in `row`.
    pub fn does_row_fit(&self, row: &Row) -> (r: bool)
        requires
            self@.len() == 9,
            row@.len() == 9,
        ensures
            r == fits(self@, row@),
    {
        let mut j: usize = 0;
        while j < 9
            invariant
                j <= 9,
                self@.len() == 9,
                row@.len() == 9,
                forall|k: int|
                    0 <= k < j && (#[trigger] self@[k]) is Number ==> row@[k] == self@[k],
            decreases 9 - j,
        {
            match self.cells[j] {
                Cell::Number(v) => match row.cells[j] {
                    Cell::Number(v2) => {
                        if v != v2 {
                            return false;
                        }
                    },
                    Cell::Unknown => {
                        return false;
                    },
                },
                Cell::Unknown => {},
            }
            j += 1;
        }
        true
    }
}

/// The sequence of digits carried by an all-known row, as mathematical
/// integers.
spec fn digit_seq(s: Seq<Cell>) -> Seq<int> {
    Seq::new(s.len(), |i: int| s[i]->Number_0 as int)
}

proof fn lemma_digit_set_size(s: Seq<Cell>)
    requires
        row_eligible(s),
    ensures
        digit_seq(s).to_set().finite(),
        digit_seq(s).to_set().len() == 9,
        digit_seq(s).to_set().subset_of(set_int_range(0, 10)),
        forall|d: u8| d <= 9 ==> (digit_present(s, d) <==> digit_seq(s).to_set().contains(d as int)),
{
    let ds = digit_seq(s);
    assert(ds.no_duplicates()) by {
        assert forall|i: int, j: int| 0 <= i < ds.len() && 0 <= j < ds.len() && i != j
            implies ds[i] != ds[j] by {
            assert(s[i] is Number && s[j] is Number);
            assert(s[i] != s[j]);
        }
    }
    ds.unique_seq_to_set();
    broadcast use vstd::seq_lib::seq_to_set_is_finite;
    assert forall|x: int| ds.to_set().contains(x) implies set_int_range(0, 10).contains(x) by {
        let i = choose|i: int| 0 <= i < ds.len() && ds[i] == x;
        assert(cell_wf(s[i]));
    }
    assert forall|d: u8| d <= 9 implies
        (digit_present(s, d) <==> ds.to_set().contains(d as int)) by {
        if digit_present(s, d) {
            let i = choose|i: int| 0 <= i < s.len() && s[i] == Cell::Number(d);
            assert(ds[i] == d as int);
            assert(ds.contains(d as int));
        }
        if ds.to_set().contains(d as int) {
            let i = choose|i: int| 0 <= i < ds.len() && ds[i] == d as int;
            assert(s[i] is Number);
            assert(s[i] == Cell::Number(d));
        }
    }
}

/// An eligible row misses at least one of the ten digit values: nine cells
/// cannot carry all ten.
pub proof fn lemma_missing_digit_exists(s: Seq<Cell>)
    requires
        row_eligible(s),
    ensures
        exists|d: u8| d <= 9 && !digit_present(s, d),
{
    lemma_digit_set_size(s);
    let ds = digit_seq(s);
    if forall|d: u8| d <= 9 ==> digit_present(s, d) {
        assert forall|x: int| set_int_range(0, 10).contains(x)
            implies ds.to_set().contains(x) by {
            assert(digit_present(s, x as u8));
        }
        lemma_int_range(0, 10);
        lemma_len_subset(set_int_range(0, 10), ds.to_set());
        assert(false);
    }
}

/// An eligible row misses at most one digit value: once one absent digit is
/// fixed, every other digit value appears in the row.
pub proof fn lemma_missing_digit_unique(s: Seq<Cell>, r: u8)
    requires
        row_eligible(s),
        r <= 9,
        !digit_present(s, r),
    ensures
        forall|d: u8| d <= 9 && d != r ==> digit_present(s, d),
{
    lemma_digit_set_size(s);
    let ds = digit_seq(s);
    let others = set_int_range(0, 10).remove(r as int);
    lemma_int_range(0, 10);
    assert(set_int_range(0, 10).contains(r as int));
    assert(others.len() == 9);
    assert(ds.to_set().subset_of(others));
    lemma_subset_equality(ds.to_set(), others);
    assert forall|d: u8| d <= 9 && d != r implies digit_present(s, d) by {
        assert(others.contains(d as int));
    }
}

} // verus!
