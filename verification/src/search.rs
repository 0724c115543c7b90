//! Candidate enumeration and grouping: the multiples of a candidate up to the
//! ceiling, the valid rows among them, the ten buckets keyed by missing digit,
//! and the search over one candidate.

use crate::grid::{can_fill, grid_wf, row_views, rows_sized, Grid};
use crate::row::{
    digit_present, lemma_missing_digit_exists, row_eligible, row_of_number, row_valid,
    spec_missing, Cell, Row,
};
use vstd::arithmetic::div_mod::{lemma_fundamental_div_mod, lemma_mod_bound};
use vstd::arithmetic::mul::lemma_mul_inequality;
use vstd::prelude::*;

verus! {

/// The ceiling bounding every multiple the search considers: the largest
/// nine-digit value built from the digits 1..=9 in descending significance.
pub const MAX_FACTOR: u32 = 987_654_321;

/// The first `k` multiples of `c`: `c*1, c*2, ..., c*k`, in increasing order.
pub open spec fn multiples_upto(c: nat, k: nat) -> Seq<int> {
    Seq::new(k, |i: int| c * (i + 1))
}

/// All multiples of `c` that stay within `max`.
pub open spec fn spec_multiples(c: nat, max: nat) -> Seq<int>
    recommends
        c >= 1,
{
    multiples_upto(c, max / c)
}

/// The rows of the given multiples whose digits are pairwise distinct, kept in
/// multiplier order.
pub open spec fn valid_rows_of(ms: Seq<int>) -> Seq<Seq<Cell>>
    decreases ms.len(),
{
    if ms.len() == 0 {
        Seq::empty()
    } else {
        let rest = valid_rows_of(ms.drop_last());
        let r = row_of_number(ms.last() as nat);
        if row_valid(r) {
            rest.push(r)
        } else {
            rest
        }
    }
}

/// The valid rows among the multiples of `c` up to `max`.
pub open spec fn spec_valid_rows(c: nat, max: nat) -> Seq<Seq<Cell>>
    recommends
        c >= 1,
{
    valid_rows_of(spec_multiples(c, max))
}

/// The rows of `rows` whose missing digit is `k`, in their original order.
pub open spec fn spec_bucket(rows: Seq<Seq<Cell>>, k: u8) -> Seq<Seq<Cell>>
    decreases rows.len(),
{
    if rows.len() == 0 {
        Seq::empty()
    } else {
        let rest = spec_bucket(rows.drop_last(), k);
        if spec_missing(rows.last()) == k {
            rest.push(rows.last())
        } else {
            rest
        }
    }
}

/// Law: multiple `c * i` stays within `max` exactly when `i <= max / c`, so
/// the enumeration covers every multiplier in range and none beyond, each at
/// its place in multiplier order.
pub proof fn lemma_multiples_exact(c: int, max: int, i: int)
    requires
        1 <= c,
        0 <= max,
        1 <= i,
    ensures
        (c * i <= max) <==> (i <= max / c),
        spec_multiples(c as nat, max as nat).len() == max / c,
        i <= max / c ==> spec_multiples(c as nat, max as nat)[i - 1] == c * i,
{
    lemma_fundamental_div_mod(max, c);
    lemma_mod_bound(max, c);
    let q = max / c;
    let r = max % c;
    assert((c * i <= max) <==> (i <= q)) by (nonlinear_arith)
        requires
            max == c * q + r,
            0 <= r < c,
            1 <= c,
            1 <= i,
    {}
}

/// Only odd candidates are searched.
pub fn candidate_is_eligible(candidate: u32) -> (r: bool)
    ensures
        r == (candidate % 2 == 1),
{
    candidate % 2 == 1
}

/// Enumerate the multiples of `candidate` up to `max_factor` and keep, in
/// multiplier order, the rows whose nine digits are pairwise distinct.
pub fn valid_rows(candidate: u32, max_factor: u32) -> (rows: Vec<Row>)
    requires
        1 <= candidate,
        max_factor <= 999_999_999,
    ensures
        row_views(rows@) == spec_valid_rows(candidate as nat, max_factor as nat),
        rows_sized(rows@),
        forall|i: int| 0 <= i < rows@.len() ==> row_eligible((#[trigger] rows@[i])@),
{
    let ghost c = candidate as nat;
    let m: u32 = max_factor / candidate;
    let mut rows: Vec<Row> = Vec::new();
    let mut i: u32 = 0;
    proof {
        assert(multiples_upto(c, 0) =~= Seq::<int>::empty());
        assert(row_views(rows@) =~= Seq::<Seq<Cell>>::empty());
    }
    while i < m
        invariant
            1 <= candidate,
            max_factor <= 999_999_999,
            c == candidate as nat,
            m == max_factor as nat / candidate as nat,
            i <= m,
            row_views(rows@) == valid_rows_of(multiples_upto(c, i as nat)),
            rows_sized(rows@),
            forall|k: int| 0 <= k < rows@.len() ==> row_eligible((#[trigger] rows@[k])@),
        decreases m - i,
    {
        proof {
            lemma_fundamental_div_mod(max_factor as int, candidate as int);
            lemma_mod_bound(max_factor as int, candidate as int);
            lemma_mul_inequality(i as int + 1, m as int, candidate as int);
            assert(candidate as int * (i as int + 1) <= max_factor as int);
        }
        let n: u32 = candidate * (i + 1);
        let row = Row::from(n);
        let ghost prev = multiples_upto(c, i as nat);
        let ghost cur = multiples_upto(c, (i + 1) as nat);
        proof {
            assert(cur.len() == i + 1);
            assert(cur.drop_last() =~= prev);
            assert(cur.last() == n as int);
            assert(row@ == row_of_number(n as nat));
        }
        if row.is_valid() {
            rows.push(row);
            proof {
                assert(row_views(rows@) =~= valid_rows_of(cur));
            }
        } else {
            proof {
                assert(row_views(rows@) =~= valid_rows_of(cur));
            }
        }
        i = i + 1;
    }
    rows
}

/// Partition the valid rows of one candidate into ten buckets: bucket `k`
/// holds, in their original order, the rows whose missing digit is `k`.
pub fn group_by_missing(rows: Vec<Row>) -> (groups: Vec<Vec<Row>>)
    requires
        forall|i: int| 0 <= i < rows@.len() ==> row_eligible((#[trigger] rows@[i])@),
    ensures
        groups@.len() == 10,
        forall|k: int|
            0 <= k < 10 ==> row_views((#[trigger] groups@[k])@) == spec_bucket(
                row_views(rows@),
                k as u8,
            ),
        forall|k: int| 0 <= k < 10 ==> rows_sized((#[trigger] groups@[k])@),
{
    let ghost all = row_views(rows@);
    let mut groups: Vec<Vec<Row>> = Vec::new();
    let mut k: usize = 0;
    while k < 10
        invariant
            groups@.len() == k <= 10,
            forall|k2: int| 0 <= k2 < k ==> (#[trigger] groups@[k2])@.len() == 0,
        decreases 10 - k,
    {
        groups.push(Vec::new());
        k += 1;
    }
    proof {
        assert forall|k2: int| 0 <= k2 < 10 implies row_views((#[trigger] groups@[k2])@)
            == spec_bucket(all.subrange(0, 0), k2 as u8) by {
            assert(all.subrange(0, 0) =~= Seq::<Seq<Cell>>::empty());
            assert(row_views(groups@[k2]@) =~= Seq::<Seq<Cell>>::empty());
        }
    }
    let mut i: usize = 0;
    while i < rows.len()
        invariant
            forall|k2: int| 0 <= k2 < rows@.len() ==> row_eligible((#[trigger] rows@[k2])@),
            all == row_views(rows@),
            i <= rows@.len(),
            groups@.len() == 10,
            forall|k2: int|
                0 <= k2 < 10 ==> row_views((#[trigger] groups@[k2])@) == spec_bucket(
                    all.subrange(0, i as int),
                    k2 as u8,
                ),
            forall|k2: int| 0 <= k2 < 10 ==> rows_sized((#[trigger] groups@[k2])@),
        decreases rows@.len() - i,
    {
        let row = rows[i];
        let g = row.get_missing();
        let mut bucket = groups.remove(g as usize);
        bucket.push(row);
        groups.insert(g as usize, bucket);
        proof {
            let pre = all.subrange(0, i as int);
            let post = all.subrange(0, i as int + 1);
            assert(post.drop_last() =~= pre);
            assert(post.last() == row@);
            assert forall|k2: int| 0 <= k2 < 10 implies row_views((#[trigger] groups@[k2])@)
                == spec_bucket(post, k2 as u8) by {
                if k2 == g as int {
                    assert(row_views(groups@[k2]@) =~= spec_bucket(pre, k2 as u8).push(row@));
                } else {
                    assert(row_views(groups@[k2]@) =~= spec_bucket(pre, k2 as u8));
                }
            }
        }
        i += 1;
    }
    proof {
        assert(all.subrange(0, all.len() as int) =~= all);
    }
    groups
}

/// Law: grouping partitions the valid rows. The ten buckets' sizes add up to
/// the number of rows grouped, every bucket holds only rows missing its own
/// digit, and every row appears in the bucket of its missing digit.
pub proof fn lemma_grouping_partition(rows: Seq<Seq<Cell>>)
    requires
        forall|i: int| 0 <= i < rows.len() ==> row_eligible(#[trigger] rows[i]),
    ensures
        spec_bucket(rows, 0).len() + spec_bucket(rows, 1).len() + spec_bucket(rows, 2).len()
            + spec_bucket(rows, 3).len() + spec_bucket(rows, 4).len() + spec_bucket(rows, 5).len()
            + spec_bucket(rows, 6).len() + spec_bucket(rows, 7).len() + spec_bucket(rows, 8).len()
            + spec_bucket(rows, 9).len() == rows.len(),
        forall|k: u8, i: int|
            k <= 9 && 0 <= i < spec_bucket(rows, k).len() ==> spec_missing(
                #[trigger] spec_bucket(rows, k)[i],
            ) == k,
        forall|i: int|
            0 <= i < rows.len() ==> spec_bucket(rows, spec_missing(rows[i])).contains(
                #[trigger] rows[i],
            ),
    decreases rows.len(),
{
    if rows.len() == 0 {
    } else {
        let prefix = rows.drop_last();
        let lastr = rows.last();
        assert forall|i: int| 0 <= i < prefix.len() implies row_eligible(#[trigger] prefix[i]) by {
            assert(prefix[i] == rows[i]);
        }
        lemma_grouping_partition(prefix);
        lemma_missing_digit_exists(lastr);
        let m0 = spec_missing(lastr);
        assert(m0 <= 9 && !digit_present(lastr, m0));
        assert forall|k: u8| k <= 9 implies spec_bucket(rows, k) == (if m0 == k {
            spec_bucket(prefix, k).push(lastr)
        } else {
            spec_bucket(prefix, k)
        }) by {}
        assert forall|k: u8, i: int|
            k <= 9 && 0 <= i < spec_bucket(rows, k).len() implies spec_missing(
            #[trigger] spec_bucket(rows, k)[i],
        ) == k by {
            if m0 == k && i == spec_bucket(rows, k).len() - 1 {
                assert(spec_bucket(rows, k)[i] == lastr);
            } else {
                assert(spec_bucket(rows, k)[i] == spec_bucket(prefix, k)[i]);
            }
        }
        assert forall|i: int|
            0 <= i < rows.len() implies spec_bucket(rows, spec_missing(rows[i])).contains(
            #[trigger] rows[i],
        ) by {
            if i < rows.len() - 1 {
                assert(rows[i] == prefix[i]);
                let b = spec_bucket(prefix, spec_missing(prefix[i]));
                let j = choose|j: int| 0 <= j < b.len() && b[j] == prefix[i];
                assert(spec_bucket(rows, spec_missing(rows[i]))[j] == rows[i]);
            } else {
                assert(rows[i] == lastr);
                let b = spec_bucket(rows, m0);
                assert(b[b.len() - 1] == lastr);
            }
        }
    }
}

/// Search one candidate: enumerate its valid rows, group them by missing
/// digit, and report whether any bucket admits a full placement into the grid.
pub fn search_candidate(grid: &Grid, candidate: u32, max_factor: u32) -> (found: bool)
    requires
        grid_wf(grid@),
        1 <= candidate,
        max_factor <= 999_999_999,
    ensures
        found == exists|k: int|
            0 <= k < 10 && #[trigger] can_fill(
                grid@,
                spec_bucket(spec_valid_rows(candidate as nat, max_factor as nat), k as u8),
                0,
                Set::empty(),
            ),
{
    let ghost av = spec_valid_rows(candidate as nat, max_factor as nat);
    let rows = valid_rows(candidate, max_factor);
    let mut groups = group_by_missing(rows);
    let mut found = false;
    let mut k: usize = 0;
    while k < 10
        invariant
            grid_wf(grid@),
            k <= 10,
            groups@.len() == 10 - k,
            forall|k2: int|
                0 <= k2 < 10 - k ==> row_views((#[trigger] groups@[k2])@) == spec_bucket(
                    av,
                    (k2 + k) as u8,
                ) && rows_sized(groups@[k2]@),
            found == exists|k2: int|
                0 <= k2 < k && #[trigger] can_fill(
                    grid@,
                    spec_bucket(av, k2 as u8),
                    0,
                    Set::empty(),
                ),
        decreases 10 - k,
    {
        let bucket = groups.remove(0);
        let solved = grid.solve_with(bucket);
        if solved {
            found = true;
        }
        k += 1;
    }
    found
}

} // verus!
