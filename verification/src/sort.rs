//! Sorting the rows of a chromosome into report order.

use crate::order::{
    lemma_row_le_connected, lemma_row_le_transitive, lemma_row_order_total, row_before_or_equal,
    row_le, row_order,
};
use crate::region::{row_views, OutputRow, RegionState};
use vstd::prelude::*;
use vstd::relations::sorted_by;
use vstd::seq_lib::*;

verus! {

/// Whether `rows` stand in report order.
pub open spec fn rows_sorted(rows: Seq<RegionState>) -> bool {
    forall|i: int, j: int| 0 <= i < j < rows.len() ==> row_le(#[trigger] rows[i], #[trigger] rows[j])
}

/// Report order is what `sorted_by` means with the order of rows.
pub proof fn lemma_rows_sorted_by(rows: Seq<RegionState>)
    ensures
        rows_sorted(rows) <==> sorted_by(rows, row_order()),
{
    let r = row_order();
    if rows_sorted(rows) {
        assert forall|i: int, j: int| 0 <= i < j < rows.len() implies #[trigger] r(
            rows[i],
            rows[j],
        ) by {
            assert(row_le(rows[i], rows[j]));
        }
    }
    if sorted_by(rows, r) {
        assert forall|i: int, j: int| 0 <= i < j < rows.len() implies row_le(
            #[trigger] rows[i],
            #[trigger] rows[j],
        ) by {
            assert(r(rows[i], rows[j]));
        }
    }
}

/// Sorted rows with the same contents are the same rows in the same places.
pub proof fn lemma_sorted_rows_unique(a: Seq<RegionState>, b: Seq<RegionState>)
    requires
        rows_sorted(a),
        rows_sorted(b),
        a.to_multiset() == b.to_multiset(),
    ensures
        a == b,
{
    lemma_row_order_total();
    lemma_rows_sorted_by(a);
    lemma_rows_sorted_by(b);
    lemma_sorted_unique(a, b, row_order());
}

/// Merges two sorted runs of rows into one.
fn merge_rows(left: &Vec<OutputRow>, right: &Vec<OutputRow>) -> (merged: Vec<OutputRow>)
    requires
        rows_sorted(row_views(left@)),
        rows_sorted(row_views(right@)),
    ensures
        rows_sorted(row_views(merged@)),
        row_views(merged@).to_multiset() == row_views(left@).to_multiset().add(
            row_views(right@).to_multiset(),
        ),
{
    broadcast use group_to_multiset_ensures;
    broadcast use vstd::multiset::group_multiset_axioms;

    let ghost lefts = row_views(left@);
    let ghost rights = row_views(right@);
    let mut merged: Vec<OutputRow> = Vec::new();
    let mut i: usize = 0;
    let mut j: usize = 0;
    proof {
        assert(lefts.take(0) =~= Seq::empty());
        assert(rights.take(0) =~= Seq::empty());
        assert(row_views(merged@) =~= Seq::empty());
    }
    while i < left.len() || j < right.len()
        invariant
            i <= left.len(),
            j <= right.len(),
            lefts == row_views(left@),
            rights == row_views(right@),
            rows_sorted(lefts),
            rows_sorted(rights),
            rows_sorted(row_views(merged@)),
            row_views(merged@).to_multiset() == lefts.take(i as int).to_multiset().add(
                rights.take(j as int).to_multiset(),
            ),
            forall|k: int|
                0 <= k < merged.len() && i < left.len() ==> row_le(
                    #[trigger] row_views(merged@)[k],
                    lefts[i as int],
                ),
            forall|k: int|
                0 <= k < merged.len() && j < right.len() ==> row_le(
                    #[trigger] row_views(merged@)[k],
                    rights[j as int],
                ),
        decreases left.len() - i + right.len() - j,
    {
        let ghost before = row_views(merged@);
        let from_left = if i == left.len() {
            false
        } else if j == right.len() {
            true
        } else {
            row_before_or_equal(&left[i], &right[j])
        };
        if from_left {
            let row = left[i].duplicate();
            merged.push(row);
            proof {
                let next = lefts[i as int];
                assert(row_views(merged@) =~= before.push(next));
                assert(lefts.take(i + 1) =~= lefts.take(i as int).push(next));
                to_multiset_build(before, next);
                to_multiset_build(lefts.take(i as int), next);
                assert(row_views(merged@).to_multiset() =~= before.to_multiset().insert(next));
                assert(lefts.take(i + 1).to_multiset() =~= lefts.take(i as int).to_multiset().insert(
                    next,
                ));
                assert(row_views(merged@).to_multiset() =~= lefts.take(i + 1).to_multiset().add(
                    rights.take(j as int).to_multiset(),
                ));
                assert forall|k: int| 0 <= k < merged.len() && i + 1 < left.len() implies row_le(
                    #[trigger] row_views(merged@)[k],
                    lefts[i + 1],
                ) by {
                    assert(row_le(lefts[i as int], lefts[i + 1]));
                    if k < before.len() {
                        assert(row_le(before[k], next));
                        lemma_row_le_transitive(before[k], next, lefts[i + 1]);
                    }
                }
                assert forall|k: int| 0 <= k < merged.len() && j < right.len() implies row_le(
                    #[trigger] row_views(merged@)[k],
                    rights[j as int],
                ) by {
                    if k < before.len() {
                        assert(row_le(before[k], rights[j as int]));
                    }
                }
                assert forall|a: int, b: int| 0 <= a < b < merged.len() implies row_le(
                    #[trigger] row_views(merged@)[a],
                    #[trigger] row_views(merged@)[b],
                ) by {
                    if b < before.len() {
                        assert(row_le(before[a], before[b]));
                    } else {
                        assert(row_le(before[a], next));
                    }
                }
            }
            i = i + 1;
        } else {
            let row = right[j].duplicate();
            merged.push(row);
            proof {
                let next = rights[j as int];
                assert(row_views(merged@) =~= before.push(next));
                assert(rights.take(j + 1) =~= rights.take(j as int).push(next));
                to_multiset_build(before, next);
                to_multiset_build(rights.take(j as int), next);
                assert(row_views(merged@).to_multiset() =~= before.to_multiset().insert(next));
                assert(rights.take(j + 1).to_multiset() =~= rights.take(
                    j as int,
                ).to_multiset().insert(next));
                assert(row_views(merged@).to_multiset() =~= lefts.take(i as int).to_multiset().add(
                    rights.take(j + 1).to_multiset(),
                ));
                if i < left.len() {
                    lemma_row_le_connected(lefts[i as int], next);
                }
                assert forall|k: int| 0 <= k < merged.len() && j + 1 < right.len() implies row_le(
                    #[trigger] row_views(merged@)[k],
                    rights[j + 1],
                ) by {
                    assert(row_le(rights[j as int], rights[j + 1]));
                    if k < before.len() {
                        assert(row_le(before[k], next));
                        lemma_row_le_transitive(before[k], next, rights[j + 1]);
                    }
                }
                assert forall|k: int| 0 <= k < merged.len() && i < left.len() implies row_le(
                    #[trigger] row_views(merged@)[k],
                    lefts[i as int],
                ) by {
                    if k < before.len() {
                        assert(row_le(before[k], lefts[i as int]));
                    }
                }
                assert forall|a: int, b: int| 0 <= a < b < merged.len() implies row_le(
                    #[trigger] row_views(merged@)[a],
                    #[trigger] row_views(merged@)[b],
                ) by {
                    if b < before.len() {
                        assert(row_le(before[a], before[b]));
                    } else {
                        assert(row_le(before[a], next));
                    }
                }
            }
            j = j + 1;
        }
    }
    proof {
        assert(lefts.take(i as int) =~= lefts);
        assert(rights.take(j as int) =~= rights);
    }
    merged
}

/// Sorted copy of the rows `low .. high` of `rows`.
fn sort_range(rows: &Vec<OutputRow>, low: usize, high: usize) -> (sorted: Vec<OutputRow>)
    requires
        low <= high <= rows.len(),
    ensures
        rows_sorted(row_views(sorted@)),
        row_views(sorted@).to_multiset() == row_views(rows@).subrange(
            low as int,
            high as int,
        ).to_multiset(),
    decreases high - low,
{
    broadcast use group_to_multiset_ensures;
    broadcast use vstd::multiset::group_multiset_axioms;

    let ghost all = row_views(rows@);
    if high - low == 0 {
        let sorted: Vec<OutputRow> = Vec::new();
        proof {
            assert(row_views(sorted@) =~= all.subrange(low as int, high as int));
        }
        sorted
    } else if high - low == 1 {
        let mut sorted: Vec<OutputRow> = Vec::new();
        sorted.push(rows[low].duplicate());
        proof {
            assert(row_views(sorted@) =~= all.subrange(low as int, high as int));
        }
        sorted
    } else {
        let mid = low + (high - low) / 2;
        let left = sort_range(rows, low, mid);
        let right = sort_range(rows, mid, high);
        proof {
            assert(all.subrange(low as int, high as int) =~= all.subrange(low as int, mid as int)
                + all.subrange(mid as int, high as int));
            lemma_multiset_commutative(
                all.subrange(low as int, mid as int),
                all.subrange(mid as int, high as int),
            );
        }
        merge_rows(&left, &right)
    }
}

/// Sorts rows by name, then start, then end, then overlap total. The result
/// holds the same rows as `rows`, and no other arrangement of them is sorted.
pub fn sort_rows(rows: &Vec<OutputRow>) -> (sorted: Vec<OutputRow>)
    ensures
        rows_sorted(row_views(sorted@)),
        row_views(sorted@).to_multiset() == row_views(rows@).to_multiset(),
        row_views(sorted@) == row_views(rows@).sort_by(row_order()),
{
    let sorted = sort_range(rows, 0, rows.len());
    proof {
        let all = row_views(rows@);
        assert(all.subrange(0, rows.len() as int) =~= all);
        lemma_row_order_total();
        all.lemma_sort_by_ensures(row_order());
        lemma_rows_sorted_by(all.sort_by(row_order()));
        lemma_sorted_rows_unique(row_views(sorted@), all.sort_by(row_order()));
    }
    sorted
}

} // verus!
