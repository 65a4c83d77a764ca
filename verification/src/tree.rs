//! The interval tree that answers overlap queries, from the `coitrees` crate.

use coitrees::{BasicCOITree, Interval, IntervalTree};
use vstd::multiset::Multiset;
use vstd::prelude::*;

verus! {

/// A static interval tree. Each interval is stored with both ends included
/// and carries the number of the region it stands for.
#[verifier::external_body]
pub struct RegionTree {
    inner: BasicCOITree<usize, u32>,
}

/// The intervals that a tree holds, each as `(first, last, region number)`.
pub uninterp spec fn tree_entries(tree: RegionTree) -> Multiset<(i32, i32, usize)>;

/// Whether the interval of `entry` meets `first ..= last`, the ends of both
/// included.
pub open spec fn entry_meets(entry: (i32, i32, usize), first: i32, last: i32) -> bool {
    entry.0 <= last && first <= entry.1
}

/// Builds a tree with `BasicCOITree::new`, which copies every interval it is
/// given into a node of the tree: the tree holds exactly the given entries.
/// The crate computes the width of a subtree as `last - first + 1` in `i32`
/// and refuses as many intervals as its `u32` index can count, hence the
/// bounds on the entries and on their number.
#[verifier::external_body]
pub(crate) fn tree_from_entries(entries: &Vec<(i32, i32, usize)>) -> (tree: RegionTree)
    requires
        entries.len() < u32::MAX,
        forall|i: int|
            0 <= i < entries.len() ==> 0 <= (#[trigger] entries[i]).0 <= entries[i].1 < i32::MAX,
    ensures
        tree_entries(tree) == entries@.to_multiset(),
{
    let intervals: Vec<Interval<usize>> =
        entries.iter().map(|e| Interval::new(e.0, e.1, e.2)).collect();
    RegionTree { inner: BasicCOITree::new(&intervals) }
}

/// Runs `BasicCOITree::query`, which calls its visitor once on every node
/// whose interval overlaps `first ..= last`, and collects the nodes visited:
/// what comes back is, in some order, every entry of the tree that meets the
/// query, as often as the tree holds it.
#[verifier::external_body]
pub(crate) fn tree_query(tree: &RegionTree, first: i32, last: i32) -> (hits: Vec<(i32, i32, usize)>)
    ensures
        hits@.to_multiset() == tree_entries(*tree).filter(
            |entry: (i32, i32, usize)| entry_meets(entry, first, last),
        ),
{
    let mut hits = Vec::new();
    tree.inner.query(first, last, |node| hits.push((node.first, node.last, node.metadata)));
    hits
}

} // verus!
