//! The regions of one chromosome, their overlap totals and the tree over them.

use crate::region::{row_views, update_node, OutputRow, Region, RegionState, MAX_COORDINATE};
use crate::span::AlignmentSpan;
use crate::tree::{entry_meets, tree_entries, tree_from_entries, tree_query, RegionTree};
use vstd::prelude::*;

verus! {

/// Most regions that one chromosome can hold.
pub const MAX_REGIONS: u64 = 4294967294;

/// The regions of a chromosome in the order they were loaded, each with the
/// overlap credited to it so far.
pub struct ChromosomeState {
    pub name: Seq<char>,
    pub regions: Seq<RegionState>,
}

impl ChromosomeState {
    /// The chromosome holds no more regions than the index can count, and
    /// each of them is well formed.
    pub open spec fn wf(self) -> bool {
        &&& self.regions.len() <= MAX_REGIONS
        &&& forall|i: int| 0 <= i < self.regions.len() ==> (#[trigger] self.regions[i]).wf()
    }

    /// Whether every total has room for what an alignment covering
    /// `ref_start ..= ref_end` adds to it.
    pub open spec fn has_room(self, ref_start: int, ref_end: int) -> bool {
        forall|i: int|
            0 <= i < self.regions.len() ==> (#[trigger] self.regions[i]).overlap_total
                + self.regions[i].credit(ref_start, ref_end) <= i64::MAX
    }

    /// This chromosome after an alignment covering `ref_start ..= ref_end`:
    /// every region has grown by its credit.
    pub open spec fn credited(self, ref_start: int, ref_end: int) -> ChromosomeState {
        ChromosomeState {
            name: self.name,
            regions: Seq::new(
                self.regions.len(),
                |i: int| self.regions[i].credited(self.regions[i].credit(ref_start, ref_end)),
            ),
        }
    }

    /// Whether region number `id` exists and meets `first ..= last`, the end
    /// of the region taken as its last base.
    pub open spec fn meets(self, id: int, first: int, last: int) -> bool {
        0 <= id < self.regions.len() && self.regions[id].start <= last && first
            <= self.regions[id].end
    }
}

/// Freshly loaded regions: each with a total of zero.
pub open spec fn group_states(regions: Seq<Region>) -> Seq<RegionState> {
    Seq::new(regions.len(), |i: int| regions[i].with_total(0))
}

/// Whether `regions` can make up one chromosome.
pub open spec fn group_valid(regions: Seq<Region>) -> bool {
    &&& regions.len() <= MAX_REGIONS
    &&& forall|i: int| 0 <= i < regions.len() ==> (#[trigger] regions[i]).wf()
}

/// The counters of a chromosome could not take an alignment.
#[derive(Clone, Copy, Debug, PartialEq, Eq, Structural)]
pub struct TotalOverflow;

/// The interval index of one chromosome. The regions never change once the
/// index is built; only their overlap totals grow.
pub struct ChromosomeIndex {
    name: String,
    regions: Vec<Region>,
    totals: Vec<i64>,
    tree: RegionTree,
}

/// The interval that stands for region number `id` in the tree.
spec fn entry_of(region: Region, id: int) -> (i32, i32, usize) {
    (region.start as i32, region.end as i32, id as usize)
}

/// The intervals that stand for `regions` in the tree.
spec fn entries_of(regions: Seq<Region>) -> Seq<(i32, i32, usize)> {
    Seq::new(regions.len(), |i: int| entry_of(regions[i], i))
}

/// No interval stands for two regions: each is held once.
proof fn lemma_entries_distinct(regions: Seq<Region>)
    requires
        regions.len() <= usize::MAX,
    ensures
        entries_of(regions).no_duplicates(),
        forall|e: (i32, i32, usize)|
            entries_of(regions).to_multiset().count(e) == (if 0 <= e.2 < regions.len() && e
                == entry_of(regions[e.2 as int], e.2 as int) {
                1nat
            } else {
                0nat
            }),
{
    broadcast use vstd::seq_lib::group_to_multiset_ensures;

    let entries = entries_of(regions);
    assert(entries.no_duplicates());
    entries.lemma_multiset_has_no_duplicates();
    assert forall|e: (i32, i32, usize)|
        entries.to_multiset().count(e) == (if 0 <= e.2 < regions.len() && e == entry_of(
            regions[e.2 as int],
            e.2 as int,
        ) {
            1nat
        } else {
            0nat
        }) by {
        if 0 <= e.2 < regions.len() && e == entry_of(regions[e.2 as int], e.2 as int) {
            assert(entries[e.2 as int] == e);
            assert(entries.contains(e));
        } else {
            if entries.contains(e) {
                let k = choose|k: int| 0 <= k < entries.len() && entries[k] == e;
                assert(e.2 == k);
            }
        }
    }
}

/// Two sequences with the same contents still have the same contents after
/// one function has been applied to every element of both.
proof fn lemma_map_keeps_contents<A, B>(a: Seq<A>, b: Seq<A>, f: spec_fn(A) -> B)
    requires
        a.to_multiset() == b.to_multiset(),
    ensures
        a.map_values(f).to_multiset() == b.map_values(f).to_multiset(),
    decreases a.len(),
{
    broadcast use vstd::seq_lib::group_to_multiset_ensures;
    broadcast use vstd::multiset::group_multiset_axioms;

    a.to_multiset_ensures();
    b.to_multiset_ensures();
    if a.len() == 0 {
        assert(b.len() == 0);
        assert(a.map_values(f) =~= b.map_values(f));
    } else {
        let x = a.last();
        assert(a.contains(x));
        assert(a.to_multiset().count(x) > 0);
        assert(b.contains(x));
        let i = choose|i: int| 0 <= i < b.len() && b[i] == x;
        let a_rest = a.drop_last();
        let b_rest = b.remove(i);
        assert(a_rest =~= a.remove(a.len() - 1));
        vstd::seq_lib::to_multiset_remove(a, a.len() - 1);
        vstd::seq_lib::to_multiset_remove(b, i);
        assert(a_rest.to_multiset() =~= b_rest.to_multiset());
        lemma_map_keeps_contents(a_rest, b_rest, f);
        let fa = a.map_values(f);
        let fb = b.map_values(f);
        assert(fa.remove(a.len() - 1) =~= a_rest.map_values(f));
        assert(fb.remove(i) =~= b_rest.map_values(f));
        vstd::seq_lib::to_multiset_remove(fa, a.len() - 1);
        vstd::seq_lib::to_multiset_remove(fb, i);
        fa.to_multiset_ensures();
        fb.to_multiset_ensures();
        assert(fa.contains(fa[a.len() - 1]));
        assert(fb.contains(fb[i]));
        assert(fa[a.len() - 1] == f(x));
        assert(fb[i] == f(x));
        assert(fa.to_multiset() =~= fa.remove(a.len() - 1).to_multiset().insert(f(x)));
        assert(fb.to_multiset() =~= fb.remove(i).to_multiset().insert(f(x)));
    }
}

impl View for ChromosomeIndex {
    type V = ChromosomeState;

    closed spec fn view(&self) -> ChromosomeState {
        ChromosomeState {
            name: self.name@,
            regions: Seq::new(
                self.regions.len() as nat,
                |i: int| self.regions[i].with_total(self.totals[i] as int),
            ),
        }
    }
}

impl ChromosomeIndex {
    /// The totals go with the regions one to one, the state is well formed
    /// and the tree holds one interval for each region.
    pub closed spec fn wf(&self) -> bool {
        &&& self.regions.len() == self.totals.len()
        &&& self@.wf()
        &&& tree_entries(self.tree) == entries_of(self.regions@).to_multiset()
    }

    /// Indexes `regions` under the chromosome `name`, every total at zero.
    pub fn build(name: String, regions: Vec<Region>) -> (index: ChromosomeIndex)
        requires
            group_valid(regions@),
        ensures
            index.wf(),
            index@.name == name@,
            index@.regions == group_states(regions@),
    {
        let mut entries: Vec<(i32, i32, usize)> = Vec::new();
        let mut totals: Vec<i64> = Vec::new();
        let mut id: usize = 0;
        while id < regions.len()
            invariant
                id <= regions.len(),
                regions.len() <= MAX_REGIONS,
                forall|i: int| 0 <= i < regions.len() ==> (#[trigger] regions[i]).wf(),
                entries@ == entries_of(regions@.take(id as int)),
                totals@ == Seq::new(id as nat, |i: int| 0i64),
            decreases regions.len() - id,
        {
            let region = &regions[id];
            entries.push((region.start as i32, region.end as i32, id));
            totals.push(0);
            id = id + 1;
            assert(entries@ =~= entries_of(regions@.take(id as int)));
            assert(totals@ =~= Seq::new(id as nat, |i: int| 0i64));
        }
        assert(regions@.take(id as int) == regions@);
        let tree = tree_from_entries(&entries);
        let index = ChromosomeIndex { name, regions, totals, tree };
        assert(index@.regions =~= group_states(regions@));
        index
    }

    /// Name of the chromosome.
    pub fn name(&self) -> (name: &String)
        ensures
            name@ == self@.name,
    {
        &self.name
    }

    /// Number of regions.
    pub fn len(&self) -> (len: usize)
        requires
            self.wf(),
        ensures
            len == self@.regions.len(),
    {
        self.regions.len()
    }

    /// Region number `id`.
    pub fn region(&self, id: usize) -> (region: &Region)
        requires
            self.wf(),
            id < self@.regions.len(),
        ensures
            region.wf(),
            region.with_total(self@.regions[id as int].overlap_total) == self@.regions[id as int],
    {
        assert(self@.regions[id as int].wf());
        &self.regions[id]
    }

    /// Overlap credited so far to region number `id`.
    pub fn overlap_total(&self, id: usize) -> (total: i64)
        requires
            self.wf(),
            id < self@.regions.len(),
        ensures
            total == self@.regions[id as int].overlap_total,
    {
        self.totals[id]
    }

    /// Numbers of the regions that meet `first ..= last`, each once, in no
    /// particular order. A region meets the query where it starts at `last`
    /// or before and ends at `first` or after.
    pub fn query_overlaps(&self, first: i32, last: i32) -> (ids: Vec<usize>)
        requires
            self.wf(),
        ensures
            ids@.no_duplicates(),
            forall|id: usize|
                ids@.contains(id) <==> self@.meets(id as int, first as int, last as int),
    {
        broadcast use vstd::seq_lib::group_to_multiset_ensures;
        broadcast use vstd::multiset::group_multiset_axioms;

        let hits = tree_query(&self.tree, first, last);
        proof {
            lemma_entries_distinct(self.regions@);
            assert forall|e: (i32, i32, usize)|
                hits@.to_multiset().contains(e) implies hits@.to_multiset().count(e) == 1 by {}
            hits@.lemma_multiset_has_no_duplicates_conv();
        }
        let mut ids: Vec<usize> = Vec::new();
        let mut k: usize = 0;
        while k < hits.len()
            invariant
                k <= hits.len(),
                ids@ == Seq::new(k as nat, |i: int| hits@[i].2),
            decreases hits.len() - k,
        {
            ids.push(hits[k].2);
            k = k + 1;
            assert(ids@ =~= Seq::new(k as nat, |i: int| hits@[i].2));
        }
        proof {
            let entries = entries_of(self.regions@);
            assert forall|i: int| 0 <= i < hits.len() implies {
                &&& 0 <= (#[trigger] hits@[i]).2 < self.regions.len()
                &&& hits@[i] == entry_of(self.regions@[hits@[i].2 as int], hits@[i].2 as int)
                &&& entry_meets(hits@[i], first, last)
            } by {
                assert(hits@.contains(hits@[i]));
                assert(hits@.to_multiset().count(hits@[i]) > 0);
            }
            assert forall|i: int, j: int|
                0 <= i < ids.len() && 0 <= j < ids.len() && i != j implies ids@[i] != ids@[j] by {
                assert(hits@[i] != hits@[j]);
            }
            assert forall|id: usize|
                ids@.contains(id) <==> self@.meets(id as int, first as int, last as int) by {
                if ids@.contains(id) {
                    let i = choose|i: int| 0 <= i < ids.len() && ids@[i] == id;
                    assert(hits@[i].2 == id);
                    assert(self@.regions[id as int].wf());
                }
                if self@.meets(id as int, first as int, last as int) {
                    assert(self@.regions[id as int].wf());
                    let e = entry_of(self.regions@[id as int], id as int);
                    assert(entry_meets(e, first, last));
                    assert(hits@.to_multiset().count(e) == 1);
                    assert(hits@.contains(e));
                    let i = choose|i: int| 0 <= i < hits.len() && hits@[i] == e;
                    assert(ids@[i] == id);
                }
            }
        }
        ids
    }

    /// Credits an alignment to every region of the chromosome: each total
    /// grows by the credit of its region, which is zero for unnamed regions
    /// and for regions that the alignment neither reaches nor lies beside.
    /// Where one total has no room for its credit, nothing changes.
    pub fn add_span(&mut self, span: &AlignmentSpan) -> (outcome: Result<(), TotalOverflow>)
        requires
            old(self).wf(),
            span.wf(),
        ensures
            final(self).wf(),
            outcome is Ok <==> old(self)@.has_room(span.ref_start as int, span.ref_end as int),
            outcome is Ok ==> final(self)@ == old(self)@.credited(
                span.ref_start as int,
                span.ref_end as int,
            ),
            outcome is Err ==> final(self)@ == old(self)@,
    {
        let ghost before = self@;
        let ghost ref_start = span.ref_start as int;
        let ghost ref_end = span.ref_end as int;
        if span.ref_start - 1 > MAX_COORDINATE {
            proof {
                assert forall|i: int| 0 <= i < before.regions.len() implies (
                #[trigger] before.regions[i]).credit(ref_start, ref_end) == 0 by {
                    assert(before.regions[i].wf());
                }
                assert(before.credited(ref_start, ref_end).regions =~= before.regions);
            }
            return Ok(());
        }
        let first = (span.ref_start - 1) as i32;
        let last: i32 = if span.ref_end + 1 > i32::MAX as i64 {
            i32::MAX
        } else {
            (span.ref_end + 1) as i32
        };
        let ids = self.query_overlaps(first, last);
        proof {
            assert forall|i: int| 0 <= i < before.regions.len() && !ids@.contains(
                i as usize,
            ) implies (#[trigger] before.regions[i]).credit(ref_start, ref_end) == 0 by {
                assert(before.regions[i].wf());
                assert(!before.meets(i, first as int, last as int));
            }
        }
        let mut k: usize = 0;
        while k < ids.len()
            invariant
                k <= ids.len(),
                self.wf(),
                self@ == before,
                span.wf(),
                ref_start == span.ref_start,
                ref_end == span.ref_end,
                forall|id: usize| ids@.contains(id) ==> id < before.regions.len(),
                forall|j: int|
                    0 <= j < k ==> before.regions[(#[trigger] ids@[j]) as int].overlap_total
                        + before.regions[ids@[j] as int].credit(ref_start, ref_end) <= i64::MAX,
            decreases ids.len() - k,
        {
            let id = ids[k];
            assert(ids@.contains(id));
            assert(before.regions[id as int].wf());
            let updated = update_node(
                span.ref_start,
                span.ref_end,
                &self.regions[id],
                self.totals[id],
            );
            if updated.is_none() {
                return Err(TotalOverflow);
            }
            k = k + 1;
        }
        proof {
            assert forall|i: int| 0 <= i < before.regions.len() implies (
            #[trigger] before.regions[i]).overlap_total + before.regions[i].credit(
                ref_start,
                ref_end,
            ) <= i64::MAX by {
                assert(before.regions[i].wf());
                if ids@.contains(i as usize) {
                    let j = choose|j: int| 0 <= j < ids.len() && ids@[j] == i as usize;
                    assert(ids@[j] == i);
                }
            }
        }
        let ghost old_totals = self.totals@;
        let mut k: usize = 0;
        while k < ids.len()
            invariant
                k <= ids.len(),
                span.wf(),
                ref_start == span.ref_start,
                ref_end == span.ref_end,
                before.wf(),
                before.has_room(ref_start, ref_end),
                ids@.no_duplicates(),
                forall|id: usize| ids@.contains(id) ==> id < before.regions.len(),
                self.name@ == before.name,
                self.regions.len() == before.regions.len(),
                self.totals.len() == before.regions.len(),
                tree_entries(self.tree) == entries_of(self.regions@).to_multiset(),
                forall|i: int|
                    0 <= i < before.regions.len() ==> (#[trigger] self.regions[i]).with_total(
                        old_totals[i] as int,
                    ) == before.regions[i],
                forall|i: int|
                    0 <= i < before.regions.len() ==> (#[trigger] self.totals[i]) == old_totals[i]
                        + (if ids@.take(k as int).contains(i as usize) {
                        before.regions[i].credit(ref_start, ref_end)
                    } else {
                        0
                    }),
            decreases ids.len() - k,
        {
            let id = ids[k];
            assert(ids@.contains(id));
            assert(before.regions[id as int].wf());
            assert(!ids@.take(k as int).contains(id));
            assert(self.regions[id as int].with_total(old_totals[id as int] as int)
                == before.regions[id as int]);
            let updated = update_node(
                span.ref_start,
                span.ref_end,
                &self.regions[id],
                self.totals[id],
            );
            match updated {
                Some(total) => {
                    self.totals.set(id, total);
                },
                None => {},
            }
            k = k + 1;
            proof {
                assert forall|i: int| 0 <= i < before.regions.len() implies (
                #[trigger] self.totals[i]) == old_totals[i] + (if ids@.take(k as int).contains(
                    i as usize,
                ) {
                    before.regions[i].credit(ref_start, ref_end)
                } else {
                    0
                }) by {
                    let earlier = ids@.take(k - 1);
                    let seen = ids@.take(k as int);
                    assert(seen =~= earlier.push(id));
                    if i == id {
                        assert(seen[k - 1] == id);
                    } else if seen.contains(i as usize) {
                        let j = choose|j: int| 0 <= j < seen.len() && seen[j] == i as usize;
                        assert(earlier[j] == i as usize);
                    } else if earlier.contains(i as usize) {
                        let j = choose|j: int| 0 <= j < earlier.len() && earlier[j] == i as usize;
                        assert(seen[j] == i as usize);
                    }
                }
            }
        }
        proof {
            assert(ids@.take(k as int) == ids@);
            let after = before.credited(ref_start, ref_end);
            assert forall|i: int| 0 <= i < before.regions.len() implies self@.regions[i]
                == after.regions[i] by {
                assert(before.regions[i].wf());
                assert(self.regions[i].with_total(old_totals[i] as int) == before.regions[i]);
                assert(self.totals[i] == old_totals[i] + (if ids@.contains(i as usize) {
                    before.regions[i].credit(ref_start, ref_end)
                } else {
                    0
                }));
            }
            assert(self@.regions =~= after.regions);
            assert forall|i: int| 0 <= i < self@.regions.len() implies (
            #[trigger] self@.regions[i]).wf() by {
                assert(before.regions[i].wf());
                assert(self@.regions[i] == after.regions[i]);
            }
        }
        Ok(())
    }

    /// Drains the index with a query over the whole range of coordinates:
    /// one row for every region, in no particular order.
    pub fn rows(&self) -> (rows: Vec<OutputRow>)
        requires
            self.wf(),
        ensures
            row_views(rows@).to_multiset() == self@.regions.to_multiset(),
            forall|i: int| 0 <= i < rows.len() ==> (#[trigger] rows[i]@).wf(),
    {
        broadcast use vstd::seq_lib::group_to_multiset_ensures;
        broadcast use vstd::multiset::group_multiset_axioms;

        let hits = tree_query(&self.tree, 0, i32::MAX);
        let ghost entries = entries_of(self.regions@);
        let ghost state = self@;
        let ghost row_of = |e: (i32, i32, usize)| state.regions[e.2 as int];
        proof {
            lemma_entries_distinct(self.regions@);
            assert forall|e: (i32, i32, usize)| hits@.to_multiset().count(e)
                == entries.to_multiset().count(e) by {
                if 0 <= e.2 < self.regions.len() && e == entry_of(
                    self.regions@[e.2 as int],
                    e.2 as int,
                ) {
                    assert(state.regions[e.2 as int].wf());
                    assert(entry_meets(e, 0, 2147483647));
                }
            }
            assert(hits@.to_multiset() =~= entries.to_multiset());
            lemma_map_keeps_contents(hits@, entries, row_of);
            assert(entries.map_values(row_of) =~= state.regions);
            assert forall|k: int| 0 <= k < hits.len() implies 0 <= (#[trigger] hits@[k]).2
                < self.regions.len() by {
                assert(hits@.contains(hits@[k]));
                assert(hits@.to_multiset().count(hits@[k]) > 0);
            }
        }
        let mut rows: Vec<OutputRow> = Vec::new();
        let mut k: usize = 0;
        while k < hits.len()
            invariant
                k <= hits.len(),
                self.wf(),
                state == self@,
                forall|n: int| 0 <= n < hits.len() ==> 0 <= (#[trigger] hits@[n]).2
                    < self.regions.len(),
                rows.len() == k,
                forall|n: int|
                    0 <= n < k ==> (#[trigger] rows[n])@ == state.regions[hits@[n].2 as int],
            decreases hits.len() - k,
        {
            let id = hits[k].2;
            let region = &self.regions[id];
            rows.push(
                OutputRow {
                    name: region.name.clone(),
                    start: region.start,
                    end: region.end,
                    overlap_total: self.totals[id],
                },
            );
            k = k + 1;
        }
        proof {
            assert(row_views(rows@) =~= hits@.map_values(row_of));
            assert forall|i: int| 0 <= i < rows.len() implies (#[trigger] rows[i]@).wf() by {
                assert(state.regions[hits@[i].2 as int].wf());
            }
        }
        rows
    }
}

} // verus!
