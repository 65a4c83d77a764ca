//! The coverage engine: the catalog of regions by chromosome, the crediting
//! of alignments and the report.

use crate::index::{
    group_states, group_valid, ChromosomeIndex, ChromosomeState, MAX_REGIONS,
};
use crate::lookup::{
    groups_get, groups_insert, groups_new, slot_table, slots_get, slots_insert, slots_new,
    group_table,
};
use crate::order::row_order;
use crate::region::{row_views, Region, RegionState, MAX_COORDINATE};
use crate::report::{chromosome_lines, fold_rows, report_lines, ReportLine, ReportRow};
use crate::sort::{lemma_sorted_rows_unique, sort_rows};
use crate::span::{span_of, span_outcome, AlignmentRecord, AlignmentView, SpanFault};
use fnv::FnvBuildHasher;
use indexmap::IndexMap;
use vstd::prelude::*;

verus! {

/// A target region as it is read: the name may be missing.
#[derive(Clone, Debug, PartialEq, Eq)]
pub struct RegionRecord {
    pub chromosome: String,
    pub start: u64,
    pub end: u64,
    pub name: Option<String>,
}

/// A region record as plain values.
pub struct RecordView {
    pub chromosome: Seq<char>,
    pub start: int,
    pub end: int,
    pub name: Option<Seq<char>>,
}

impl View for RegionRecord {
    type V = RecordView;

    open spec fn view(&self) -> RecordView {
        RecordView {
            chromosome: self.chromosome@,
            start: self.start as int,
            end: self.end as int,
            name: match self.name {
                Some(name) => Some(name@),
                None => None,
            },
        }
    }
}

/// The records of `records` as plain values.
pub open spec fn record_views(records: Seq<RegionRecord>) -> Seq<RecordView> {
    Seq::new(records.len(), |i: int| records[i]@)
}

/// What is wrong with a region record.
#[derive(Clone, Copy, Debug, PartialEq, Eq, Structural)]
pub enum CatalogFault {
    /// The record has no name.
    MissingName,
    /// The record ends before it starts.
    InvertedBounds,
    /// The record ends beyond the largest coordinate.
    CoordinateTooLarge,
    /// The chromosome of the record is full.
    TooManyRegions,
}

/// The first record that cannot be loaded, by its position, and why.
#[derive(Clone, Copy, Debug, PartialEq, Eq, Structural)]
pub struct CatalogError {
    pub record: usize,
    pub fault: CatalogFault,
}

/// The region that a record with a name stands for, nothing credited yet.
pub open spec fn loaded_region(record: RecordView) -> RegionState {
    RegionState {
        name: match record.name {
            Some(name) => name,
            None => Seq::empty(),
        },
        start: record.start,
        end: record.end,
        overlap_total: 0,
    }
}

/// The regions that `records` load on `chromosome`, in the order of the
/// records.
pub open spec fn regions_on(records: Seq<RecordView>, chromosome: Seq<char>) -> Seq<RegionState>
    decreases records.len(),
{
    if records.len() == 0 {
        Seq::empty()
    } else if records.last().chromosome == chromosome {
        regions_on(records.drop_last(), chromosome).push(loaded_region(records.last()))
    } else {
        regions_on(records.drop_last(), chromosome)
    }
}

/// The chromosomes of `records`, each once, in the order in which they
/// first occur.
pub open spec fn first_seen(records: Seq<RecordView>) -> Seq<Seq<char>>
    decreases records.len(),
{
    if records.len() == 0 {
        Seq::empty()
    } else if first_seen(records.drop_last()).contains(records.last().chromosome) {
        first_seen(records.drop_last())
    } else {
        first_seen(records.drop_last()).push(records.last().chromosome)
    }
}

/// The catalog that `records` load: the chromosomes in the order in which
/// they first occur, each with its regions in the order of the records.
pub open spec fn catalog_of(records: Seq<RecordView>) -> Seq<ChromosomeState> {
    Seq::new(
        first_seen(records).len(),
        |i: int|
            ChromosomeState {
                name: first_seen(records)[i],
                regions: regions_on(records, first_seen(records)[i]),
            },
    )
}

/// What is wrong with record number `k` of `records`, if anything.
pub open spec fn record_fault(records: Seq<RecordView>, k: int) -> Option<CatalogFault> {
    let record = records[k];
    if record.name is None {
        Some(CatalogFault::MissingName)
    } else if record.start > record.end {
        Some(CatalogFault::InvertedBounds)
    } else if record.end > MAX_COORDINATE {
        Some(CatalogFault::CoordinateTooLarge)
    } else if regions_on(records.take(k), record.chromosome).len() >= MAX_REGIONS {
        Some(CatalogFault::TooManyRegions)
    } else {
        None
    }
}

/// Why an alignment record was not credited.
#[derive(Clone, Copy, Debug, PartialEq, Eq, Structural)]
pub enum AlignmentFault {
    /// The leftmost mapped position is negative.
    NegativePosition,
    /// The span leaves no coordinate for the base that follows it.
    SpanTooLong,
    /// A total of the chromosome has no room for what the record adds.
    TotalOverflow,
}

/// `state` after an alignment on `chromosome` covering
/// `ref_start ..= ref_end`: the regions of that chromosome have grown by
/// their credit, the other chromosomes are as they were.
pub open spec fn credited_catalog(
    state: Seq<ChromosomeState>,
    chromosome: Seq<char>,
    ref_start: int,
    ref_end: int,
) -> Seq<ChromosomeState> {
    Seq::new(
        state.len(),
        |i: int|
            if state[i].name == chromosome {
                state[i].credited(ref_start, ref_end)
            } else {
                state[i]
            },
    )
}

/// Whether the totals of `chromosome` have room for an alignment covering
/// `ref_start ..= ref_end`.
pub open spec fn catalog_has_room(
    state: Seq<ChromosomeState>,
    chromosome: Seq<char>,
    ref_start: int,
    ref_end: int,
) -> bool {
    forall|i: int|
        0 <= i < state.len() && (#[trigger] state[i]).name == chromosome ==> state[i].has_room(
            ref_start,
            ref_end,
        )
}

/// What becomes of `state` when `record` is added. Supplementary records
/// and records without a chromosome change nothing, and neither does a
/// record on a chromosome that the catalog does not hold.
pub open spec fn alignment_outcome(state: Seq<ChromosomeState>, record: AlignmentView) -> Result<
    Seq<ChromosomeState>,
    AlignmentFault,
> {
    if record.is_supplementary {
        Ok(state)
    } else {
        match record.chromosome {
            None => Ok(state),
            Some(chromosome) => match span_outcome(record.position, record.ops) {
                Err(SpanFault::NegativePosition) => Err(AlignmentFault::NegativePosition),
                Err(SpanFault::TooLong) => Err(AlignmentFault::SpanTooLong),
                Ok(span) => if catalog_has_room(
                    state,
                    chromosome,
                    span.ref_start as int,
                    span.ref_end as int,
                ) {
                    Ok(
                        credited_catalog(
                            state,
                            chromosome,
                            span.ref_start as int,
                            span.ref_end as int,
                        ),
                    )
                } else {
                    Err(AlignmentFault::TotalOverflow)
                },
            },
        }
    }
}

/// The report of `state`: the reports of its chromosomes one after another,
/// the rows of each chromosome sorted into report order.
pub open spec fn catalog_report(state: Seq<ChromosomeState>, legacy_length: bool) -> Seq<ReportLine>
    decreases state.len(),
{
    if state.len() == 0 {
        Seq::empty()
    } else {
        catalog_report(state.drop_last(), legacy_length) + chromosome_lines(
            state.last().name,
            state.last().regions.sort_by(row_order()),
            legacy_length,
        )
    }
}

/// Whether `table` gives for each name of `names` its position, and holds
/// no other name.
spec fn table_matches(table: Map<Seq<char>, usize>, names: Seq<Seq<char>>) -> bool {
    &&& forall|s: int|
        0 <= s < names.len() ==> table.dom().contains(#[trigger] names[s]) && table[names[s]] == s
    &&& forall|name: Seq<char>| #[trigger]
        table.dom().contains(name) ==> table[name] < names.len() && names[table[name] as int]
            == name
}

/// The names of `names` as plain values.
spec fn name_views(names: Seq<String>) -> Seq<Seq<char>> {
    Seq::new(names.len(), |i: int| names[i]@)
}

/// The names of the chromosomes of `state`.
spec fn chromosome_names(state: Seq<ChromosomeState>) -> Seq<Seq<char>> {
    Seq::new(state.len(), |i: int| state[i].name)
}

proof fn lemma_unseen_has_no_regions(records: Seq<RecordView>, chromosome: Seq<char>)
    requires
        !first_seen(records).contains(chromosome),
    ensures
        regions_on(records, chromosome).len() == 0,
    decreases records.len(),
{
    if records.len() > 0 {
        let earlier = first_seen(records.drop_last());
        if earlier.contains(records.last().chromosome) {
            lemma_unseen_has_no_regions(records.drop_last(), chromosome);
        } else {
            let seen = earlier.push(records.last().chromosome);
            assert(seen[earlier.len() as int] == records.last().chromosome);
            assert forall|i: int| 0 <= i < earlier.len() implies earlier[i] != chromosome by {
                assert(seen[i] == earlier[i]);
            }
            lemma_unseen_has_no_regions(records.drop_last(), chromosome);
        }
    }
}

/// The catalog of target regions with their overlap totals.
pub struct CoverageEngine {
    chromosomes: Vec<ChromosomeIndex>,
    slots: IndexMap<String, usize, FnvBuildHasher>,
}

impl View for CoverageEngine {
    type V = Seq<ChromosomeState>;

    closed spec fn view(&self) -> Seq<ChromosomeState> {
        Seq::new(self.chromosomes.len() as nat, |i: int| self.chromosomes[i]@)
    }
}

impl CoverageEngine {
    /// Every chromosome is well formed and can be found by its name.
    pub closed spec fn wf(&self) -> bool {
        &&& forall|i: int| 0 <= i < self.chromosomes.len() ==> (#[trigger] self.chromosomes[i]).wf()
        &&& table_matches(slot_table(self.slots), chromosome_names(self@))
    }

    /// Loads `records` in their order. A chromosome takes its place when its
    /// first record is loaded, and a region follows the regions that were
    /// loaded on its chromosome before it. The first record that cannot be
    /// loaded stops the loading.
    pub fn build(records: &Vec<RegionRecord>) -> (outcome: Result<CoverageEngine, CatalogError>)
        ensures
            outcome matches Ok(engine) ==> {
                &&& engine.wf()
                &&& engine@ == catalog_of(record_views(records@))
                &&& forall|k: int|
                    0 <= k < records.len() ==> record_fault(record_views(records@), k) is None
            },
            outcome matches Err(error) ==> {
                &&& error.record < records.len()
                &&& record_fault(record_views(records@), error.record as int) == Some(error.fault)
                &&& forall|k: int|
                    0 <= k < error.record ==> record_fault(record_views(records@), k) is None
            },
    {
        let ghost views = record_views(records@);
        let mut names: Vec<String> = Vec::new();
        let mut groups: Vec<Vec<Region>> = Vec::new();
        let mut group_of = groups_new();
        let mut k: usize = 0;
        proof {
            assert(name_views(names@) =~= first_seen(views.take(0)));
        }
        while k < records.len()
            invariant
                k <= records.len(),
                views == record_views(records@),
                forall|n: int| 0 <= n < k ==> record_fault(views, n) is None,
                names.len() == groups.len(),
                name_views(names@) == first_seen(views.take(k as int)),
                forall|s: int|
                    0 <= s < groups.len() ==> group_states((#[trigger] groups[s])@) == regions_on(
                        views.take(k as int),
                        names[s]@,
                    ),
                forall|s: int| 0 <= s < groups.len() ==> group_valid((#[trigger] groups[s])@),
                table_matches(group_table(group_of), name_views(names@)),
            decreases records.len() - k,
        {
            let record = &records[k];
            let ghost loaded = views.take(k as int);
            let ghost next = views.take(k + 1);
            let ghost place = record.chromosome@;
            let ghost old_names = name_views(names@);
            let ghost old_groups = groups@;
            proof {
                assert(views[k as int] == record@);
                assert(next.drop_last() =~= loaded);
                assert(next.last() == views[k as int]);
            }
            let name = match &record.name {
                Some(name) => name,
                None => {
                    return Err(CatalogError { record: k, fault: CatalogFault::MissingName });
                },
            };
            if record.start > record.end {
                return Err(CatalogError { record: k, fault: CatalogFault::InvertedBounds });
            }
            if record.end > MAX_COORDINATE as u64 {
                return Err(CatalogError { record: k, fault: CatalogFault::CoordinateTooLarge });
            }
            let region = Region {
                name: name.clone(),
                start: record.start as i64,
                end: record.end as i64,
            };
            assert(region.with_total(0) == loaded_region(views[k as int]));
            match groups_get(&group_of, record.chromosome.as_str()) {
                Some(slot) => {
                    assert(old_names[slot as int] == place);
                    assert(names[slot as int]@ == place);
                    if groups[slot].len() as u64 >= MAX_REGIONS {
                        return Err(
                            CatalogError { record: k, fault: CatalogFault::TooManyRegions },
                        );
                    }
                    groups[slot].push(region);
                    proof {
                        assert(old_names.contains(place));
                        assert(group_states(groups[slot as int]@) =~= group_states(
                            old_groups[slot as int]@,
                        ).push(loaded_region(views[k as int])));
                        assert forall|s: int| 0 <= s < groups.len() implies group_states(
                            (#[trigger] groups[s])@,
                        ) == regions_on(next, names[s]@) by {
                            if s != slot {
                                assert(groups[s] == old_groups[s]);
                                assert(old_names[s] == names[s]@);
                                assert(names[s]@ != place);
                            }
                        }
                        assert forall|s: int| 0 <= s < groups.len() implies group_valid(
                            (#[trigger] groups[s])@,
                        ) by {
                            if s != slot {
                                assert(groups[s] == old_groups[s]);
                            } else {
                                assert(group_valid(old_groups[s]@));
                                assert forall|i: int| 0 <= i < groups[s]@.len() implies (
                                #[trigger] groups[s]@[i]).wf() by {
                                    if i < old_groups[s]@.len() {
                                        assert(groups[s]@[i] == old_groups[s]@[i]);
                                    }
                                }
                            }
                        }
                    }
                },
                None => {
                    proof {
                        assert(!old_names.contains(place)) by {
                            if old_names.contains(place) {
                                let s = choose|s: int|
                                    0 <= s < old_names.len() && old_names[s] == place;
                                assert(group_table(group_of).dom().contains(old_names[s]));
                            }
                        }
                        lemma_unseen_has_no_regions(loaded, place);
                    }
                    let slot = names.len();
                    groups_insert(&mut group_of, record.chromosome.clone(), slot);
                    names.push(record.chromosome.clone());
                    let mut group: Vec<Region> = Vec::new();
                    group.push(region);
                    groups.push(group);
                    proof {
                        assert(name_views(names@) =~= old_names.push(place));
                        assert(group_states(groups[slot as int]@) =~= Seq::<
                            RegionState,
                        >::empty().push(loaded_region(views[k as int])));
                        assert(regions_on(loaded, place) =~= Seq::<RegionState>::empty());
                        assert forall|s: int| 0 <= s < groups.len() implies group_states(
                            (#[trigger] groups[s])@,
                        ) == regions_on(next, names[s]@) by {
                            if s != slot {
                                assert(groups[s] == old_groups[s]);
                                assert(old_names[s] == names[s]@);
                                assert(old_names.contains(old_names[s]));
                                assert(names[s]@ != place);
                            }
                        }
                        assert forall|s: int| 0 <= s < groups.len() implies group_valid(
                            (#[trigger] groups[s])@,
                        ) by {
                            if s != slot {
                                assert(groups[s] == old_groups[s]);
                            }
                        }
                        let table = group_table(group_of);
                        let now = name_views(names@);
                        assert forall|s: int| 0 <= s < now.len() implies table.dom().contains(
                            #[trigger] now[s],
                        ) && table[now[s]] == s by {
                            if s != slot {
                                assert(now[s] == old_names[s]);
                                assert(old_names.contains(old_names[s]));
                            }
                        }
                        assert forall|name: Seq<char>| #[trigger]
                            table.dom().contains(name) implies table[name] < now.len()
                            && now[table[name] as int] == name by {
                            if name != place {
                                assert(now[table[name] as int] == old_names[table[name] as int]);
                            }
                        }
                    }
                },
            }
            k = k + 1;
        }
        proof {
            assert(views.take(k as int) =~= views);
        }
        let ghost count = names.len();
        let ghost all_names = names@;
        let ghost all_groups = groups@;
        proof {
            assert forall|s: int, t: int| 0 <= s < t < count implies all_names[s]@
                != all_names[t]@ by {
                assert(name_views(all_names)[s] == all_names[s]@);
                assert(name_views(all_names)[t] == all_names[t]@);
            }
        }
        let mut built: Vec<ChromosomeIndex> = Vec::new();
        while names.len() > 0
            invariant
                names.len() == groups.len(),
                names.len() <= count,
                all_names.len() == count,
                all_groups.len() == count,
                names@ == all_names.take(names.len() as int),
                groups@ == all_groups.take(groups.len() as int),
                built.len() == count - names.len(),
                forall|s: int| 0 <= s < count ==> group_valid((#[trigger] all_groups[s])@),
                forall|b: int|
                    0 <= b < built.len() ==> {
                        &&& (#[trigger] built[b]).wf()
                        &&& built[b]@.name == all_names[count - 1 - b]@
                        &&& built[b]@.regions == group_states(all_groups[count - 1 - b]@)
                    },
            decreases names.len(),
        {
            let ghost last = names.len() - 1;
            let name = names.pop().unwrap();
            let regions = groups.pop().unwrap();
            assert(name == all_names[last]);
            assert(regions == all_groups[last]);
            let index = ChromosomeIndex::build(name, regions);
            built.push(index);
            assert(names@ =~= all_names.take(names.len() as int));
            assert(groups@ =~= all_groups.take(groups.len() as int));
        }
        let ghost all_built = built@;
        let mut chromosomes: Vec<ChromosomeIndex> = Vec::new();
        let mut slots = slots_new();
        while built.len() > 0
            invariant
                built.len() <= count,
                all_names.len() == count,
                all_groups.len() == count,
                all_built.len() == count,
                built@ == all_built.take(built.len() as int),
                chromosomes.len() == count - built.len(),
                forall|s: int, t: int| 0 <= s < t < count ==> all_names[s]@ != all_names[t]@,
                forall|b: int|
                    0 <= b < count ==> {
                        &&& (#[trigger] all_built[b]).wf()
                        &&& all_built[b]@.name == all_names[count - 1 - b]@
                        &&& all_built[b]@.regions == group_states(all_groups[count - 1 - b]@)
                    },
                forall|i: int|
                    0 <= i < chromosomes.len() ==> (#[trigger] chromosomes[i]) == all_built[count
                        - 1 - i],
                table_matches(
                    slot_table(slots),
                    Seq::new(chromosomes.len() as nat, |i: int| all_names[i]@),
                ),
            decreases built.len(),
        {
            let ghost last = built.len() - 1;
            let ghost old_table = slot_table(slots);
            let ghost old_placed = Seq::new(chromosomes.len() as nat, |i: int| all_names[i]@);
            let index = built.pop().unwrap();
            assert(index == all_built[last]);
            let position = chromosomes.len();
            slots_insert(&mut slots, index.name().clone(), position);
            chromosomes.push(index);
            proof {
                assert(built@ =~= all_built.take(built.len() as int));
                let table = slot_table(slots);
                let placed = Seq::new(chromosomes.len() as nat, |i: int| all_names[i]@);
                let added = all_names[position as int]@;
                assert(table == old_table.insert(added, position));
                assert forall|s: int| 0 <= s < placed.len() implies table.dom().contains(
                    #[trigger] placed[s],
                ) && table[placed[s]] == s by {
                    if s != position {
                        assert(placed[s] == old_placed[s]);
                        assert(placed[s] != added);
                    }
                }
                assert forall|name: Seq<char>| #[trigger]
                    table.dom().contains(name) implies table[name] < placed.len()
                    && placed[table[name] as int] == name by {
                    if name != added {
                        assert(old_table.dom().contains(name));
                        assert(placed[table[name] as int] == old_placed[table[name] as int]);
                    }
                }
            }
        }
        let engine = CoverageEngine { chromosomes, slots };
        proof {
            let catalog = catalog_of(views);
            assert(first_seen(views) == name_views(all_names));
            assert(engine@.len() == catalog.len());
            assert forall|i: int| 0 <= i < count implies engine@[i] == catalog[i] by {
                assert(engine.chromosomes[i] == all_built[count - 1 - i]);
                assert(name_views(all_names)[i] == all_names[i]@);
                assert(group_states(all_groups[i]@) == regions_on(views, all_names[i]@));
            }
            assert(engine@ =~= catalog);
            assert(chromosome_names(engine@) =~= Seq::new(count as nat, |i: int| all_names[i]@));
        }
        Ok(engine)
    }

    /// Number of chromosomes.
    pub fn chromosome_count(&self) -> (count: usize)
        ensures
            count == self@.len(),
    {
        self.chromosomes.len()
    }

    /// The index of chromosome number `slot`, in the order of first
    /// occurrence.
    pub fn chromosome(&self, slot: usize) -> (index: &ChromosomeIndex)
        requires
            self.wf(),
            slot < self@.len(),
        ensures
            index.wf(),
            index@ == self@[slot as int],
    {
        &self.chromosomes[slot]
    }

    /// Position of the chromosome called `name`, if the catalog holds it.
    pub fn find(&self, name: &str) -> (slot: Option<usize>)
        requires
            self.wf(),
        ensures
            slot matches Some(s) ==> s < self@.len() && self@[s as int].name == name@,
            slot is None ==> forall|i: int| 0 <= i < self@.len() ==> self@[i].name != name@,
    {
        let slot = slots_get(&self.slots, name);
        proof {
            if slot is None {
                assert forall|i: int| 0 <= i < self@.len() implies self@[i].name != name@ by {
                    assert(chromosome_names(self@)[i] == self@[i].name);
                }
            } else {
                assert(chromosome_names(self@)[slot.unwrap() as int] == name@);
            }
        }
        slot
    }

    /// Credits one alignment record to the regions it reaches. Records that
    /// are supplementary, not mapped, or on a chromosome without regions
    /// are passed over. A record that cannot be credited leaves the
    /// catalog as it was.
    pub fn add_alignment(&mut self, record: &AlignmentRecord) -> (outcome: Result<
        (),
        AlignmentFault,
    >)
        requires
            old(self).wf(),
        ensures
            final(self).wf(),
            outcome is Ok ==> alignment_outcome(old(self)@, record@) == Ok::<
                Seq<ChromosomeState>,
                AlignmentFault,
            >(final(self)@),
            outcome matches Err(fault) ==> final(self)@ == old(self)@ && alignment_outcome(
                old(self)@,
                record@,
            ) == Err::<Seq<ChromosomeState>, AlignmentFault>(fault),
    {
        let ghost before = self@;
        if record.is_supplementary {
            return Ok(());
        }
        let chromosome = match &record.chromosome {
            Some(chromosome) => chromosome,
            None => {
                return Ok(());
            },
        };
        let span = match span_of(record.position, &record.ops) {
            Ok(span) => span,
            Err(SpanFault::NegativePosition) => {
                return Err(AlignmentFault::NegativePosition);
            },
            Err(SpanFault::TooLong) => {
                return Err(AlignmentFault::SpanTooLong);
            },
        };
        let ghost place = chromosome@;
        let ghost ref_start = span.ref_start as int;
        let ghost ref_end = span.ref_end as int;
        let slot = match self.find(chromosome.as_str()) {
            Some(slot) => slot,
            None => {
                proof {
                    assert(credited_catalog(before, place, ref_start, ref_end) =~= before);
                }
                return Ok(());
            },
        };
        proof {
            assert forall|i: int| 0 <= i < before.len() && i != slot implies (
            #[trigger] before[i]).name != place by {
                assert(chromosome_names(before)[i] == before[i].name);
                assert(chromosome_names(before)[slot as int] == before[slot as int].name);
            }
        }
        let ghost old_chromosomes = self.chromosomes@;
        let credited = self.chromosomes[slot].add_span(&span);
        proof {
            assert forall|i: int| 0 <= i < self.chromosomes.len() implies (
            #[trigger] self.chromosomes[i]).wf() by {
                if i != slot {
                    assert(self.chromosomes[i] == old_chromosomes[i]);
                }
            }
            assert forall|i: int| 0 <= i < before.len() && i != slot implies self@[i]
                == before[i] by {
                assert(self.chromosomes[i] == old_chromosomes[i]);
            }
            assert(chromosome_names(self@) =~= chromosome_names(before));
        }
        match credited {
            Ok(()) => {
                proof {
                    assert(self@ =~= credited_catalog(before, place, ref_start, ref_end));
                }
                Ok(())
            },
            Err(_) => {
                proof {
                    assert(self@ =~= before);
                    assert(!before[slot as int].has_room(ref_start, ref_end));
                }
                Err(AlignmentFault::TotalOverflow)
            },
        }
    }

    /// Reports every chromosome in the order of first occurrence: its rows
    /// sorted by name, start, end and overlap total, each followed, where
    /// its group ends, by the line of the whole gene.
    pub fn report(&self, legacy_length: bool) -> (report: Vec<ReportRow>)
        requires
            self.wf(),
        ensures
            report_lines(report@) == catalog_report(self@, legacy_length),
    {
        let ghost state = self@;
        let mut report: Vec<ReportRow> = Vec::new();
        let mut slot: usize = 0;
        proof {
            assert(state.take(0) =~= Seq::empty());
            assert(report_lines(report@) =~= Seq::empty());
        }
        while slot < self.chromosomes.len()
            invariant
                slot <= self.chromosomes.len(),
                self.wf(),
                state == self@,
                report_lines(report@) == catalog_report(state.take(slot as int), legacy_length),
            decreases self.chromosomes.len() - slot,
        {
            let index = &self.chromosomes[slot];
            let rows = index.rows();
            let sorted = sort_rows(&rows);
            proof {
                let regions = state[slot as int].regions;
                crate::order::lemma_row_order_total();
                regions.lemma_sort_by_ensures(row_order());
                crate::sort::lemma_rows_sorted_by(regions.sort_by(row_order()));
                lemma_sorted_rows_unique(row_views(sorted@), regions.sort_by(row_order()));
                assert forall|i: int| 0 <= i < sorted.len() implies crate::report::row_in_range(
                    #[trigger] sorted[i]@,
                ) by {
                    broadcast use vstd::seq_lib::group_to_multiset_ensures;

                    let row = row_views(sorted@)[i];
                    assert(row_views(sorted@).contains(row));
                    assert(row_views(sorted@).to_multiset().count(row) > 0);
                    assert(row_views(rows@).contains(row));
                    let k = choose|k: int| 0 <= k < rows.len() && row_views(rows@)[k] == row;
                    assert(rows[k]@.wf());
                }
            }
            let mut lines = fold_rows(index.name().as_str(), &sorted, legacy_length);
            let ghost earlier = report_lines(report@);
            let ghost added = report_lines(lines@);
            report.append(&mut lines);
            proof {
                assert(report_lines(report@) =~= earlier + added);
                assert(state.take(slot + 1).drop_last() =~= state.take(slot as int));
                assert(state.take(slot + 1).last() == state[slot as int]);
            }
            slot = slot + 1;
        }
        proof {
            assert(state.take(slot as int) =~= state);
        }
        report
    }
}

} // verus!
