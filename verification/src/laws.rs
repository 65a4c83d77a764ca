//! What holds of the engine whatever it is given.

use crate::engine::{
    alignment_outcome, credited_catalog, first_seen, loaded_region, regions_on, AlignmentFault,
    RecordView,
};
use crate::index::ChromosomeState;
use crate::order::{
    lemma_bytes_le_antisymmetric, lemma_name_bytes_injective, lemma_row_order_total, row_le,
    row_order,
};
use crate::region::{sentinel_name, RegionState};
use crate::report::{
    amplicon_length, amplicon_lines, first_group_len, folded_lines, lemma_same_name_prefix,
    same_name_prefix, span_max_end, summed_length, summed_overlap, whole_gene_line, ReportLine,
    RowTag,
};
use crate::sort::{lemma_rows_sorted_by, rows_sorted};
use crate::span::{inclusive_overlap, overlap_credit, span_outcome, AlignmentView};
use vstd::prelude::*;
use vstd::utf8::encode_utf8;

verus! {

/// What becomes of `state` when `records` are added one after another. The
/// first record that cannot be credited ends it.
pub open spec fn alignments_outcome(state: Seq<ChromosomeState>, records: Seq<AlignmentView>)
    -> Result<Seq<ChromosomeState>, AlignmentFault>
    decreases records.len(),
{
    if records.len() == 0 {
        Ok(state)
    } else {
        match alignments_outcome(state, records.drop_last()) {
            Ok(earlier) => alignment_outcome(earlier, records.last()),
            Err(fault) => Err(fault),
        }
    }
}

/// Whether `after` holds the chromosomes and regions of `before`, with the
/// same names and bounds.
pub open spec fn same_regions(before: Seq<ChromosomeState>, after: Seq<ChromosomeState>) -> bool {
    &&& after.len() == before.len()
    &&& forall|c: int|
        0 <= c < before.len() ==> {
            &&& (#[trigger] after[c]).name == before[c].name
            &&& after[c].regions.len() == before[c].regions.len()
        }
    &&& forall|c: int, r: int|
        0 <= c < before.len() && 0 <= r < before[c].regions.len() ==> {
            &&& (#[trigger] after[c].regions[r]).name == before[c].regions[r].name
            &&& after[c].regions[r].start == before[c].regions[r].start
            &&& after[c].regions[r].end == before[c].regions[r].end
        }
}

/// Whether no region of `state` ends before it starts.
pub open spec fn bounds_in_order(state: Seq<ChromosomeState>) -> bool {
    forall|c: int, r: int|
        0 <= c < state.len() && 0 <= r < state[c].regions.len() ==> (
        #[trigger] state[c].regions[r]).start <= state[c].regions[r].end
}

/// The credit of an alignment that covers `ref_start ..= ref_end` to a
/// region is the inclusive overlap of the two where that is positive, and
/// zero otherwise: to ask the index for the regions one base beside the
/// alignment as well never adds to a total.
pub proof fn law_credit_is_clamped_overlap(ref_start: int, ref_end: int, start: int, end: int)
    requires
        ref_start - 1 <= ref_end,
        start <= end,
    ensures
        overlap_credit(ref_start, ref_end, start, end) >= 0,
        overlap_credit(ref_start, ref_end, start, end) == (if inclusive_overlap(
            ref_start,
            ref_end,
            start,
            end,
        ) > 0 {
            inclusive_overlap(ref_start, ref_end, start, end)
        } else {
            0
        }),
{
}

/// An alignment that ends before a region starts, or starts after it ends,
/// adds nothing to the region.
pub proof fn law_apart_adds_nothing(ref_start: int, ref_end: int, start: int, end: int)
    requires
        ref_start - 1 <= ref_end,
        start <= end,
        ref_end < start || end < ref_start,
    ensures
        overlap_credit(ref_start, ref_end, start, end) == 0,
{
}

/// An alignment that lies within the bounds of a region adds its own length
/// to the region.
pub proof fn law_inside_adds_length(ref_start: int, ref_end: int, start: int, end: int)
    requires
        start <= ref_start,
        ref_start - 1 <= ref_end,
        ref_end <= end,
    ensures
        overlap_credit(ref_start, ref_end, start, end) == ref_end - ref_start + 1,
{
}

/// Only a region whose half-open range `start .. end` reaches into the
/// range `ref_start - 1 .. ref_end + 1` is credited with anything.
pub proof fn law_credit_needs_common_base(ref_start: int, ref_end: int, start: int, end: int)
    requires
        ref_start - 1 <= ref_end,
        start <= end,
        overlap_credit(ref_start, ref_end, start, end) > 0,
    ensures
        start < ref_end + 1,
        ref_start - 1 < end,
{
}

/// An alignment that ends on the last base of a region or behind it, and
/// starts in the region, is credited up to the stored end of the region:
/// one base more than the two have in common.
pub proof fn law_end_counts_as_last_base(ref_start: int, ref_end: int, start: int, end: int)
    requires
        start <= ref_start <= end <= ref_end,
    ensures
        overlap_credit(ref_start, ref_end, start, end) == end - ref_start + 1,
{
}

/// A query `first ..= last` reaches every region that has a base in the
/// half-open range `first .. last`.
pub proof fn law_query_reaches_every_common_base(
    state: ChromosomeState,
    id: int,
    first: int,
    last: int,
)
    requires
        0 <= id < state.regions.len(),
        state.regions[id].start < last,
        first < state.regions[id].end,
    ensures
        state.meets(id, first, last),
{
}

/// A record that is supplementary or not mapped changes nothing, whatever
/// else it holds.
pub proof fn law_skipped_record_changes_nothing(state: Seq<ChromosomeState>, record: AlignmentView)
    requires
        record.is_supplementary || record.chromosome is None,
    ensures
        alignment_outcome(state, record) == Ok::<Seq<ChromosomeState>, AlignmentFault>(state),
{
}

/// Any number of records that are supplementary or not mapped change
/// nothing: every total stays what it was.
pub proof fn law_skipped_records_change_nothing(
    state: Seq<ChromosomeState>,
    records: Seq<AlignmentView>,
)
    requires
        forall|i: int|
            0 <= i < records.len() ==> (#[trigger] records[i]).is_supplementary
                || records[i].chromosome is None,
    ensures
        alignments_outcome(state, records) == Ok::<Seq<ChromosomeState>, AlignmentFault>(state),
    decreases records.len(),
{
    if records.len() > 0 {
        let earlier = records.drop_last();
        assert forall|i: int| 0 <= i < earlier.len() implies (#[trigger] earlier[i]).is_supplementary
            || earlier[i].chromosome is None by {
            assert(earlier[i] == records[i]);
        }
        law_skipped_records_change_nothing(state, earlier);
        assert(records.last() == records[records.len() - 1]);
    }
}

/// A record on a chromosome without regions changes nothing.
pub proof fn law_unknown_chromosome_changes_nothing(
    state: Seq<ChromosomeState>,
    record: AlignmentView,
)
    requires
        record.chromosome matches Some(chromosome) && forall|c: int|
            0 <= c < state.len() ==> (#[trigger] state[c]).name != chromosome,
    ensures
        alignment_outcome(state, record) is Ok ==> alignment_outcome(state, record) == Ok::<
            Seq<ChromosomeState>,
            AlignmentFault,
        >(state),
{
    if alignment_outcome(state, record) is Ok && !record.is_supplementary {
        let chromosome = record.chromosome->0;
        let span = span_outcome(record.position, record.ops)->Ok_0;
        assert(credited_catalog(state, chromosome, span.ref_start as int, span.ref_end as int)
            =~= state);
    }
}

/// Adding a record never adds, drops, renames or moves a region, never
/// lowers a total, and leaves the total of every unnamed region as it was.
pub proof fn law_record_only_raises_totals(state: Seq<ChromosomeState>, record: AlignmentView)
    requires
        bounds_in_order(state),
    ensures
        alignment_outcome(state, record) matches Ok(after) ==> {
            &&& same_regions(state, after)
            &&& forall|c: int, r: int|
                0 <= c < state.len() && 0 <= r < state[c].regions.len() ==> (
                #[trigger] after[c].regions[r]).overlap_total >= state[c].regions[r].overlap_total
            &&& forall|c: int, r: int|
                0 <= c < state.len() && 0 <= r < state[c].regions.len()
                    && state[c].regions[r].name == sentinel_name() ==> (
                #[trigger] after[c].regions[r]).overlap_total == state[c].regions[r].overlap_total
        },
{
    if alignment_outcome(state, record) is Ok {
        let after = alignment_outcome(state, record)->Ok_0;
        if !record.is_supplementary && record.chromosome is Some {
            let span = span_outcome(record.position, record.ops)->Ok_0;
            assert(span.ref_start - 1 <= span.ref_end);
            assert forall|c: int, r: int|
                0 <= c < state.len() && 0 <= r < state[c].regions.len() implies (
            #[trigger] after[c].regions[r]).overlap_total
                >= state[c].regions[r].overlap_total by {
                let region = state[c].regions[r];
                assert(region.start <= region.end);
                law_credit_is_clamped_overlap(
                    span.ref_start as int,
                    span.ref_end as int,
                    region.start,
                    region.end,
                );
            }
        }
    }
}

/// Whatever records are added, the regions stay what they are, no total
/// goes down, and an unnamed region is never credited.
pub proof fn law_records_only_raise_totals(state: Seq<ChromosomeState>, records: Seq<AlignmentView>)
    requires
        bounds_in_order(state),
    ensures
        alignments_outcome(state, records) matches Ok(after) ==> {
            &&& same_regions(state, after)
            &&& forall|c: int, r: int|
                0 <= c < state.len() && 0 <= r < state[c].regions.len() ==> (
                #[trigger] after[c].regions[r]).overlap_total >= state[c].regions[r].overlap_total
            &&& forall|c: int, r: int|
                0 <= c < state.len() && 0 <= r < state[c].regions.len()
                    && state[c].regions[r].name == sentinel_name() ==> (
                #[trigger] after[c].regions[r]).overlap_total == state[c].regions[r].overlap_total
        },
    decreases records.len(),
{
    if records.len() > 0 && alignments_outcome(state, records) is Ok {
        let middle = alignments_outcome(state, records.drop_last())->Ok_0;
        let after = alignments_outcome(state, records)->Ok_0;
        law_records_only_raise_totals(state, records.drop_last());
        assert(bounds_in_order(middle)) by {
            assert forall|c: int, r: int|
                0 <= c < middle.len() && 0 <= r < middle[c].regions.len() implies (
            #[trigger] middle[c].regions[r]).start <= middle[c].regions[r].end by {
                assert(state[c].regions[r].start <= state[c].regions[r].end);
            }
        }
        law_record_only_raises_totals(middle, records.last());
        assert forall|c: int, r: int|
            0 <= c < state.len() && 0 <= r < state[c].regions.len() implies (
        #[trigger] after[c].regions[r]).overlap_total >= state[c].regions[r].overlap_total by {
            assert(after[c].regions[r].overlap_total >= middle[c].regions[r].overlap_total);
        }
        assert forall|c: int, r: int|
            0 <= c < state.len() && 0 <= r < state[c].regions.len() && state[c].regions[r].name
                == sentinel_name() implies (#[trigger] after[c].regions[r]).overlap_total
            == state[c].regions[r].overlap_total by {
            assert(middle[c].regions[r].name == sentinel_name());
            assert(after[c].regions[r].overlap_total == middle[c].regions[r].overlap_total);
        }
        assert(same_regions(state, after)) by {
            assert forall|c: int| 0 <= c < state.len() implies (#[trigger] after[c]).name
                == state[c].name && after[c].regions.len() == state[c].regions.len() by {
                assert(middle[c].name == state[c].name);
            }
            assert forall|c: int, r: int|
                0 <= c < state.len() && 0 <= r < state[c].regions.len() implies (
            #[trigger] after[c].regions[r]).name == state[c].regions[r].name
                && after[c].regions[r].start == state[c].regions[r].start
                && after[c].regions[r].end == state[c].regions[r].end by {
                assert(middle[c].regions[r].name == state[c].regions[r].name);
            }
        }
    }
}

/// Two alignments may be credited in either order: the totals are the same.
pub proof fn law_credits_commute(
    state: Seq<ChromosomeState>,
    first_chromosome: Seq<char>,
    first_start: int,
    first_end: int,
    second_chromosome: Seq<char>,
    second_start: int,
    second_end: int,
)
    ensures
        credited_catalog(
            credited_catalog(state, first_chromosome, first_start, first_end),
            second_chromosome,
            second_start,
            second_end,
        ) == credited_catalog(
            credited_catalog(state, second_chromosome, second_start, second_end),
            first_chromosome,
            first_start,
            first_end,
        ),
{
    let one = credited_catalog(state, first_chromosome, first_start, first_end);
    let other = credited_catalog(state, second_chromosome, second_start, second_end);
    let left = credited_catalog(one, second_chromosome, second_start, second_end);
    let right = credited_catalog(other, first_chromosome, first_start, first_end);
    assert forall|c: int| 0 <= c < state.len() implies left[c] == right[c] by {
        assert(left[c].name == right[c].name);
        assert(left[c].regions =~= right[c].regions);
    }
    assert(left =~= right);
}

/// Whether some record of `records` before number `q` is on `chromosome`.
pub open spec fn occurs_before(records: Seq<RecordView>, chromosome: Seq<char>, q: int) -> bool {
    exists|p: int| 0 <= p < q && p < records.len() && (#[trigger] records[p]).chromosome == chromosome
}

/// The chromosomes of a catalog are those of its records, each once, and
/// they stand in the order in which they first occur: a record on a later
/// chromosome always has a record on each earlier chromosome before it.
pub proof fn law_chromosomes_in_order_of_first_occurrence(records: Seq<RecordView>)
    ensures
        first_seen(records).no_duplicates(),
        forall|k: int|
            0 <= k < records.len() ==> first_seen(records).contains(
                (#[trigger] records[k]).chromosome,
            ),
        forall|i: int|
            0 <= i < first_seen(records).len() ==> occurs_before(
                records,
                #[trigger] first_seen(records)[i],
                records.len() as int,
            ),
        forall|i: int, j: int, q: int|
            #![trigger first_seen(records)[i], first_seen(records)[j], records[q]]
            0 <= i < j < first_seen(records).len() && 0 <= q < records.len()
                && records[q].chromosome == first_seen(records)[j] ==> occurs_before(
                records,
                first_seen(records)[i],
                q,
            ),
    decreases records.len(),
{
    if records.len() > 0 {
        let earlier = records.drop_last();
        let last = records.last();
        let seen = first_seen(earlier);
        let now = first_seen(records);
        law_chromosomes_in_order_of_first_occurrence(earlier);
        assert forall|k: int| 0 <= k < records.len() implies now.contains(
            (#[trigger] records[k]).chromosome,
        ) by {
            if k < earlier.len() {
                assert(earlier[k] == records[k]);
                assert(seen.contains(earlier[k].chromosome));
                let i = choose|i: int| 0 <= i < seen.len() && seen[i] == earlier[k].chromosome;
                assert(now[i] == seen[i]);
            } else if !seen.contains(last.chromosome) {
                assert(now[seen.len() as int] == last.chromosome);
            }
        }
        assert forall|i: int| 0 <= i < now.len() implies occurs_before(
            records,
            #[trigger] now[i],
            records.len() as int,
        ) by {
            if i < seen.len() {
                assert(occurs_before(earlier, seen[i], earlier.len() as int));
                let p = choose|p: int|
                    0 <= p < earlier.len() && (#[trigger] earlier[p]).chromosome == seen[i];
                assert(records[p] == earlier[p]);
            } else {
                assert(records[records.len() - 1].chromosome == now[i]);
            }
        }
        assert forall|i: int, j: int, q: int|
            #![trigger now[i], now[j], records[q]]
            0 <= i < j < now.len() && 0 <= q < records.len() && records[q].chromosome
                == now[j] implies occurs_before(records, now[i], q) by {
            assert(now[i] == seen[i]);
            if q < earlier.len() {
                assert(earlier[q] == records[q]);
                if j < seen.len() {
                    assert(occurs_before(earlier, seen[i], q));
                    let p = choose|p: int|
                        0 <= p < q && p < earlier.len() && (#[trigger] earlier[p]).chromosome
                            == seen[i];
                    assert(records[p] == earlier[p]);
                } else {
                    assert(seen.contains(earlier[q].chromosome));
                }
            } else {
                assert(occurs_before(earlier, seen[i], earlier.len() as int));
                let p = choose|p: int|
                    0 <= p < earlier.len() && (#[trigger] earlier[p]).chromosome == seen[i];
                assert(records[p] == earlier[p]);
            }
        }
    }
}

/// The regions of a chromosome are the records on that chromosome, each
/// once, in the order of the records.
pub proof fn law_regions_are_the_records_of_the_chromosome(
    records: Seq<RecordView>,
    chromosome: Seq<char>,
)
    ensures
        regions_on(records, chromosome) == records.filter(
            |record: RecordView| record.chromosome == chromosome,
        ).map_values(|record: RecordView| loaded_region(record)),
    decreases records.len(),
{
    reveal(Seq::filter);
    let on = |record: RecordView| record.chromosome == chromosome;
    let load = |record: RecordView| loaded_region(record);
    if records.len() > 0 {
        let earlier = records.drop_last();
        law_regions_are_the_records_of_the_chromosome(earlier, chromosome);
        if on(records.last()) {
            assert(earlier.filter(on).push(records.last()).map_values(load) =~= earlier.filter(
                on,
            ).map_values(load).push(loaded_region(records.last())));
        }
    } else {
        assert(records.filter(on).map_values(load) =~= Seq::<RegionState>::empty());
    }
}

/// Rows sorted into report order hold what the rows held, in report order.
pub proof fn law_sorted_rows(rows: Seq<RegionState>)
    ensures
        rows_sorted(rows.sort_by(row_order())),
        rows.sort_by(row_order()).to_multiset() == rows.to_multiset(),
        rows.sort_by(row_order()).len() == rows.len(),
{
    broadcast use vstd::seq_lib::group_to_multiset_ensures;

    lemma_row_order_total();
    rows.lemma_sort_by_ensures(row_order());
    lemma_rows_sorted_by(rows.sort_by(row_order()));
    rows.to_multiset_ensures();
    rows.sort_by(row_order()).to_multiset_ensures();
}

/// In sorted rows the rows of one name stand together: a row between two
/// rows of the same name carries that name too.
pub proof fn law_sorted_names_stand_together(rows: Seq<RegionState>, i: int, j: int, k: int)
    requires
        rows_sorted(rows),
        0 <= i <= j <= k < rows.len(),
        rows[i].name == rows[k].name,
    ensures
        rows[j].name == rows[i].name,
{
    if i < j && j < k && rows[j].name != rows[i].name {
        assert(row_le(rows[i], rows[j]));
        assert(row_le(rows[j], rows[k]));
        lemma_bytes_le_antisymmetric(encode_utf8(rows[i].name), encode_utf8(rows[j].name));
        lemma_name_bytes_injective(rows[i].name, rows[j].name);
    }
}

/// The first group of rows is never empty and never longer than the rows,
/// it carries one name, and the row behind it, if there is one, carries
/// another.
pub proof fn law_first_group(rows: Seq<RegionState>)
    requires
        rows.len() > 0,
    ensures
        0 < first_group_len(rows) <= rows.len(),
        forall|k: int| 0 <= k < first_group_len(rows) ==> (#[trigger] rows[k]).name == rows[0].name,
        first_group_len(rows) < rows.len() ==> rows[first_group_len(rows) as int].name
            != rows[0].name,
{
    lemma_prefix_bounds(rows, rows[0].name);
}

proof fn lemma_prefix_bounds(rows: Seq<RegionState>, name: Seq<char>)
    ensures
        same_name_prefix(rows, name) <= rows.len(),
        rows.len() > 0 && rows[0].name == name ==> same_name_prefix(rows, name) > 0,
        forall|k: int| 0 <= k < same_name_prefix(rows, name) ==> (#[trigger] rows[k]).name == name,
        same_name_prefix(rows, name) < rows.len() ==> rows[same_name_prefix(rows, name) as int].name
            != name,
    decreases rows.len(),
{
    if rows.len() > 0 && rows[0].name == name {
        let rest = rows.skip(1);
        lemma_prefix_bounds(rest, name);
        assert forall|k: int| 0 <= k < same_name_prefix(rows, name) implies (
        #[trigger] rows[k]).name == name by {
            if k > 0 {
                assert(rest[k - 1] == rows[k]);
            }
        }
        if same_name_prefix(rows, name) < rows.len() {
            assert(rest[same_name_prefix(rest, name) as int] == rows[same_name_prefix(rows, name) as int]);
        }
    }
}

/// Whether a line stands for one region.
pub open spec fn is_amplicon() -> spec_fn(ReportLine) -> bool {
    |line: ReportLine| line.tag == RowTag::Amplicon
}

proof fn lemma_filter_keeps_all<A>(s: Seq<A>, pred: spec_fn(A) -> bool)
    requires
        forall|i: int| 0 <= i < s.len() ==> pred(#[trigger] s[i]),
    ensures
        s.filter(pred) == s,
    decreases s.len(),
{
    reveal(Seq::filter);
    if s.len() > 0 {
        let earlier = s.drop_last();
        assert forall|i: int| 0 <= i < earlier.len() implies pred(#[trigger] earlier[i]) by {
            assert(earlier[i] == s[i]);
        }
        lemma_filter_keeps_all(earlier, pred);
        assert(earlier.push(s.last()) =~= s);
    }
}

proof fn lemma_filter_drops_all<A>(s: Seq<A>, pred: spec_fn(A) -> bool)
    requires
        forall|i: int| 0 <= i < s.len() ==> !pred(#[trigger] s[i]),
    ensures
        s.filter(pred) == Seq::<A>::empty(),
    decreases s.len(),
{
    reveal(Seq::filter);
    if s.len() > 0 {
        let earlier = s.drop_last();
        assert forall|i: int| 0 <= i < earlier.len() implies !pred(#[trigger] earlier[i]) by {
            assert(earlier[i] == s[i]);
        }
        lemma_filter_drops_all(earlier, pred);
    } else {
        assert(s =~= Seq::<A>::empty());
    }
}

proof fn lemma_filter_push_dropped<A>(s: Seq<A>, x: A, pred: spec_fn(A) -> bool)
    requires
        !pred(x),
    ensures
        s.push(x).filter(pred) == s.filter(pred),
{
    reveal(Seq::filter);
    assert(s.push(x).drop_last() =~= s);
}

proof fn lemma_amplicon_lines_split(
    chromosome: Seq<char>,
    rows: Seq<RegionState>,
    legacy_length: bool,
    n: int,
)
    requires
        0 <= n <= rows.len(),
    ensures
        amplicon_lines(chromosome, rows, legacy_length) == amplicon_lines(
            chromosome,
            rows.take(n),
            legacy_length,
        ) + amplicon_lines(chromosome, rows.skip(n), legacy_length),
{
    assert(amplicon_lines(chromosome, rows, legacy_length) =~= amplicon_lines(
        chromosome,
        rows.take(n),
        legacy_length,
    ) + amplicon_lines(chromosome, rows.skip(n), legacy_length));
}

/// Folding loses no row and adds none: the lines of the regions in a folded
/// report are the lines of the rows, in the order of the rows.
pub proof fn law_fold_keeps_every_row(
    chromosome: Seq<char>,
    rows: Seq<RegionState>,
    legacy_length: bool,
)
    ensures
        folded_lines(chromosome, rows, legacy_length).filter(is_amplicon()) == amplicon_lines(
            chromosome,
            rows,
            legacy_length,
        ),
    decreases rows.len(),
{
    let keep = is_amplicon();
    let lines = folded_lines(chromosome, rows, legacy_length);
    if rows.len() > 0 {
        law_first_group(rows);
        let n = first_group_len(rows) as int;
        let group = rows.take(n);
        let rest = rows.skip(n);
        let singles = amplicon_lines(chromosome, group, legacy_length);
        let whole = whole_gene_line(chromosome, group, legacy_length);
        let tail = folded_lines(chromosome, rest, legacy_length);
        assert(lines == singles.push(whole) + tail);
        law_fold_keeps_every_row(chromosome, rest, legacy_length);
        Seq::filter_distributes_over_add(singles.push(whole), tail, keep);
        assert(singles.push(whole).filter(keep) == singles) by {
            lemma_filter_push_dropped(singles, whole, keep);
            lemma_filter_keeps_all(singles, keep);
        }
        lemma_amplicon_lines_split(chromosome, rows, legacy_length, n);
    } else {
        assert(lines.len() == 0);
        lemma_filter_drops_all(lines, keep);
        assert(amplicon_lines(chromosome, rows, legacy_length) =~= Seq::<ReportLine>::empty());
    }
}

/// Every line of a folded report carries the name of one of the rows.
proof fn lemma_genes_are_names(
    chromosome: Seq<char>,
    rows: Seq<RegionState>,
    legacy_length: bool,
    at: int,
) -> (k: int)
    requires
        0 <= at < folded_lines(chromosome, rows, legacy_length).len(),
    ensures
        0 <= k < rows.len(),
        rows[k].name == folded_lines(chromosome, rows, legacy_length)[at].gene,
    decreases rows.len(),
{
    law_first_group(rows);
    let n = first_group_len(rows) as int;
    let group = rows.take(n);
    let rest = rows.skip(n);
    let singles = amplicon_lines(chromosome, group, legacy_length);
    if at < n {
        assert(group[at] == rows[at]);
        at
    } else if at == n {
        assert(group[0] == rows[0]);
        0
    } else {
        let k = lemma_genes_are_names(chromosome, rest, legacy_length, at - n - 1);
        assert(rest[k] == rows[n + k]);
        n + k
    }
}

/// In the folded report of sorted rows every gene has one line for the
/// whole gene: no two such lines carry the same name.
pub proof fn law_one_summary_per_name(
    chromosome: Seq<char>,
    rows: Seq<RegionState>,
    legacy_length: bool,
    a: int,
    b: int,
)
    requires
        rows_sorted(rows),
        0 <= a < b < folded_lines(chromosome, rows, legacy_length).len(),
        folded_lines(chromosome, rows, legacy_length)[a].tag == RowTag::WholeGene,
        folded_lines(chromosome, rows, legacy_length)[b].tag == RowTag::WholeGene,
    ensures
        folded_lines(chromosome, rows, legacy_length)[a].gene != folded_lines(
            chromosome,
            rows,
            legacy_length,
        )[b].gene,
    decreases rows.len(),
{
    law_first_group(rows);
    let n = first_group_len(rows) as int;
    let group = rows.take(n);
    let rest = rows.skip(n);
    let lines = folded_lines(chromosome, rows, legacy_length);
    let tail = folded_lines(chromosome, rest, legacy_length);
    assert forall|i: int, j: int| 0 <= i < j < rest.len() implies row_le(
        #[trigger] rest[i],
        #[trigger] rest[j],
    ) by {
        assert(row_le(rows[n + i], rows[n + j]));
    }
    assert(lines[n] == whole_gene_line(chromosome, group, legacy_length));
    assert(group[0] == rows[0]);
    if a < n {
        assert(lines[a].tag == RowTag::Amplicon);
    } else if a == n {
        assert(lines[b] == tail[b - n - 1]);
        let k = lemma_genes_are_names(chromosome, rest, legacy_length, b - n - 1);
        assert(rest[k] == rows[n + k]);
        if rows[n + k].name == rows[0].name {
            law_sorted_names_stand_together(rows, 0, n, n + k);
        }
    } else {
        assert(lines[a] == tail[a - n - 1]);
        assert(lines[b] == tail[b - n - 1]);
        law_one_summary_per_name(chromosome, rest, legacy_length, a - n - 1, b - n - 1);
    }
}

/// Whether two rows have the same bounds and the same total.
pub open spec fn same_numbers(a: RegionState, b: RegionState) -> bool {
    a.start == b.start && a.end == b.end && a.overlap_total == b.overlap_total
}

/// Whether `a` and `b` are alike but for what their names say: row by row
/// the numbers are the same, and two neighbours share a name in the one
/// exactly where they share a name in the other.
pub open spec fn same_shape(a: Seq<RegionState>, b: Seq<RegionState>) -> bool {
    &&& a.len() == b.len()
    &&& forall|i: int| 0 <= i < a.len() ==> same_numbers(#[trigger] a[i], b[i])
    &&& forall|i: int, j: int|
        #![trigger a[i], b[j]]
        0 <= i < a.len() && j == i + 1 && j < a.len() ==> (a[i].name == a[j].name) == (b[i].name
            == b[j].name)
}

/// Whether two reports are alike but for their names: line by line the
/// tag, the bounds, the length and the overlap are the same.
pub open spec fn same_figures(x: Seq<ReportLine>, y: Seq<ReportLine>) -> bool {
    &&& x.len() == y.len()
    &&& forall|i: int|
        0 <= i < x.len() ==> {
            &&& (#[trigger] x[i]).tag == y[i].tag
            &&& x[i].start == y[i].start
            &&& x[i].end == y[i].end
            &&& x[i].length == y[i].length
            &&& x[i].overlap == y[i].overlap
        }
}

proof fn lemma_group_figures(a: Seq<RegionState>, b: Seq<RegionState>, legacy_length: bool)
    requires
        a.len() == b.len(),
        forall|i: int| 0 <= i < a.len() ==> same_numbers(#[trigger] a[i], b[i]),
    ensures
        summed_length(a, legacy_length) == summed_length(b, legacy_length),
        summed_overlap(a) == summed_overlap(b),
        span_max_end(a) == span_max_end(b),
    decreases a.len(),
{
    if a.len() > 0 {
        let before_a = a.drop_last();
        let before_b = b.drop_last();
        assert forall|i: int| 0 <= i < before_a.len() implies same_numbers(
            #[trigger] before_a[i],
            before_b[i],
        ) by {
            assert(same_numbers(a[i], b[i]));
        }
        lemma_group_figures(before_a, before_b, legacy_length);
        assert(same_numbers(a[a.len() - 1], b[a.len() - 1]));
    }
}

proof fn lemma_names_chain(a: Seq<RegionState>, b: Seq<RegionState>, n: int, k: int)
    requires
        same_shape(a, b),
        0 <= k < n <= a.len(),
        forall|i: int| 0 <= i < n ==> (#[trigger] a[i]).name == a[0].name,
    ensures
        b[k].name == b[0].name,
    decreases k,
{
    if k > 0 {
        lemma_names_chain(a, b, n, k - 1);
        assert(a[k - 1].name == a[0].name);
        assert(a[k].name == a[0].name);
        assert((a[k - 1].name == a[k].name) == (b[k - 1].name == b[k].name));
    }
}

proof fn lemma_same_first_group(a: Seq<RegionState>, b: Seq<RegionState>)
    requires
        same_shape(a, b),
        a.len() > 0,
    ensures
        first_group_len(a) == first_group_len(b),
{
    law_first_group(a);
    let n = first_group_len(a) as int;
    assert forall|k: int| 0 <= k < n implies (#[trigger] b[k]).name == b[0].name by {
        lemma_names_chain(a, b, n, k);
    }
    if n < a.len() {
        lemma_names_chain(a, b, n, n - 1);
        assert(a[n - 1].name == a[0].name);
        assert((a[n - 1].name == a[n].name) == (b[n - 1].name == b[n].name));
    }
    lemma_same_name_prefix(b, b[0].name, n);
}

/// Folding does not look at what a name says, only at where the name
/// changes: rows that are alike but for their names, the name of unnamed
/// regions among them, fold into reports that are alike but for their names.
pub proof fn law_fold_ignores_what_names_say(
    chromosome: Seq<char>,
    a: Seq<RegionState>,
    other_chromosome: Seq<char>,
    b: Seq<RegionState>,
    legacy_length: bool,
)
    requires
        same_shape(a, b),
    ensures
        same_figures(
            folded_lines(chromosome, a, legacy_length),
            folded_lines(other_chromosome, b, legacy_length),
        ),
    decreases a.len(),
{
    let x = folded_lines(chromosome, a, legacy_length);
    let y = folded_lines(other_chromosome, b, legacy_length);
    if a.len() > 0 {
        law_first_group(a);
        law_first_group(b);
        lemma_same_first_group(a, b);
        let n = first_group_len(a) as int;
        let group_a = a.take(n);
        let group_b = b.take(n);
        let rest_a = a.skip(n);
        let rest_b = b.skip(n);
        assert(same_shape(rest_a, rest_b)) by {
            assert forall|i: int| 0 <= i < rest_a.len() implies same_numbers(
                #[trigger] rest_a[i],
                rest_b[i],
            ) by {
                assert(same_numbers(a[n + i], b[n + i]));
            }
            assert forall|i: int, j: int|
                #![trigger rest_a[i], rest_b[j]]
                0 <= i < rest_a.len() && j == i + 1 && j < rest_a.len() implies (rest_a[i].name
                == rest_a[j].name) == (rest_b[i].name == rest_b[j].name) by {
                assert(rest_a[i] == a[n + i]);
                assert(rest_b[j] == b[n + j]);
                assert((a[n + i].name == a[n + j].name) == (b[n + i].name == b[n + j].name));
            }
        }
        law_fold_ignores_what_names_say(
            chromosome,
            rest_a,
            other_chromosome,
            rest_b,
            legacy_length,
        );
        assert forall|i: int| 0 <= i < group_a.len() implies same_numbers(
            #[trigger] group_a[i],
            group_b[i],
        ) by {
            assert(same_numbers(a[i], b[i]));
        }
        lemma_group_figures(group_a, group_b, legacy_length);
        let tail_x = folded_lines(chromosome, rest_a, legacy_length);
        let tail_y = folded_lines(other_chromosome, rest_b, legacy_length);
        assert(x.len() == y.len());
        assert forall|i: int| 0 <= i < x.len() implies (#[trigger] x[i]).tag == y[i].tag && x[i].start
            == y[i].start && x[i].end == y[i].end && x[i].length == y[i].length && x[i].overlap
            == y[i].overlap by {
            if i < n {
                assert(same_numbers(group_a[i], group_b[i]));
            } else if i == n {
                assert(same_numbers(group_a[0], group_b[0]));
            } else {
                assert(x[i] == tail_x[i - n - 1]);
                assert(y[i] == tail_y[i - n - 1]);
            }
        }
    }
}

/// A region that ends where it starts has no length, and a length of one
/// under the older convention.
pub proof fn law_length_of_empty_region(row: RegionState)
    requires
        row.start == row.end,
    ensures
        amplicon_length(row, false) == 0,
        amplicon_length(row, true) == 1,
{
}

} // verus!
