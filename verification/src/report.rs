//! The report of one chromosome: a line for each region and, after each run
//! of regions with one name, a line for the whole gene.

use crate::region::{row_views, OutputRow, RegionState};
use vstd::prelude::*;

verus! {

/// What a line of the report stands for.
#[derive(Clone, Copy, Debug, PartialEq, Eq, Structural)]
pub enum RowTag {
    /// One region.
    Amplicon,
    /// All regions of a gene that follow one another.
    WholeGene,
}

/// A line of the report. The depth it reports is `overlap` divided by
/// `length`.
#[derive(Clone, Debug, PartialEq, Eq)]
pub struct ReportRow {
    pub gene: String,
    pub chromosome: String,
    pub start: i64,
    pub end: i64,
    pub tag: RowTag,
    pub length: i128,
    pub overlap: i128,
}

/// A line of the report as plain values.
pub struct ReportLine {
    pub gene: Seq<char>,
    pub chromosome: Seq<char>,
    pub start: int,
    pub end: int,
    pub tag: RowTag,
    pub length: int,
    pub overlap: int,
}

impl View for ReportRow {
    type V = ReportLine;

    open spec fn view(&self) -> ReportLine {
        ReportLine {
            gene: self.gene@,
            chromosome: self.chromosome@,
            start: self.start as int,
            end: self.end as int,
            tag: self.tag,
            length: self.length as int,
            overlap: self.overlap as int,
        }
    }
}

/// The lines of `rows` as plain values.
pub open spec fn report_lines(rows: Seq<ReportRow>) -> Seq<ReportLine> {
    Seq::new(rows.len(), |i: int| rows[i]@)
}

/// Length of a region: `end - start`, and one more where the older
/// convention is asked for.
pub open spec fn amplicon_length(row: RegionState, legacy_length: bool) -> int {
    if legacy_length {
        row.end - row.start + 1
    } else {
        row.end - row.start
    }
}

/// The line of one region.
pub open spec fn amplicon_line(chromosome: Seq<char>, row: RegionState, legacy_length: bool)
    -> ReportLine {
    ReportLine {
        gene: row.name,
        chromosome,
        start: row.start,
        end: row.end,
        tag: RowTag::Amplicon,
        length: amplicon_length(row, legacy_length),
        overlap: row.overlap_total,
    }
}

/// The lines of the regions of `rows`, in their order.
pub open spec fn amplicon_lines(chromosome: Seq<char>, rows: Seq<RegionState>, legacy_length: bool)
    -> Seq<ReportLine> {
    Seq::new(rows.len(), |i: int| amplicon_line(chromosome, rows[i], legacy_length))
}

/// Sum of the lengths of `rows`.
pub open spec fn summed_length(rows: Seq<RegionState>, legacy_length: bool) -> int
    decreases rows.len(),
{
    if rows.len() == 0 {
        0
    } else {
        summed_length(rows.drop_last(), legacy_length) + amplicon_length(rows.last(), legacy_length)
    }
}

/// Sum of the overlap totals of `rows`.
pub open spec fn summed_overlap(rows: Seq<RegionState>) -> int
    decreases rows.len(),
{
    if rows.len() == 0 {
        0
    } else {
        summed_overlap(rows.drop_last()) + rows.last().overlap_total
    }
}

/// Largest end among `rows`, and zero where none is above zero.
pub open spec fn span_max_end(rows: Seq<RegionState>) -> int
    decreases rows.len(),
{
    if rows.len() == 0 {
        0
    } else if rows.last().end > span_max_end(rows.drop_last()) {
        rows.last().end
    } else {
        span_max_end(rows.drop_last())
    }
}

/// The running summary of a group of regions of one name.
#[derive(Clone, Debug, PartialEq, Eq)]
pub struct ReportGroup {
    pub group_name: String,
    pub span_start: i64,
    pub span_max_end: i64,
    pub summed_length: i128,
    pub summed_overlap: i128,
}

/// A running summary as plain values.
pub struct GroupState {
    pub name: Seq<char>,
    pub span_start: int,
    pub span_max_end: int,
    pub summed_length: int,
    pub summed_overlap: int,
}

impl View for ReportGroup {
    type V = GroupState;

    open spec fn view(&self) -> GroupState {
        GroupState {
            name: self.group_name@,
            span_start: self.span_start as int,
            span_max_end: self.span_max_end as int,
            summed_length: self.summed_length as int,
            summed_overlap: self.summed_overlap as int,
        }
    }
}

/// The summary before any group has begun: no name, no length, a start at
/// the largest number and an end at zero.
pub open spec fn idle_group() -> GroupState {
    GroupState {
        name: Seq::empty(),
        span_start: i64::MAX as int,
        span_max_end: 0,
        summed_length: 0,
        summed_overlap: 0,
    }
}

/// The summary of a group that begins with `row`, before `row` is counted.
pub open spec fn opened_group(row: RegionState) -> GroupState {
    GroupState {
        name: row.name,
        span_start: row.start,
        span_max_end: 0,
        summed_length: 0,
        summed_overlap: 0,
    }
}

/// `group` after `row` has been counted.
pub open spec fn group_with(group: GroupState, row: RegionState, legacy_length: bool)
    -> GroupState {
    GroupState {
        name: group.name,
        span_start: group.span_start,
        span_max_end: if row.end > group.span_max_end {
            row.end
        } else {
            group.span_max_end
        },
        summed_length: group.summed_length + amplicon_length(row, legacy_length),
        summed_overlap: group.summed_overlap + row.overlap_total,
    }
}

/// The summary of the group that `rows` make up: it carries the name of
/// the first row and starts where that row starts, it ends at the largest
/// end, and its length and overlap are the sums over the rows.
pub open spec fn group_summary(rows: Seq<RegionState>, legacy_length: bool) -> GroupState {
    GroupState {
        name: rows[0].name,
        span_start: rows[0].start,
        span_max_end: span_max_end(rows),
        summed_length: summed_length(rows, legacy_length),
        summed_overlap: summed_overlap(rows),
    }
}

/// The line that reports a summary.
pub open spec fn group_line(chromosome: Seq<char>, group: GroupState) -> ReportLine {
    ReportLine {
        gene: group.name,
        chromosome,
        start: group.span_start,
        end: group.span_max_end,
        tag: RowTag::WholeGene,
        length: group.summed_length,
        overlap: group.summed_overlap,
    }
}

/// The line that sums up a group: it starts where the first region of the
/// group starts and ends at the largest end of the group.
pub open spec fn whole_gene_line(chromosome: Seq<char>, group: Seq<RegionState>, legacy_length: bool)
    -> ReportLine {
    group_line(chromosome, group_summary(group, legacy_length))
}

/// Number of rows at the front of `rows` that carry `name`.
pub open spec fn same_name_prefix(rows: Seq<RegionState>, name: Seq<char>) -> nat
    decreases rows.len(),
{
    if rows.len() == 0 || rows[0].name != name {
        0
    } else {
        1 + same_name_prefix(rows.skip(1), name)
    }
}

/// Number of rows in the first group of `rows`: the first row and those
/// behind it that share its name without a gap.
pub open spec fn first_group_len(rows: Seq<RegionState>) -> nat {
    if rows.len() == 0 {
        0
    } else {
        same_name_prefix(rows, rows[0].name)
    }
}

/// The lines of `rows` group by group: the regions of a group, then the
/// line of the whole gene.
pub open spec fn folded_lines(chromosome: Seq<char>, rows: Seq<RegionState>, legacy_length: bool)
    -> Seq<ReportLine>
    decreases rows.len(),
{
    let n = first_group_len(rows) as int;
    if 0 < n <= rows.len() {
        amplicon_lines(chromosome, rows.take(n), legacy_length).push(
            whole_gene_line(chromosome, rows.take(n), legacy_length),
        ) + folded_lines(chromosome, rows.skip(n), legacy_length)
    } else {
        Seq::empty()
    }
}

/// The line that closes a chromosome without regions: a group without a
/// name, of no length, that starts at the largest number and ends at zero.
pub open spec fn empty_group_line(chromosome: Seq<char>) -> ReportLine {
    group_line(chromosome, idle_group())
}

/// The report of a chromosome whose rows, in report order, are `rows`.
pub open spec fn chromosome_lines(chromosome: Seq<char>, rows: Seq<RegionState>, legacy_length: bool)
    -> Seq<ReportLine> {
    if rows.len() == 0 {
        seq![empty_group_line(chromosome)]
    } else {
        folded_lines(chromosome, rows, legacy_length)
    }
}

/// A row whose bounds and total are those of a region.
pub open spec fn row_in_range(row: RegionState) -> bool {
    0 <= row.start <= row.end <= crate::region::MAX_COORDINATE && 0 <= row.overlap_total
}

/// Where the first `n` rows carry `name` and the row behind them, if there
/// is one, does not, `n` rows at the front carry `name`.
pub proof fn lemma_same_name_prefix(rows: Seq<RegionState>, name: Seq<char>, n: int)
    requires
        0 <= n <= rows.len(),
        forall|k: int| 0 <= k < n ==> (#[trigger] rows[k]).name == name,
        n == rows.len() || rows[n].name != name,
    ensures
        same_name_prefix(rows, name) == n,
    decreases n,
{
    if n > 0 {
        let rest = rows.skip(1);
        assert forall|k: int| 0 <= k < n - 1 implies (#[trigger] rest[k]).name == name by {
            assert(rest[k] == rows[k + 1]);
        }
        lemma_same_name_prefix(rest, name, n - 1);
    }
}

proof fn lemma_group_grows(rows: Seq<RegionState>, legacy_length: bool)
    requires
        rows.len() > 0,
    ensures
        rows.len() == 1 ==> group_summary(rows, legacy_length) == group_with(
            opened_group(rows[0]),
            rows[0],
            legacy_length,
        ),
        rows.len() > 1 ==> group_summary(rows, legacy_length) == group_with(
            group_summary(rows.drop_last(), legacy_length),
            rows.last(),
            legacy_length,
        ),
{
    let earlier = rows.drop_last();
    if rows.len() == 1 {
        assert(earlier.len() == 0);
        assert(summed_length(earlier, legacy_length) == 0);
        assert(summed_overlap(earlier) == 0);
        assert(span_max_end(earlier) == 0);
    } else {
        assert(earlier[0] == rows[0]);
    }
}

/// Where the rows `first .. next` of `views` carry one name and the row
/// behind them, if there is one, carries another, they are the first group
/// of the rows from `first` on.
proof fn lemma_group_closed(
    place: Seq<char>,
    views: Seq<RegionState>,
    first: int,
    next: int,
    legacy_length: bool,
)
    requires
        0 <= first < next <= views.len(),
        forall|k: int| first <= k < next ==> (#[trigger] views[k]).name == views[first].name,
        next == views.len() || views[next].name != views[first].name,
    ensures
        folded_lines(place, views.skip(first), legacy_length) == amplicon_lines(
            place,
            views.subrange(first, next),
            legacy_length,
        ).push(whole_gene_line(place, views.subrange(first, next), legacy_length)) + folded_lines(
            place,
            views.skip(next),
            legacy_length,
        ),
{
    let rest = views.skip(first);
    let n = next - first;
    assert forall|k: int| 0 <= k < n implies (#[trigger] rest[k]).name == rest[0].name by {
        assert(rest[k] == views[first + k]);
    }
    if next < views.len() {
        assert(rest[n] == views[next]);
    }
    lemma_same_name_prefix(rest, rest[0].name, n);
    assert(rest.take(n) =~= views.subrange(first, next));
    assert(rest.skip(n) =~= views.skip(next));
}

impl ReportGroup {
    /// The summary before any group has begun.
    pub fn idle() -> (group: ReportGroup)
        ensures
            group@ == idle_group(),
    {
        ReportGroup {
            group_name: String::new(),
            span_start: i64::MAX,
            span_max_end: 0,
            summed_length: 0,
            summed_overlap: 0,
        }
    }

    /// Begins the group of `row`.
    pub fn open(row: &OutputRow) -> (group: ReportGroup)
        ensures
            group@ == opened_group(row@),
    {
        ReportGroup {
            group_name: row.name.clone(),
            span_start: row.start,
            span_max_end: 0,
            summed_length: 0,
            summed_overlap: 0,
        }
    }

    /// Counts `row` into the group and gives the line of `row`.
    pub fn add(&mut self, chromosome: &str, row: &OutputRow, legacy_length: bool) -> (line:
        ReportRow)
        requires
            row_in_range(row@),
            i128::MIN <= old(self)@.summed_length,
            old(self)@.summed_length + amplicon_length(row@, legacy_length) <= i128::MAX,
            i128::MIN <= old(self)@.summed_overlap,
            old(self)@.summed_overlap + row@.overlap_total <= i128::MAX,
        ensures
            final(self)@ == group_with(old(self)@, row@, legacy_length),
            line@ == amplicon_line(chromosome@, row@, legacy_length),
    {
        let length: i64 = if legacy_length {
            row.end - row.start + 1
        } else {
            row.end - row.start
        };
        if row.end > self.span_max_end {
            self.span_max_end = row.end;
        }
        self.summed_length = self.summed_length + length as i128;
        self.summed_overlap = self.summed_overlap + row.overlap_total as i128;
        ReportRow {
            gene: row.name.clone(),
            chromosome: chromosome.to_owned(),
            start: row.start,
            end: row.end,
            tag: RowTag::Amplicon,
            length: length as i128,
            overlap: row.overlap_total as i128,
        }
    }

    /// The line that reports the group as it stands.
    pub fn close(&self, chromosome: &str) -> (line: ReportRow)
        ensures
            line@ == group_line(chromosome@, self@),
    {
        ReportRow {
            gene: self.group_name.clone(),
            chromosome: chromosome.to_owned(),
            start: self.span_start,
            end: self.span_max_end,
            tag: RowTag::WholeGene,
            length: self.summed_length,
            overlap: self.summed_overlap,
        }
    }
}

/// Folds rows into the report of their chromosome. Every row gives a line
/// of its own. Wherever the name changes the group that ends there gives
/// the line of the whole gene, and so does the group that is open behind
/// the last row, even where there was no row at all.
pub fn fold_rows(chromosome: &str, rows: &Vec<OutputRow>, legacy_length: bool) -> (report: Vec<
    ReportRow,
>)
    requires
        forall|i: int| 0 <= i < rows.len() ==> row_in_range(#[trigger] rows[i]@),
    ensures
        report_lines(report@) == chromosome_lines(chromosome@, row_views(rows@), legacy_length),
{
    let ghost views = row_views(rows@);
    let ghost place = chromosome@;
    let mut report: Vec<ReportRow> = Vec::new();
    let mut group = ReportGroup::idle();
    let mut i: usize = 0;
    let ghost mut first: int = 0;
    let ghost mut before: Seq<ReportLine> = Seq::empty();
    proof {
        assert(views.skip(0) =~= views);
        assert(views.subrange(0, 0) =~= Seq::empty());
        assert(report_lines(report@) =~= before + amplicon_lines(
            place,
            views.subrange(0, 0),
            legacy_length,
        ));
        assert(before + folded_lines(place, views, legacy_length) =~= folded_lines(
            place,
            views,
            legacy_length,
        ));
    }
    while i < rows.len()
        invariant
            i <= rows.len(),
            0 <= first <= i,
            views == row_views(rows@),
            place == chromosome@,
            forall|k: int| 0 <= k < rows.len() ==> row_in_range(#[trigger] rows[k]@),
            i == 0 ==> group@ == idle_group(),
            i > 0 ==> first < i && group@ == group_summary(
                views.subrange(first, i as int),
                legacy_length,
            ),
            forall|k: int| first <= k < i ==> (#[trigger] views[k]).name == views[first].name,
            0 <= group.summed_length <= (i - first) * 0x8000_0000,
            0 <= group.summed_overlap <= (i - first) * 0x7fff_ffff_ffff_ffff,
            0 <= group.span_max_end <= crate::region::MAX_COORDINATE,
            report_lines(report@) == before + amplicon_lines(
                place,
                views.subrange(first, i as int),
                legacy_length,
            ),
            before + folded_lines(place, views.skip(first), legacy_length) == folded_lines(
                place,
                views,
                legacy_length,
            ),
        decreases rows.len() - i,
    {
        let row = &rows[i];
        assert(row_in_range(row@));
        assert(views[i as int] == row@);
        if i == 0 || !(row.name == group.group_name) {
            if i > 0 {
                let ghost lines = report_lines(report@);
                report.push(group.close(chromosome));
                proof {
                    let members = views.subrange(first, i as int);
                    lemma_group_closed(place, views, first, i as int, legacy_length);
                    assert(report_lines(report@) =~= lines.push(
                        whole_gene_line(place, members, legacy_length),
                    ));
                    assert(report_lines(report@) + folded_lines(
                        place,
                        views.skip(i as int),
                        legacy_length,
                    ) =~= before + folded_lines(place, views.skip(first), legacy_length));
                    before = report_lines(report@);
                }
            }
            group = ReportGroup::open(row);
            proof {
                first = i as int;
                assert(views.subrange(first, i as int) =~= Seq::empty());
                assert(report_lines(report@) =~= before + amplicon_lines(
                    place,
                    views.subrange(first, i as int),
                    legacy_length,
                ));
            }
        }
        let ghost lines = report_lines(report@);
        let ghost old_group = group@;
        let line = group.add(chromosome, row, legacy_length);
        report.push(line);
        proof {
            let members = views.subrange(first, i + 1);
            let earlier = views.subrange(first, i as int);
            assert(members.drop_last() =~= earlier);
            assert(members.last() == views[i as int]);
            assert(members[0] == views[first]);
            lemma_group_grows(members, legacy_length);
            assert(group@ == group_summary(members, legacy_length));
            assert(report_lines(report@) =~= lines.push(
                amplicon_line(place, views[i as int], legacy_length),
            ));
            assert(amplicon_lines(place, members, legacy_length) =~= amplicon_lines(
                place,
                earlier,
                legacy_length,
            ).push(amplicon_line(place, views[i as int], legacy_length)));
            assert(report_lines(report@) =~= before + amplicon_lines(
                place,
                members,
                legacy_length,
            ));
        }
        i = i + 1;
    }
    let ghost lines = report_lines(report@);
    report.push(group.close(chromosome));
    proof {
        if i == 0 {
            assert(report_lines(report@) =~= seq![empty_group_line(place)]);
        } else {
            let members = views.subrange(first, i as int);
            lemma_group_closed(place, views, first, i as int, legacy_length);
            assert(views.skip(i as int) =~= Seq::empty());
            assert(report_lines(report@) =~= lines.push(
                whole_gene_line(place, members, legacy_length),
            ));
            assert(report_lines(report@) =~= before + folded_lines(
                place,
                views.skip(first),
                legacy_length,
            ));
        }
    }
    report
}

} // verus!
