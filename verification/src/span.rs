//! Reference spans of alignment records and their overlap with a region.

use std::ops::Range;
use vstd::prelude::*;

verus! {

/// One operation of an alignment, with the number of bases it covers.
#[derive(Clone, Copy, Debug, PartialEq, Eq, Structural)]
pub enum CigarOp {
    Match(u32),
    Ins(u32),
    Del(u32),
    RefSkip(u32),
    SoftClip(u32),
    HardClip(u32),
    Pad(u32),
    Equal(u32),
    Diff(u32),
}

impl CigarOp {
    /// Number of reference bases by which this operation extends the span:
    /// only alignment matches and deletions from the reference count.
    pub open spec fn spec_spanned(self) -> nat {
        match self {
            CigarOp::Match(len) => len as nat,
            CigarOp::Del(len) => len as nat,
            _ => 0,
        }
    }

    /// Number of reference bases by which this operation extends the span.
    pub fn spanned(&self) -> (len: u32)
        ensures
            len == self.spec_spanned(),
    {
        match self {
            CigarOp::Match(len) => *len,
            CigarOp::Del(len) => *len,
            _ => 0,
        }
    }
}

/// Sum of the span-extending lengths of `ops`.
pub open spec fn spanned_length(ops: Seq<CigarOp>) -> nat
    decreases ops.len(),
{
    if ops.len() == 0 {
        0
    } else {
        spanned_length(ops.drop_last()) + ops.last().spec_spanned()
    }
}

/// The stretch of the reference that one alignment covers, in 1-based
/// coordinates with both ends included.
#[derive(Clone, Copy, Debug, PartialEq, Eq, Structural)]
pub struct AlignmentSpan {
    pub ref_start: i64,
    pub ref_end: i64,
}

impl AlignmentSpan {
    /// A span starts at 1 or later and may be empty, in which case it ends
    /// one base before its start. The base after its end has a coordinate.
    pub open spec fn wf(self) -> bool {
        1 <= self.ref_start && self.ref_start - 1 <= self.ref_end < i64::MAX
    }
}

/// Why an alignment record has no span.
#[derive(Clone, Copy, Debug, PartialEq, Eq, Structural)]
pub enum SpanFault {
    /// The leftmost mapped position is negative.
    NegativePosition,
    /// The span leaves no coordinate for the base that follows it.
    TooLong,
}

/// What [`span_of`] returns for a leftmost position and a list of operations.
pub open spec fn span_outcome(position: int, ops: Seq<CigarOp>) -> Result<AlignmentSpan, SpanFault> {
    if position < 0 {
        Err(SpanFault::NegativePosition)
    } else if position + spanned_length(ops) >= i64::MAX {
        Err(SpanFault::TooLong)
    } else {
        Ok(
            AlignmentSpan {
                ref_start: (position + 1) as i64,
                ref_end: (position + spanned_length(ops)) as i64,
            },
        )
    }
}

/// Span of an alignment whose leftmost mapped base is at the 0-based
/// `position`: it starts at `position + 1` and covers as many bases as the
/// matches and deletions of `ops` add up to.
pub fn span_of(position: i64, ops: &Vec<CigarOp>) -> (outcome: Result<AlignmentSpan, SpanFault>)
    ensures
        outcome == span_outcome(position as int, ops@),
        outcome matches Ok(span) ==> span.wf(),
{
    if position < 0 {
        return Err(SpanFault::NegativePosition);
    }
    let mut covered: u128 = 0;
    let mut done: usize = 0;
    while done < ops.len()
        invariant
            done <= ops.len(),
            covered == spanned_length(ops@.take(done as int)),
            covered <= done * 0xffff_ffff,
        decreases ops.len() - done,
    {
        assert(ops@.take(done + 1).drop_last() == ops@.take(done as int));
        covered = covered + ops[done].spanned() as u128;
        done = done + 1;
    }
    assert(ops@.take(done as int) == ops@);
    if covered >= (i64::MAX - position) as u128 {
        Err(SpanFault::TooLong)
    } else {
        Ok(AlignmentSpan { ref_start: position + 1, ref_end: position + covered as i64 })
    }
}

/// An alignment record as it is read. A record of a read that is not mapped
/// has no chromosome.
#[derive(Clone, Debug, PartialEq, Eq)]
pub struct AlignmentRecord {
    pub chromosome: Option<String>,
    pub position: i64,
    pub ops: Vec<CigarOp>,
    pub is_supplementary: bool,
}

/// An alignment record as plain values.
pub struct AlignmentView {
    pub chromosome: Option<Seq<char>>,
    pub position: int,
    pub ops: Seq<CigarOp>,
    pub is_supplementary: bool,
}

impl View for AlignmentRecord {
    type V = AlignmentView;

    open spec fn view(&self) -> AlignmentView {
        AlignmentView {
            chromosome: match self.chromosome {
                Some(name) => Some(name@),
                None => None,
            },
            position: self.position as int,
            ops: self.ops@,
            is_supplementary: self.is_supplementary,
        }
    }
}

/// Length of the intersection of two ranges when both ends of both are
/// counted as included. It is zero or negative where the ranges are apart.
pub open spec fn inclusive_overlap(a_start: int, a_end: int, b_start: int, b_end: int) -> int {
    let low = if a_start >= b_start { a_start } else { b_start };
    let high = if a_end <= b_end { a_end } else { b_end };
    high - low + 1
}

/// Overlap of `a` and `b`, the end of each range taken as its last base.
pub fn calculate_coverage(a: Range<i64>, b: Range<i64>) -> (overlap: i64)
    requires
        i64::MIN <= inclusive_overlap(a.start as int, a.end as int, b.start as int, b.end as int)
            <= i64::MAX,
    ensures
        overlap == inclusive_overlap(a.start as int, a.end as int, b.start as int, b.end as int),
{
    let intersection_start = if a.start >= b.start { a.start } else { b.start };
    let intersection_end = if a.end <= b.end { a.end } else { b.end };
    if intersection_start >= 1 {
        intersection_end - (intersection_start - 1)
    } else {
        intersection_end + 1 - intersection_start
    }
}

/// What one alignment adds to a region: the inclusive overlap where the
/// alignment reaches the region or lies directly beside it, nothing elsewhere.
pub open spec fn overlap_credit(ref_start: int, ref_end: int, start: int, end: int) -> int {
    if start <= ref_end + 1 && ref_start - 1 <= end {
        inclusive_overlap(ref_start, ref_end, start, end)
    } else {
        0
    }
}

} // verus!
