//! Target regions and the records they are loaded from.

use crate::span::{calculate_coverage, overlap_credit};
use vstd::prelude::*;
use vstd::utf8::*;

verus! {

/// Largest coordinate that a region may end at.
pub const MAX_COORDINATE: i64 = 2147483646;

/// The name that marks a region as unnamed.
pub open spec fn sentinel_name() -> Seq<char> {
    seq!['.']
}

/// A named interval on one chromosome: 0-based, `start` included, `end` not.
#[derive(Clone, Debug, PartialEq, Eq)]
pub struct Region {
    pub name: String,
    pub start: i64,
    pub end: i64,
}

/// A region together with the overlap credited to it so far.
pub struct RegionState {
    pub name: Seq<char>,
    pub start: int,
    pub end: int,
    pub overlap_total: int,
}

impl RegionState {
    /// The bounds are in order and within reach of the index, the total is
    /// a count that fits, and an unnamed region has been credited nothing.
    pub open spec fn wf(self) -> bool {
        &&& 0 <= self.start <= self.end <= MAX_COORDINATE
        &&& 0 <= self.overlap_total <= i64::MAX
        &&& self.name == sentinel_name() ==> self.overlap_total == 0
    }

    /// What an alignment covering `ref_start ..= ref_end` adds to this region.
    pub open spec fn credit(self, ref_start: int, ref_end: int) -> int {
        if self.name == sentinel_name() {
            0
        } else {
            overlap_credit(ref_start, ref_end, self.start, self.end)
        }
    }

    /// This region after `amount` more bases of overlap.
    pub open spec fn credited(self, amount: int) -> RegionState {
        RegionState { overlap_total: self.overlap_total + amount, ..self }
    }
}

impl Region {
    /// The bounds are in order and within reach of the index.
    pub open spec fn wf(&self) -> bool {
        0 <= self.start <= self.end <= MAX_COORDINATE
    }

    /// This region with `overlap_total` credited to it.
    pub open spec fn with_total(&self, overlap_total: int) -> RegionState {
        RegionState {
            name: self.name@,
            start: self.start as int,
            end: self.end as int,
            overlap_total,
        }
    }
}

/// A region as it is reported: its name, its bounds and its overlap total.
#[derive(Clone, Debug, PartialEq, Eq)]
pub struct OutputRow {
    pub name: String,
    pub start: i64,
    pub end: i64,
    pub overlap_total: i64,
}

impl View for OutputRow {
    type V = RegionState;

    open spec fn view(&self) -> RegionState {
        RegionState {
            name: self.name@,
            start: self.start as int,
            end: self.end as int,
            overlap_total: self.overlap_total as int,
        }
    }
}

impl OutputRow {
    /// A copy of this row.
    pub fn duplicate(&self) -> (copy: OutputRow)
        ensures
            copy@ == self@,
    {
        OutputRow {
            name: self.name.clone(),
            start: self.start,
            end: self.end,
            overlap_total: self.overlap_total,
        }
    }
}

/// The rows of `rows` as plain values.
pub open spec fn row_views(rows: Seq<OutputRow>) -> Seq<RegionState> {
    Seq::new(rows.len(), |i: int| rows[i]@)
}

/// Tells whether `name` is the lone dot that stands for "no name".
pub fn is_sentinel(name: &str) -> (sentinel: bool)
    ensures
        sentinel == (name@ == sentinel_name()),
{
    let bytes = name.as_bytes();
    let sentinel = bytes.len() == 1 && bytes[0] == 46u8;
    proof {
        let dot = sentinel_name();
        assert(is_ascii_chars(dot));
        is_ascii_chars_encode_utf8(dot);
        assert(encode_utf8(dot) =~= seq![46u8]);
        encode_utf8_decode_utf8(dot);
        encode_utf8_decode_utf8(name@);
        if sentinel {
            assert(encode_utf8(name@) =~= seq![46u8]);
        }
    }
    sentinel
}

/// New overlap total of `region` after an alignment spanning `start ..= end`:
/// the total grows by the overlap unless the region is unnamed. `None` where
/// the new total would not fit.
pub fn update_node(start: i64, end: i64, region: &Region, total: i64) -> (updated: Option<i64>)
    requires
        region.wf(),
        1 <= start,
        start - 1 <= end,
        0 <= total,
    ensures
        updated == (if total + region.with_total(total as int).credit(start as int, end as int)
            <= i64::MAX {
            Some((total + region.with_total(total as int).credit(start as int, end as int)) as i64)
        } else {
            None
        }),
{
    if is_sentinel(region.name.as_str()) {
        return Some(total);
    }
    if region.start - 1 <= end && start - 1 <= region.end {
        let overlap = calculate_coverage(start..end, region.start..region.end);
        total.checked_add(overlap)
    } else {
        Some(total)
    }
}

} // verus!
