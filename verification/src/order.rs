//! The order in which the rows of a chromosome are reported.

use crate::region::{OutputRow, RegionState};
use vstd::prelude::*;
use vstd::relations::*;
use vstd::utf8::*;

verus! {

/// Lexicographic order on byte strings: the first byte that differs decides,
/// and a proper prefix comes first.
pub open spec fn bytes_le(a: Seq<u8>, b: Seq<u8>) -> bool
    decreases a.len(),
{
    if a.len() == 0 {
        true
    } else if b.len() == 0 {
        false
    } else if a[0] != b[0] {
        a[0] < b[0]
    } else {
        bytes_le(a.skip(1), b.skip(1))
    }
}

/// Order of names: lexicographic on their UTF-8 bytes.
pub open spec fn name_le(a: Seq<char>, b: Seq<char>) -> bool {
    bytes_le(encode_utf8(a), encode_utf8(b))
}

/// Order of rows: by name, then start, then end, then overlap total.
pub open spec fn row_le(a: RegionState, b: RegionState) -> bool {
    if a.name != b.name {
        name_le(a.name, b.name)
    } else if a.start != b.start {
        a.start < b.start
    } else if a.end != b.end {
        a.end < b.end
    } else {
        a.overlap_total <= b.overlap_total
    }
}

/// [`row_le`] as a relation.
pub open spec fn row_order() -> spec_fn(RegionState, RegionState) -> bool {
    |a: RegionState, b: RegionState| row_le(a, b)
}

/// Of two byte strings one comes before the other or equals it.
pub proof fn lemma_bytes_le_connected(a: Seq<u8>, b: Seq<u8>)
    ensures
        bytes_le(a, b) || bytes_le(b, a),
    decreases a.len(),
{
    if a.len() > 0 && b.len() > 0 && a[0] == b[0] {
        lemma_bytes_le_connected(a.skip(1), b.skip(1));
    }
}

/// Two byte strings that each come before or equal the other are equal.
pub proof fn lemma_bytes_le_antisymmetric(a: Seq<u8>, b: Seq<u8>)
    requires
        bytes_le(a, b),
        bytes_le(b, a),
    ensures
        a == b,
    decreases a.len(),
{
    if a.len() == 0 {
        assert(b.len() == 0);
        assert(a =~= b);
    } else {
        assert(b.len() > 0);
        assert(a[0] == b[0]);
        lemma_bytes_le_antisymmetric(a.skip(1), b.skip(1));
        assert(a =~= seq![a[0]] + a.skip(1));
        assert(b =~= seq![b[0]] + b.skip(1));
    }
}

/// The order of byte strings carries over a string in between.
pub proof fn lemma_bytes_le_transitive(a: Seq<u8>, b: Seq<u8>, c: Seq<u8>)
    requires
        bytes_le(a, b),
        bytes_le(b, c),
    ensures
        bytes_le(a, c),
    decreases a.len(),
{
    if a.len() > 0 {
        assert(b.len() > 0);
        assert(c.len() > 0);
        if a[0] == b[0] && b[0] == c[0] {
            lemma_bytes_le_transitive(a.skip(1), b.skip(1), c.skip(1));
        }
    }
}

/// Two names with the same bytes are the same name.
pub proof fn lemma_name_bytes_injective(a: Seq<char>, b: Seq<char>)
    requires
        encode_utf8(a) == encode_utf8(b),
    ensures
        a == b,
{
    encode_utf8_decode_utf8(a);
    encode_utf8_decode_utf8(b);
}

/// The order of rows is total: any two rows compare, and only equal rows
/// compare both ways.
pub proof fn lemma_row_order_total()
    ensures
        total_ordering(row_order()),
{
    let r = row_order();
    assert forall|x: RegionState| #[trigger] r(x, x) by {}
    assert forall|x: RegionState, y: RegionState| #[trigger] r(x, y) || #[trigger] r(y, x) by {
        lemma_bytes_le_connected(encode_utf8(x.name), encode_utf8(y.name));
    }
    assert forall|x: RegionState, y: RegionState| #[trigger] r(x, y) && #[trigger] r(y, x) implies x
        == y by {
        if x.name != y.name {
            lemma_bytes_le_antisymmetric(encode_utf8(x.name), encode_utf8(y.name));
            lemma_name_bytes_injective(x.name, y.name);
        }
    }
    assert forall|x: RegionState, y: RegionState, z: RegionState| #[trigger]
        r(x, y) && #[trigger] r(y, z) implies r(x, z) by {
        if x.name != y.name && y.name != z.name {
            lemma_bytes_le_transitive(
                encode_utf8(x.name),
                encode_utf8(y.name),
                encode_utf8(z.name),
            );
            if x.name == z.name {
                lemma_bytes_le_antisymmetric(encode_utf8(x.name), encode_utf8(y.name));
                lemma_name_bytes_injective(x.name, y.name);
            }
        }
    }
}

/// The order of rows carries over a row in between.
pub proof fn lemma_row_le_transitive(a: RegionState, b: RegionState, c: RegionState)
    requires
        row_le(a, b),
        row_le(b, c),
    ensures
        row_le(a, c),
{
    lemma_row_order_total();
    let r = row_order();
    assert(r(a, b) && r(b, c));
}

/// Of two rows one comes before the other or equals it.
pub proof fn lemma_row_le_connected(a: RegionState, b: RegionState)
    ensures
        row_le(a, b) || row_le(b, a),
{
    lemma_bytes_le_connected(encode_utf8(a.name), encode_utf8(b.name));
}

/// Compares two byte strings lexicographically.
pub fn bytes_before_or_equal(a: &[u8], b: &[u8]) -> (le: bool)
    ensures
        le == bytes_le(a@, b@),
{
    let mut i: usize = 0;
    proof {
        assert(a@.skip(0) =~= a@);
        assert(b@.skip(0) =~= b@);
    }
    while i < a.len() && i < b.len() && a[i] == b[i]
        invariant
            i <= a.len(),
            i <= b.len(),
            bytes_le(a@, b@) == bytes_le(a@.skip(i as int), b@.skip(i as int)),
        decreases a.len() - i,
    {
        proof {
            assert(a@.skip(i as int).skip(1) =~= a@.skip(i + 1));
            assert(b@.skip(i as int).skip(1) =~= b@.skip(i + 1));
        }
        i = i + 1;
    }
    if i == a.len() {
        true
    } else if i == b.len() {
        false
    } else {
        a[i] < b[i]
    }
}

/// Tells whether `a` is reported before `b` or is equal to it.
pub fn row_before_or_equal(a: &OutputRow, b: &OutputRow) -> (le: bool)
    ensures
        le == row_le(a@, b@),
{
    if !(a.name == b.name) {
        bytes_before_or_equal(a.name.as_str().as_bytes(), b.name.as_str().as_bytes())
    } else if a.start != b.start {
        a.start < b.start
    } else if a.end != b.end {
        a.end < b.end
    } else {
        a.overlap_total <= b.overlap_total
    }
}

} // verus!
