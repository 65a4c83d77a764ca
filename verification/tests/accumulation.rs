use seq2c_rs::engine::{AlignmentFault, CoverageEngine, RegionRecord};
use seq2c_rs::index::ChromosomeIndex;
use seq2c_rs::region::{is_sentinel, update_node, Region};
use seq2c_rs::span::{
    calculate_coverage, span_of, AlignmentRecord, AlignmentSpan, CigarOp, SpanFault,
};

fn record(chromosome: &str, start: u64, end: u64, name: &str) -> RegionRecord {
    RegionRecord {
        chromosome: chromosome.to_string(),
        start,
        end,
        name: Some(name.to_string()),
    }
}

/// An alignment whose inclusive 1-based span is `first ..= last`.
fn alignment(chromosome: &str, first: i64, last: i64) -> AlignmentRecord {
    AlignmentRecord {
        chromosome: Some(chromosome.to_string()),
        position: first - 1,
        ops: vec![CigarOp::Match((last - first + 1) as u32)],
        is_supplementary: false,
    }
}

fn totals(engine: &CoverageEngine, slot: usize) -> Vec<i64> {
    let index = engine.chromosome(slot);
    (0..index.len()).map(|id| index.overlap_total(id)).collect()
}

#[test]
fn overlap_uses_the_inclusive_formula() {
    let mut engine = CoverageEngine::build(&vec![record("chr1", 10, 20, "A")]).unwrap();
    assert_eq!(engine.add_alignment(&alignment("chr1", 15, 25)), Ok(()));
    assert_eq!(totals(&engine, 0), vec![6]);
}

#[test]
fn alignment_apart_from_region_adds_nothing() {
    let mut engine = CoverageEngine::build(&vec![record("chr1", 0, 10, "A")]).unwrap();
    assert_eq!(engine.add_alignment(&alignment("chr1", 20, 30)), Ok(()));
    assert_eq!(totals(&engine, 0), vec![0]);
}

#[test]
fn alignment_inside_region_counts_every_base() {
    let mut engine = CoverageEngine::build(&vec![record("chr1", 100, 200, "A")]).unwrap();
    assert_eq!(engine.add_alignment(&alignment("chr1", 120, 129)), Ok(()));
    assert_eq!(totals(&engine, 0), vec![10]);
}

#[test]
fn alignment_ending_on_region_end_counts_one_more() {
    let mut engine = CoverageEngine::build(&vec![record("chr1", 10, 20, "A")]).unwrap();
    assert_eq!(engine.add_alignment(&alignment("chr1", 1, 20)), Ok(()));
    // min(20, 20) - max(1, 10) + 1
    assert_eq!(totals(&engine, 0), vec![11]);
}

#[test]
fn alignment_beside_region_adds_zero() {
    let mut engine = CoverageEngine::build(&vec![
        record("chr1", 10, 20, "left"),
        record("chr1", 31, 40, "right"),
    ])
    .unwrap();
    // 21 ..= 30 lies directly behind the first region and before the second
    assert_eq!(engine.add_alignment(&alignment("chr1", 21, 30)), Ok(()));
    assert_eq!(totals(&engine, 0), vec![0, 0]);
    // one base further each way
    assert_eq!(engine.add_alignment(&alignment("chr1", 20, 31)), Ok(()));
    assert_eq!(totals(&engine, 0), vec![1, 1]);
}

#[test]
fn totals_add_up_over_alignments() {
    let mut engine = CoverageEngine::build(&vec![
        record("chr1", 10, 20, "A"),
        record("chr1", 15, 40, "B"),
        record("chr2", 10, 20, "C"),
    ])
    .unwrap();
    assert_eq!(engine.add_alignment(&alignment("chr1", 15, 25)), Ok(()));
    assert_eq!(engine.add_alignment(&alignment("chr1", 18, 19)), Ok(()));
    assert_eq!(engine.add_alignment(&alignment("chr2", 1, 12)), Ok(()));
    assert_eq!(totals(&engine, 0), vec![6 + 2, 11 + 2]);
    assert_eq!(totals(&engine, 1), vec![3]);
}

#[test]
fn order_of_alignments_does_not_matter() {
    let regions = vec![record("chr1", 10, 20, "A"), record("chr1", 15, 40, "B")];
    let mut forward = CoverageEngine::build(&regions).unwrap();
    let mut backward = CoverageEngine::build(&regions).unwrap();
    let reads = vec![alignment("chr1", 5, 12), alignment("chr1", 18, 50), alignment("chr1", 30, 31)];
    for read in reads.iter() {
        assert_eq!(forward.add_alignment(read), Ok(()));
    }
    for read in reads.iter().rev() {
        assert_eq!(backward.add_alignment(read), Ok(()));
    }
    assert_eq!(totals(&forward, 0), totals(&backward, 0));
    assert_eq!(totals(&forward, 0), vec![3 + 3, 23 + 2]);
}

#[test]
fn unnamed_region_is_never_credited() {
    let mut engine = CoverageEngine::build(&vec![
        record("chr1", 10, 20, "."),
        record("chr1", 10, 20, "A"),
    ])
    .unwrap();
    assert_eq!(engine.add_alignment(&alignment("chr1", 15, 25)), Ok(()));
    assert_eq!(engine.add_alignment(&alignment("chr1", 1, 100)), Ok(()));
    assert_eq!(totals(&engine, 0), vec![0, 6 + 11]);
}

#[test]
fn unmapped_records_change_nothing() {
    let mut engine = CoverageEngine::build(&vec![record("chr1", 10, 20, "A")]).unwrap();
    let unmapped = AlignmentRecord {
        chromosome: None,
        position: -1,
        ops: vec![CigarOp::Match(50)],
        is_supplementary: false,
    };
    for _ in 0..3 {
        assert_eq!(engine.add_alignment(&unmapped), Ok(()));
    }
    assert_eq!(totals(&engine, 0), vec![0]);
    let report = engine.report(false);
    assert_eq!(report[0].overlap, 0);
    assert_eq!(report[0].length, 10);
    assert_eq!(report[0].overlap as f64 / report[0].length as f64, 0.0);
}

#[test]
fn supplementary_records_change_nothing() {
    let mut engine = CoverageEngine::build(&vec![record("chr1", 10, 20, "A")]).unwrap();
    let mut read = alignment("chr1", 15, 25);
    read.is_supplementary = true;
    assert_eq!(engine.add_alignment(&read), Ok(()));
    assert_eq!(totals(&engine, 0), vec![0]);
    let report = engine.report(true);
    assert_eq!(report[0].overlap, 0);
    assert_eq!(report[0].length, 11);
}

#[test]
fn supplementary_record_is_passed_over_before_its_span_is_looked_at() {
    let mut engine = CoverageEngine::build(&vec![record("chr1", 10, 20, "A")]).unwrap();
    let read = AlignmentRecord {
        chromosome: Some("chr1".to_string()),
        position: -5,
        ops: vec![],
        is_supplementary: true,
    };
    assert_eq!(engine.add_alignment(&read), Ok(()));
}

#[test]
fn record_on_unknown_chromosome_changes_nothing() {
    let mut engine = CoverageEngine::build(&vec![record("chr1", 10, 20, "A")]).unwrap();
    assert_eq!(engine.add_alignment(&alignment("chrX", 15, 25)), Ok(()));
    assert_eq!(totals(&engine, 0), vec![0]);
}

#[test]
fn negative_position_is_a_fault() {
    let mut engine = CoverageEngine::build(&vec![record("chr1", 10, 20, "A")]).unwrap();
    let read = AlignmentRecord {
        chromosome: Some("chr1".to_string()),
        position: -1,
        ops: vec![CigarOp::Match(5)],
        is_supplementary: false,
    };
    assert_eq!(engine.add_alignment(&read), Err(AlignmentFault::NegativePosition));
    assert_eq!(totals(&engine, 0), vec![0]);
}

#[test]
fn span_beyond_the_last_coordinate_is_a_fault() {
    let mut engine = CoverageEngine::build(&vec![record("chr1", 10, 20, "A")]).unwrap();
    let read = AlignmentRecord {
        chromosome: Some("chr1".to_string()),
        position: i64::MAX - 10,
        ops: vec![CigarOp::Match(10)],
        is_supplementary: false,
    };
    assert_eq!(engine.add_alignment(&read), Err(AlignmentFault::SpanTooLong));
    assert_eq!(totals(&engine, 0), vec![0]);
}

#[test]
fn very_long_alignment_is_credited_up_to_the_region() {
    let mut engine =
        CoverageEngine::build(&vec![record("chr1", 2147483000, 2147483646, "far")]).unwrap();
    let read = AlignmentRecord {
        chromosome: Some("chr1".to_string()),
        position: 2147483099,
        ops: vec![CigarOp::Match(u32::MAX), CigarOp::Del(u32::MAX)],
        is_supplementary: false,
    };
    assert_eq!(engine.add_alignment(&read), Ok(()));
    assert_eq!(totals(&engine, 0), vec![2147483646 - 2147483100 + 1]);
    let beyond = AlignmentRecord {
        chromosome: Some("chr1".to_string()),
        position: 3000000000,
        ops: vec![CigarOp::Match(10)],
        is_supplementary: false,
    };
    assert_eq!(engine.add_alignment(&beyond), Ok(()));
    assert_eq!(totals(&engine, 0), vec![2147483646 - 2147483100 + 1]);
}

#[test]
fn span_counts_matches_and_deletions_only() {
    let ops = vec![
        CigarOp::SoftClip(5),
        CigarOp::Match(10),
        CigarOp::Ins(3),
        CigarOp::Del(2),
        CigarOp::RefSkip(100),
        CigarOp::Match(7),
        CigarOp::Equal(4),
        CigarOp::Diff(4),
        CigarOp::Pad(1),
        CigarOp::HardClip(6),
    ];
    assert_eq!(span_of(99, &ops), Ok(AlignmentSpan { ref_start: 100, ref_end: 99 + 19 }));
}

#[test]
fn span_without_operations_is_empty() {
    assert_eq!(span_of(0, &vec![]), Ok(AlignmentSpan { ref_start: 1, ref_end: 0 }));
    assert_eq!(span_of(41, &vec![CigarOp::Ins(9)]), Ok(AlignmentSpan { ref_start: 42, ref_end: 41 }));
}

#[test]
fn span_faults() {
    assert_eq!(span_of(-1, &vec![CigarOp::Match(1)]), Err(SpanFault::NegativePosition));
    assert_eq!(span_of(i64::MAX, &vec![]), Err(SpanFault::TooLong));
    assert_eq!(span_of(i64::MAX - 1, &vec![CigarOp::Match(1)]), Err(SpanFault::TooLong));
    assert_eq!(
        span_of(i64::MAX - 2, &vec![CigarOp::Match(1)]),
        Ok(AlignmentSpan { ref_start: i64::MAX - 1, ref_end: i64::MAX - 1 })
    );
}

#[test]
fn spanned_length_of_each_operation() {
    assert_eq!(CigarOp::Match(3).spanned(), 3);
    assert_eq!(CigarOp::Del(4).spanned(), 4);
    assert_eq!(CigarOp::Ins(5).spanned(), 0);
    assert_eq!(CigarOp::RefSkip(6).spanned(), 0);
    assert_eq!(CigarOp::SoftClip(7).spanned(), 0);
    assert_eq!(CigarOp::HardClip(8).spanned(), 0);
    assert_eq!(CigarOp::Pad(9).spanned(), 0);
    assert_eq!(CigarOp::Equal(10).spanned(), 0);
    assert_eq!(CigarOp::Diff(11).spanned(), 0);
}

#[test]
fn coverage_formula() {
    assert_eq!(calculate_coverage(15..25, 10..20), 6);
    assert_eq!(calculate_coverage(10..20, 15..25), 6);
    assert_eq!(calculate_coverage(1..100, 10..20), 11);
    assert_eq!(calculate_coverage(12..13, 10..20), 2);
    assert_eq!(calculate_coverage(21..30, 10..20), 0);
    assert_eq!(calculate_coverage(20..30, 0..10), -9);
    assert_eq!(calculate_coverage(0..0, 0..0), 1);
    assert_eq!(calculate_coverage(-5..-1, -3..7), 3);
}

#[test]
fn update_of_one_total() {
    let region = Region { name: "A".to_string(), start: 10, end: 20 };
    assert_eq!(update_node(15, 25, &region, 0), Some(6));
    assert_eq!(update_node(15, 25, &region, 100), Some(106));
    assert_eq!(update_node(30, 40, &region, 100), Some(100));
    assert_eq!(update_node(21, 40, &region, 100), Some(100));
    assert_eq!(update_node(1, 9, &region, 100), Some(100));
    assert_eq!(update_node(1, 8, &region, 100), Some(100));
    assert_eq!(update_node(15, 25, &region, i64::MAX - 6), Some(i64::MAX));
    assert_eq!(update_node(15, 25, &region, i64::MAX - 5), None);
    let unnamed = Region { name: ".".to_string(), start: 10, end: 20 };
    assert_eq!(update_node(15, 25, &unnamed, 0), Some(0));
    assert_eq!(update_node(15, 25, &unnamed, i64::MAX), Some(i64::MAX));
}

#[test]
fn sentinel_is_the_lone_dot() {
    assert!(is_sentinel("."));
    assert!(!is_sentinel(""));
    assert!(!is_sentinel(".."));
    assert!(!is_sentinel("A"));
    assert!(!is_sentinel(". "));
    assert!(!is_sentinel("\u{2e2e}"));
}

#[test]
fn query_reports_touching_regions() {
    let regions = vec![
        Region { name: "a".to_string(), start: 0, end: 10 },
        Region { name: "b".to_string(), start: 10, end: 20 },
        Region { name: "c".to_string(), start: 21, end: 30 },
        Region { name: "d".to_string(), start: 50, end: 50 },
    ];
    let index = ChromosomeIndex::build("chr1".to_string(), regions);
    let mut hits = index.query_overlaps(10, 20);
    hits.sort();
    assert_eq!(hits, vec![0, 1]);
    let mut hits = index.query_overlaps(11, 21);
    hits.sort();
    assert_eq!(hits, vec![1, 2]);
    assert_eq!(index.query_overlaps(31, 49), Vec::<usize>::new());
    assert_eq!(index.query_overlaps(50, 50), vec![3]);
    assert_eq!(index.query_overlaps(40, 50), vec![3]);
    assert_eq!(index.query_overlaps(50, 60), vec![3]);
    // a query is not asked to be in order: region 1 starts at 10 and ends at 20
    assert_eq!(index.query_overlaps(20, 10), vec![1]);
    assert_eq!(index.query_overlaps(45, 35), Vec::<usize>::new());
    let mut hits = index.query_overlaps(0, i32::MAX);
    hits.sort();
    assert_eq!(hits, vec![0, 1, 2, 3]);
}

#[test]
fn query_agrees_with_a_scan_on_many_regions() {
    let mut regions = Vec::new();
    let mut bounds = Vec::new();
    let mut seed: u64 = 12345;
    for id in 0..3000 {
        seed = seed.wrapping_mul(6364136223846793005).wrapping_add(1442695040888963407);
        let start = ((seed >> 33) % 100000) as i64;
        seed = seed.wrapping_mul(6364136223846793005).wrapping_add(1442695040888963407);
        let end = start + ((seed >> 33) % 500) as i64;
        regions.push(Region { name: format!("r{}", id), start, end });
        bounds.push((start, end));
    }
    let index = ChromosomeIndex::build("chr1".to_string(), regions);
    assert_eq!(index.len(), 3000);
    for query in 0..200 {
        let first = query * 500;
        let last = first + 300;
        let mut hits = index.query_overlaps(first, last);
        hits.sort();
        let expected: Vec<usize> = (0..bounds.len())
            .filter(|id| bounds[*id].0 <= last as i64 && first as i64 <= bounds[*id].1)
            .collect();
        assert_eq!(hits, expected);
    }
}

#[test]
fn totals_agree_with_a_scan_on_many_regions() {
    let mut records = Vec::new();
    let mut seed: u64 = 99;
    for id in 0..2000 {
        seed = seed.wrapping_mul(6364136223846793005).wrapping_add(1442695040888963407);
        let start = (seed >> 33) % 50000;
        seed = seed.wrapping_mul(6364136223846793005).wrapping_add(1442695040888963407);
        let end = start + (seed >> 33) % 300;
        let name = if id % 7 == 0 { ".".to_string() } else { format!("g{}", id % 40) };
        records.push(RegionRecord { chromosome: "chr1".to_string(), start, end, name: Some(name) });
    }
    let mut engine = CoverageEngine::build(&records).unwrap();
    let mut expected = vec![0i64; records.len()];
    for read in 0..500 {
        seed = seed.wrapping_mul(6364136223846793005).wrapping_add(1442695040888963407);
        let first = ((seed >> 33) % 50000) as i64 + 1;
        let last = first + (read % 150);
        assert_eq!(engine.add_alignment(&alignment("chr1", first, last)), Ok(()));
        for (id, region) in records.iter().enumerate() {
            if region.name.as_deref() == Some(".") {
                continue;
            }
            let overlap = last.min(region.end as i64) - first.max(region.start as i64) + 1;
            if overlap > 0 {
                expected[id] += overlap;
            }
        }
    }
    assert_eq!(totals(&engine, 0), expected);
}

#[test]
fn index_keeps_regions_in_load_order() {
    let regions = vec![
        Region { name: "late".to_string(), start: 500, end: 600 },
        Region { name: "early".to_string(), start: 5, end: 6 },
    ];
    let index = ChromosomeIndex::build("chr7".to_string(), regions);
    assert_eq!(index.name(), "chr7");
    assert_eq!(index.len(), 2);
    assert_eq!(index.region(0).name, "late");
    assert_eq!(index.region(0).start, 500);
    assert_eq!(index.region(0).end, 600);
    assert_eq!(index.region(1).name, "early");
    assert_eq!(index.overlap_total(0), 0);
    assert_eq!(index.overlap_total(1), 0);
}

#[test]
fn index_credits_a_span() {
    let regions = vec![
        Region { name: "a".to_string(), start: 10, end: 20 },
        Region { name: ".".to_string(), start: 10, end: 20 },
        Region { name: "b".to_string(), start: 100, end: 200 },
    ];
    let mut index = ChromosomeIndex::build("chr1".to_string(), regions);
    assert_eq!(index.add_span(&AlignmentSpan { ref_start: 15, ref_end: 25 }), Ok(()));
    assert_eq!(index.add_span(&AlignmentSpan { ref_start: 1, ref_end: 0 }), Ok(()));
    assert_eq!(index.overlap_total(0), 6);
    assert_eq!(index.overlap_total(1), 0);
    assert_eq!(index.overlap_total(2), 0);
    let mut rows = index.rows();
    rows.sort_by_key(|row| row.start);
    assert_eq!(rows.len(), 3);
    assert_eq!(rows[2].name, "b");
    assert_eq!(rows[2].overlap_total, 0);
}
