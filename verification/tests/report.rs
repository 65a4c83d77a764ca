use seq2c_rs::engine::{CoverageEngine, RegionRecord};
use seq2c_rs::order::{bytes_before_or_equal, row_before_or_equal};
use seq2c_rs::region::OutputRow;
use seq2c_rs::report::{fold_rows, ReportGroup, ReportRow, RowTag};
use seq2c_rs::sort::sort_rows;
use seq2c_rs::span::{AlignmentRecord, CigarOp};

fn record(chromosome: &str, start: u64, end: u64, name: &str) -> RegionRecord {
    RegionRecord {
        chromosome: chromosome.to_string(),
        start,
        end,
        name: Some(name.to_string()),
    }
}

fn alignment(chromosome: &str, first: i64, last: i64) -> AlignmentRecord {
    AlignmentRecord {
        chromosome: Some(chromosome.to_string()),
        position: first - 1,
        ops: vec![CigarOp::Match((last - first + 1) as u32)],
        is_supplementary: false,
    }
}

fn row(name: &str, start: i64, end: i64, overlap_total: i64) -> OutputRow {
    OutputRow { name: name.to_string(), start, end, overlap_total }
}

/// A line as `(gene, chromosome, start, end, whole gene?, length, overlap)`.
fn plain(rows: &Vec<ReportRow>) -> Vec<(String, String, i64, i64, bool, i128, i128)> {
    rows.iter()
        .map(|line| {
            (
                line.gene.clone(),
                line.chromosome.clone(),
                line.start,
                line.end,
                line.tag == RowTag::WholeGene,
                line.length,
                line.overlap,
            )
        })
        .collect()
}

fn line(
    gene: &str,
    chromosome: &str,
    start: i64,
    end: i64,
    whole: bool,
    length: i128,
    overlap: i128,
) -> (String, String, i64, i64, bool, i128, i128) {
    (gene.to_string(), chromosome.to_string(), start, end, whole, length, overlap)
}

fn depth(line: &ReportRow) -> f64 {
    if line.tag == RowTag::WholeGene && line.length <= 0 {
        0.0
    } else {
        line.overlap as f64 / line.length as f64
    }
}

#[test]
fn group_of_two_regions() {
    let rows = vec![row("G1", 0, 5, 3), row("G1", 5, 10, 4)];
    let report = fold_rows("chr1", &rows, false);
    assert_eq!(
        plain(&report),
        vec![
            line("G1", "chr1", 0, 5, false, 5, 3),
            line("G1", "chr1", 5, 10, false, 5, 4),
            line("G1", "chr1", 0, 10, true, 10, 7),
        ]
    );
    assert_eq!(depth(&report[2]), 7.0 / 10.0);
    assert_eq!(format!("{:.2}", depth(&report[2])), "0.70");
}

#[test]
fn group_of_two_regions_with_legacy_length() {
    let rows = vec![row("G1", 0, 5, 3), row("G1", 5, 10, 4)];
    let report = fold_rows("chr1", &rows, true);
    assert_eq!(
        plain(&report),
        vec![
            line("G1", "chr1", 0, 5, false, 6, 3),
            line("G1", "chr1", 5, 10, false, 6, 4),
            line("G1", "chr1", 0, 10, true, 12, 7),
        ]
    );
    assert_eq!(depth(&report[2]), 7.0 / 12.0);
    assert_eq!(format!("{:.2}", depth(&report[0])), "0.50");
    assert_eq!(format!("{:.2}", depth(&report[2])), "0.58");
}

#[test]
fn every_change_of_name_closes_a_group() {
    let rows = vec![
        row("A", 10, 20, 1),
        row("A", 5, 30, 2),
        row("B", 7, 8, 3),
        row("A", 40, 50, 4),
    ];
    let report = fold_rows("chrX", &rows, false);
    assert_eq!(
        plain(&report),
        vec![
            line("A", "chrX", 10, 20, false, 10, 1),
            line("A", "chrX", 5, 30, false, 25, 2),
            line("A", "chrX", 10, 30, true, 35, 3),
            line("B", "chrX", 7, 8, false, 1, 3),
            line("B", "chrX", 7, 8, true, 1, 3),
            line("A", "chrX", 40, 50, false, 10, 4),
            line("A", "chrX", 40, 50, true, 10, 4),
        ]
    );
}

#[test]
fn group_ends_at_its_largest_end() {
    let rows = vec![row("A", 10, 90, 0), row("A", 20, 30, 0), row("A", 40, 50, 0)];
    let report = fold_rows("chr1", &rows, false);
    assert_eq!(plain(&report)[3], line("A", "chr1", 10, 90, true, 80 + 10 + 10, 0));
}

#[test]
fn unnamed_regions_fold_like_any_other_group() {
    let rows = vec![row(".", 0, 5, 0), row(".", 5, 10, 0), row("A", 0, 5, 2)];
    let report = fold_rows("chr1", &rows, false);
    assert_eq!(
        plain(&report),
        vec![
            line(".", "chr1", 0, 5, false, 5, 0),
            line(".", "chr1", 5, 10, false, 5, 0),
            line(".", "chr1", 0, 10, true, 10, 0),
            line("A", "chr1", 0, 5, false, 5, 2),
            line("A", "chr1", 0, 5, true, 5, 2),
        ]
    );
}

#[test]
fn no_rows_give_one_empty_group() {
    let report = fold_rows("chr1", &vec![], true);
    assert_eq!(plain(&report), vec![line("", "chr1", i64::MAX, 0, true, 0, 0)]);
    assert_eq!(depth(&report[0]), 0.0);
}

#[test]
fn region_of_no_length_has_no_finite_depth() {
    let mut engine = CoverageEngine::build(&vec![record("chr1", 30, 30, "point")]).unwrap();
    let report = engine.report(false);
    assert_eq!(
        plain(&report),
        vec![
            line("point", "chr1", 30, 30, false, 0, 0),
            line("point", "chr1", 30, 30, true, 0, 0),
        ]
    );
    assert!(!depth(&report[0]).is_finite());
    assert_eq!(depth(&report[1]), 0.0);
    assert_eq!(engine.add_alignment(&alignment("chr1", 20, 40)), Ok(()));
    let report = engine.report(false);
    assert_eq!(report[0].overlap, 1);
    assert_eq!(report[0].length, 0);
    assert!(!depth(&report[0]).is_finite());
    let legacy = engine.report(true);
    assert_eq!(legacy[0].length, 1);
    assert_eq!(depth(&legacy[0]), 1.0);
}

#[test]
fn report_follows_the_order_of_first_occurrence() {
    let mut engine = CoverageEngine::build(&vec![
        record("chr2", 100, 200, "B"),
        record("chr1", 10, 20, "Z"),
        record("chr2", 5, 50, "A"),
        record("chr1", 10, 20, "A"),
        record("chr2", 1, 3, "B"),
    ])
    .unwrap();
    assert_eq!(engine.add_alignment(&alignment("chr2", 1, 10)), Ok(()));
    let report = engine.report(false);
    assert_eq!(
        plain(&report),
        vec![
            line("A", "chr2", 5, 50, false, 45, 6),
            line("A", "chr2", 5, 50, true, 45, 6),
            line("B", "chr2", 1, 3, false, 2, 3),
            line("B", "chr2", 100, 200, false, 100, 0),
            line("B", "chr2", 1, 200, true, 102, 3),
            line("A", "chr1", 10, 20, false, 10, 0),
            line("A", "chr1", 10, 20, true, 10, 0),
            line("Z", "chr1", 10, 20, false, 10, 0),
            line("Z", "chr1", 10, 20, true, 10, 0),
        ]
    );
}

#[test]
fn report_sorts_equal_bounds_by_overlap() {
    let mut engine = CoverageEngine::build(&vec![
        record("chr1", 10, 20, "A"),
        record("chr1", 10, 20, "A"),
        record("chr1", 10, 15, "A"),
    ])
    .unwrap();
    assert_eq!(engine.add_alignment(&alignment("chr1", 15, 25)), Ok(()));
    let report = engine.report(true);
    assert_eq!(
        plain(&report),
        vec![
            line("A", "chr1", 10, 15, false, 6, 1),
            line("A", "chr1", 10, 20, false, 11, 6),
            line("A", "chr1", 10, 20, false, 11, 6),
            line("A", "chr1", 10, 20, true, 28, 13),
        ]
    );
}

#[test]
fn rows_sort_by_name_then_start_then_end_then_overlap() {
    let rows = vec![
        row("b", 1, 2, 0),
        row("a", 9, 9, 0),
        row("a", 3, 8, 5),
        row("a", 3, 8, 1),
        row("a", 3, 4, 9),
        row("B", 100, 200, 0),
        row("ab", 0, 0, 0),
        row("", 7, 7, 7),
    ];
    let sorted = sort_rows(&rows);
    let keys: Vec<(String, i64, i64, i64)> = sorted
        .iter()
        .map(|row| (row.name.clone(), row.start, row.end, row.overlap_total))
        .collect();
    let mut expected: Vec<(String, i64, i64, i64)> =
        rows.iter().map(|row| (row.name.clone(), row.start, row.end, row.overlap_total)).collect();
    expected.sort();
    assert_eq!(keys, expected);
    assert_eq!(keys[0], ("".to_string(), 7, 7, 7));
    assert_eq!(keys[1], ("B".to_string(), 100, 200, 0));
    assert_eq!(keys[2], ("a".to_string(), 3, 4, 9));
    assert_eq!(keys[3], ("a".to_string(), 3, 8, 1));
    assert_eq!(keys[7], ("b".to_string(), 1, 2, 0));
}

#[test]
fn sorting_agrees_with_the_order_of_strings() {
    let names = ["é", "e", "z", "Z", "zz", "", "日本", "~", "a\u{10000}", "a\u{ffff}", "a"];
    let mut rows = Vec::new();
    let mut seed: u64 = 7;
    for round in 0..300 {
        seed = seed.wrapping_mul(6364136223846793005).wrapping_add(1442695040888963407);
        let name = names[((seed >> 33) % names.len() as u64) as usize];
        rows.push(row(name, ((seed >> 20) % 5) as i64, 10 + (round % 3), ((seed >> 10) % 4) as i64));
    }
    let sorted = sort_rows(&rows);
    let keys: Vec<(String, i64, i64, i64)> = sorted
        .iter()
        .map(|row| (row.name.clone(), row.start, row.end, row.overlap_total))
        .collect();
    let mut expected: Vec<(String, i64, i64, i64)> =
        rows.iter().map(|row| (row.name.clone(), row.start, row.end, row.overlap_total)).collect();
    expected.sort();
    assert_eq!(keys, expected);
}

#[test]
fn sorting_nothing_and_one_row() {
    assert!(sort_rows(&vec![]).is_empty());
    let sorted = sort_rows(&vec![row("a", 1, 2, 3)]);
    assert_eq!(sorted.len(), 1);
    assert_eq!(sorted[0].name, "a");
    assert_eq!(sorted[0].overlap_total, 3);
}

#[test]
fn order_of_two_rows() {
    assert!(row_before_or_equal(&row("a", 5, 6, 7), &row("a", 5, 6, 7)));
    assert!(row_before_or_equal(&row("a", 5, 6, 7), &row("a", 5, 6, 8)));
    assert!(!row_before_or_equal(&row("a", 5, 6, 8), &row("a", 5, 6, 7)));
    assert!(row_before_or_equal(&row("a", 5, 6, 8), &row("a", 5, 7, 0)));
    assert!(row_before_or_equal(&row("a", 5, 9, 8), &row("a", 6, 0, 0)));
    assert!(row_before_or_equal(&row("a", 9, 9, 9), &row("b", 0, 0, 0)));
    assert!(!row_before_or_equal(&row("b", 0, 0, 0), &row("a", 9, 9, 9)));
    assert!(row_before_or_equal(&row("B", 9, 9, 9), &row("a", 0, 0, 0)));
}

#[test]
fn order_of_byte_strings() {
    assert!(bytes_before_or_equal(b"", b""));
    assert!(bytes_before_or_equal(b"", b"a"));
    assert!(!bytes_before_or_equal(b"a", b""));
    assert!(bytes_before_or_equal(b"abc", b"abc"));
    assert!(bytes_before_or_equal(b"ab", b"abc"));
    assert!(!bytes_before_or_equal(b"abc", b"ab"));
    assert!(bytes_before_or_equal(b"abc", b"abd"));
    assert!(!bytes_before_or_equal(b"abd", b"abc"));
    assert!(bytes_before_or_equal(b"a\x7f", b"a\x80"));
    assert!(!bytes_before_or_equal(b"b", b"a\xff"));
}

#[test]
fn group_summary_step_by_step() {
    let idle = ReportGroup::idle();
    assert_eq!(
        idle,
        ReportGroup {
            group_name: String::new(),
            span_start: i64::MAX,
            span_max_end: 0,
            summed_length: 0,
            summed_overlap: 0,
        }
    );
    let first = row("G1", 7, 9, 3);
    let mut group = ReportGroup::open(&first);
    assert_eq!(
        group,
        ReportGroup {
            group_name: "G1".to_string(),
            span_start: 7,
            span_max_end: 0,
            summed_length: 0,
            summed_overlap: 0,
        }
    );
    let single = group.add("chr3", &first, true);
    assert_eq!(plain(&vec![single]), vec![line("G1", "chr3", 7, 9, false, 3, 3)]);
    let single = group.add("chr3", &row("G1", 2, 5, 10), false);
    assert_eq!(plain(&vec![single]), vec![line("G1", "chr3", 2, 5, false, 3, 10)]);
    assert_eq!(
        group,
        ReportGroup {
            group_name: "G1".to_string(),
            span_start: 7,
            span_max_end: 9,
            summed_length: 6,
            summed_overlap: 13,
        }
    );
    assert_eq!(plain(&vec![group.close("chr3")]), vec![line("G1", "chr3", 7, 9, true, 6, 13)]);
    assert_eq!(plain(&vec![idle.close("chr3")]), vec![line("", "chr3", i64::MAX, 0, true, 0, 0)]);
}

#[test]
fn report_of_large_totals_adds_without_loss() {
    let rows = vec![row("G", 0, 1, i64::MAX), row("G", 0, 1, i64::MAX), row("G", 0, 1, i64::MAX)];
    let report = fold_rows("chr1", &rows, false);
    assert_eq!(report[3].overlap, 3 * (i64::MAX as i128));
    assert_eq!(report[3].length, 3);
}

#[test]
fn unnamed_groups_fold_like_named_ones() {
    let unnamed = vec![row(".", 0, 5, 0), row(".", 5, 10, 0), row("B", 7, 9, 4)];
    let named = vec![row("A", 0, 5, 0), row("A", 5, 10, 0), row("B", 7, 9, 4)];
    for legacy_length in [false, true] {
        let one = fold_rows("chr1", &unnamed, legacy_length);
        let other = fold_rows("chr1", &named, legacy_length);
        assert_eq!(one.len(), other.len());
        for (a, b) in one.iter().zip(other.iter()) {
            assert_eq!(a.tag, b.tag);
            assert_eq!((a.start, a.end, a.length, a.overlap), (b.start, b.end, b.length, b.overlap));
            assert_eq!(a.gene == ".", b.gene == "A");
        }
    }
}

#[test]
fn every_gene_of_a_sorted_report_has_one_summary() {
    let rows = vec![
        row("B", 1, 2, 0),
        row("A", 1, 2, 0),
        row("C", 1, 2, 0),
        row("A", 5, 6, 0),
        row("B", 0, 9, 0),
        row("A", 3, 4, 0),
    ];
    let report = fold_rows("chr1", &sort_rows(&rows), false);
    let summaries: Vec<String> = report
        .iter()
        .filter(|line| line.tag == RowTag::WholeGene)
        .map(|line| line.gene.clone())
        .collect();
    assert_eq!(summaries, vec!["A".to_string(), "B".to_string(), "C".to_string()]);
    let singles: Vec<(String, i64)> = report
        .iter()
        .filter(|line| line.tag == RowTag::Amplicon)
        .map(|line| (line.gene.clone(), line.start))
        .collect();
    assert_eq!(
        singles,
        vec![
            ("A".to_string(), 1),
            ("A".to_string(), 3),
            ("A".to_string(), 5),
            ("B".to_string(), 0),
            ("B".to_string(), 1),
            ("C".to_string(), 1),
        ]
    );
}
