use seq2c_rs::engine::{CatalogError, CatalogFault, CoverageEngine, RegionRecord};

fn record(chromosome: &str, start: u64, end: u64, name: &str) -> RegionRecord {
    RegionRecord {
        chromosome: chromosome.to_string(),
        start,
        end,
        name: Some(name.to_string()),
    }
}

fn names(engine: &CoverageEngine) -> Vec<String> {
    (0..engine.chromosome_count()).map(|slot| engine.chromosome(slot).name().clone()).collect()
}

#[test]
fn chromosomes_keep_the_order_of_first_occurrence() {
    let engine = CoverageEngine::build(&vec![
        record("chr2", 100, 200, "B"),
        record("chr1", 10, 20, "A"),
        record("chr2", 5, 50, "C"),
    ])
    .unwrap();
    assert_eq!(names(&engine), vec!["chr2".to_string(), "chr1".to_string()]);
    let chr2 = engine.chromosome(0);
    assert_eq!(chr2.len(), 2);
    assert_eq!(chr2.region(0).name, "B");
    assert_eq!(chr2.region(1).name, "C");
    assert_eq!(chr2.region(1).start, 5);
    assert_eq!(chr2.region(1).end, 50);
    let chr1 = engine.chromosome(1);
    assert_eq!(chr1.len(), 1);
    assert_eq!(chr1.region(0).name, "A");
}

#[test]
fn repeated_chromosomes_collapse_wherever_they_stand() {
    let engine = CoverageEngine::build(&vec![
        record("a", 0, 1, "x"),
        record("b", 0, 1, "x"),
        record("a", 0, 1, "x"),
        record("c", 0, 1, "x"),
        record("b", 0, 1, "x"),
        record("a", 0, 1, "x"),
    ])
    .unwrap();
    assert_eq!(names(&engine), vec!["a".to_string(), "b".to_string(), "c".to_string()]);
    assert_eq!(engine.chromosome(0).len(), 3);
    assert_eq!(engine.chromosome(1).len(), 2);
    assert_eq!(engine.chromosome(2).len(), 1);
}

#[test]
fn empty_catalog() {
    let engine = CoverageEngine::build(&vec![]).unwrap();
    assert_eq!(engine.chromosome_count(), 0);
    assert_eq!(engine.find("chr1"), None);
    assert!(engine.report(true).is_empty());
}

#[test]
fn chromosomes_are_found_by_name() {
    let engine = CoverageEngine::build(&vec![
        record("chr2", 100, 200, "B"),
        record("chr1", 10, 20, "A"),
        record("chr10", 10, 20, "A"),
    ])
    .unwrap();
    assert_eq!(engine.find("chr2"), Some(0));
    assert_eq!(engine.find("chr1"), Some(1));
    assert_eq!(engine.find("chr10"), Some(2));
    assert_eq!(engine.find("chr"), None);
    assert_eq!(engine.find(""), None);
}

#[test]
fn totals_start_at_zero() {
    let engine =
        CoverageEngine::build(&vec![record("chr1", 10, 20, "A"), record("chr1", 0, 5, "B")])
            .unwrap();
    assert_eq!(engine.chromosome(0).overlap_total(0), 0);
    assert_eq!(engine.chromosome(0).overlap_total(1), 0);
}

#[test]
fn record_without_name_is_refused() {
    let outcome = CoverageEngine::build(&vec![
        record("chr1", 10, 20, "A"),
        RegionRecord { chromosome: "chr1".to_string(), start: 30, end: 40, name: None },
        RegionRecord { chromosome: "chr1".to_string(), start: 50, end: 60, name: None },
    ]);
    assert_eq!(
        outcome.err(),
        Some(CatalogError { record: 1, fault: CatalogFault::MissingName })
    );
}

#[test]
fn record_that_ends_before_it_starts_is_refused() {
    let outcome = CoverageEngine::build(&vec![record("chr1", 21, 20, "A")]);
    assert_eq!(
        outcome.err(),
        Some(CatalogError { record: 0, fault: CatalogFault::InvertedBounds })
    );
}

#[test]
fn record_beyond_the_last_coordinate_is_refused() {
    let outcome = CoverageEngine::build(&vec![
        record("chr1", 0, 2147483646, "fits"),
        record("chr1", 0, 2147483647, "A"),
    ]);
    assert_eq!(
        outcome.err(),
        Some(CatalogError { record: 1, fault: CatalogFault::CoordinateTooLarge })
    );
    let outcome = CoverageEngine::build(&vec![record("chr1", u64::MAX, u64::MAX, "A")]);
    assert_eq!(
        outcome.err(),
        Some(CatalogError { record: 0, fault: CatalogFault::CoordinateTooLarge })
    );
}

#[test]
fn first_fault_of_a_record_is_reported() {
    let outcome = CoverageEngine::build(&vec![RegionRecord {
        chromosome: "chr1".to_string(),
        start: 5000000000,
        end: 4000000000,
        name: None,
    }]);
    assert_eq!(
        outcome.err(),
        Some(CatalogError { record: 0, fault: CatalogFault::MissingName })
    );
    let outcome = CoverageEngine::build(&vec![record("chr1", 5000000000, 4000000000, "A")]);
    assert_eq!(
        outcome.err(),
        Some(CatalogError { record: 0, fault: CatalogFault::InvertedBounds })
    );
}

#[test]
fn region_of_no_length_is_loaded() {
    let engine = CoverageEngine::build(&vec![record("chr1", 0, 0, "empty")]).unwrap();
    assert_eq!(engine.chromosome(0).len(), 1);
    assert_eq!(engine.chromosome(0).region(0).start, 0);
    assert_eq!(engine.chromosome(0).region(0).end, 0);
}
