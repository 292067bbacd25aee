use wom::bench::{bench_models, golden, miss, sample_docs, RecallReport};
use wom::fusion::ResultKind;
use wom::search::SearchResult;

fn found(kind: ResultKind, path: &str) -> SearchResult {
    SearchResult {
        kind,
        path: path.to_string(),
        score: 0,
        snippet: String::new(),
        dense_rank: None,
        cosine: None,
        lexical_rank: None,
        rerank: None,
        file_count: None,
    }
}

#[test]
fn sample_docs_mixes_lengths() {
    let docs = sample_docs(100);
    assert_eq!(docs.len(), 100);
    let lens: Vec<usize> = docs.iter().map(|d| d.len()).collect();
    let min = *lens.iter().min().unwrap();
    let max = *lens.iter().max().unwrap();
    // A realistic mix, not one uniform length.
    assert!(max > min * 5, "sample is too uniform: {min}..{max}");
}

#[test]
fn sample_docs_handles_small_counts() {
    assert_eq!(sample_docs(0).len(), 0);
    assert_eq!(sample_docs(1).len(), 1);
}

#[test]
fn sample_docs_are_spelled_by_their_place() {
    let docs = sample_docs(10);
    assert_eq!(
        docs[0],
        "projects/esp32_epaper/src/main.cpp\nprojects esp32 epaper src main cpp variant 0"
    );
    assert!(docs[6].ends_with("Social security wages. variant 6"));
    assert!(docs[9].starts_with("Documents/notes/long_9.md\n\nThe quick brown fox"));
    assert_eq!(docs[9].matches("riverbank").count(), 20);
}

#[test]
fn golden_cases_are_well_formed() {
    assert!(!golden().is_empty());
    for c in golden() {
        assert!(!c.query.trim().is_empty());
        assert!(!c.expect_contains.trim().is_empty());
        // The expectation must be lowercase, since matching lowercases both.
        assert_eq!(c.expect_contains, c.expect_contains.to_lowercase());
    }
    assert_eq!(golden().len(), 6);
}

#[test]
fn a_hit_is_a_path_that_contains_the_answer_in_any_case() {
    let case = golden()[1];
    let hits = vec![
        found(ResultKind::File, "/t/other.txt"),
        found(ResultKind::Dir, "/t/BOSNIA_trip"),
    ];
    assert!(miss(&hits, &case).is_none());
}

#[test]
fn a_miss_reports_the_first_three_results() {
    let case = golden()[2];
    let results = vec![
        found(ResultKind::File, "/t/a.txt"),
        found(ResultKind::Dir, "/t/b"),
        found(ResultKind::File, "/t/c.txt"),
        found(ResultKind::File, "/t/d.txt"),
    ];
    assert_eq!(
        miss(&results, &case).unwrap(),
        vec!["/t/a.txt", "directory:/t/b", "/t/c.txt"]
    );
    let mut report = RecallReport::start();
    report.judge(&case, &results);
    report.judge(&golden()[0], &vec![found(ResultKind::Dir, "/t/employment_docs")]);
    assert_eq!(report.hits, 1);
    assert_eq!(report.misses.len(), 1);
    assert_eq!(report.misses[0].query, "sensors monitor");
}

#[test]
fn models_to_measure_default_to_the_configured_one() {
    assert_eq!(
        bench_models(&vec![], "all-MiniLM-L6-v2").unwrap(),
        vec!["all-MiniLM-L6-v2"]
    );
    let e = bench_models(&vec!["all-MiniLM-L6-v2".to_string(), "gpt-9".to_string()], "x").unwrap_err();
    assert!(e.starts_with("unknown model `gpt-9`"));
}

#[test]
fn golden_cases_are_searched_with_both_halves() {
    let mut cfg = wom::config::Config::default();
    cfg.min_similarity = Some(0.25f32.to_bits());
    let r = wom::bench::golden_request(&wom::bench::golden()[0], &cfg, 7);
    assert_eq!(r.text, "employment documents");
    assert!(r.scope.is_empty());
    assert_eq!((r.limit, r.mode), (7, wom::search::Mode::Hybrid));
    assert_eq!(r.min_similarity, 0.25f32.to_bits());
}
