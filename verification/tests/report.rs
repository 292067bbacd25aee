use wom::bench::{Missed, RecallReport};
use wom::commands::{default_candidate_roots, index_refusal, scan_options, Coverage, Proposal};
use wom::cli::IndexArgs;
use wom::config::{Profile, Refresh, Root};
use wom::embed::lookup;
use wom::fusion::ResultKind;
use wom::index::links;
use wom::report::{
    bench_heading, bench_row, cost_report, gap_notice, model_status, model_table, opens_browser,
    plain_line, projection_line, proposal_table, recall_report, refresh_status, reranker_table,
    root_status, search_refusal, total_status, vector_status, verdict, Measured, Projection,
    ScoreTexts, StoreState, Sustained, Totals,
};
use wom::search::SearchResult;
use wom::text::{to_left, to_right};

fn s(x: &str) -> String {
    x.to_string()
}

#[test]
fn columns_are_padded_by_characters() {
    for t in ["", "a", "файл", "longer than the column"] {
        assert_eq!(to_left(t, 7), format!("{t:<7}"));
        assert_eq!(to_right(t, 7), format!("{t:>7}"));
    }
}

fn proposal() -> Proposal {
    Proposal {
        roots: vec![
            Root { path: s("/home/n/Documents"), profile: Profile::Content },
            Root { path: s("/home/n/a/very/long/path/that/does/not/fit/the/column"), profile: Profile::Code },
        ],
        counts: vec![s("12"), s("60000+")],
        total_files: 60012,
        truncated: true,
    }
}

#[test]
fn proposed_roots_are_tabulated() {
    let t = proposal_table(&proposal());
    assert_eq!(t[0], format!("{:<44} {:>10}  {}", "DIRECTORY", "FILES", "PROFILE"));
    assert_eq!(t[1], format!("{:<44} {:>10}  {}", "/home/n/Documents", 12, "content"));
    assert!(t[2].starts_with("...") && t[2].ends_with("    60000+  code"), "got {:?}", t[2]);
    assert_eq!(t.len(), 3);
}

#[test]
fn the_cost_says_where_its_rate_comes_from() {
    let m = lookup("bge-small-en-v1.5-int8").unwrap();
    let mut p = proposal();
    let c = cost_report(&p, &m, "17 minutes", "60", false);
    assert_eq!(c[0], "60012+ files, model bge-small-en-v1.5-int8 (33 MB download).");
    assert_eq!(
        c[1],
        "First index will take roughly 17 minutes at 60 docs/sec (rough estimate; `wom bench` measures it properly)."
    );
    assert_eq!(c[2], "Later runs only process what changed.");
    assert_eq!(c[3], "Note: at least one directory hit the 60000 file probe cap, so the");
    p.truncated = false;
    let c = cost_report(&p, &m, "17 minutes", "60", true);
    assert!(c[0].starts_with("60012 files"));
    assert!(c[1].ends_with("(measured on this machine)."));
    assert_eq!(c.len(), 3);
}

#[test]
fn plain_lines_carry_scores_on_request() {
    let r = SearchResult {
        kind: ResultKind::Dir,
        path: s("/h/employment_docs"),
        score: 0,
        snippet: String::new(),
        dense_rank: None,
        cosine: None,
        lexical_rank: None,
        rerank: None,
        file_count: None,
    };
    assert_eq!(plain_line(&r, &None), "directory:/h/employment_docs");
    let t = ScoreTexts { fused: s("0.0312"), cosine: None, rerank: None };
    assert_eq!(plain_line(&r, &Some(t)), "0.0312  cos=-    \tdirectory:/h/employment_docs");
    let t = ScoreTexts { fused: s("0.0312"), cosine: Some(s("0.812")), rerank: Some(s("+1.25")) };
    assert_eq!(plain_line(&r, &Some(t)), "0.0312  cos=0.812 rr=+1.25\tdirectory:/h/employment_docs");
}

#[test]
fn a_query_without_words_or_index_is_refused() {
    assert!(search_refusal("  ", true).unwrap().contains("nothing to search for"));
    assert!(search_refusal("tax", false).unwrap().contains("wom init"));
    assert!(search_refusal("tax", true).is_none());
    assert_eq!(
        gap_notice("no vector index found"),
        "no vector index found; results are full-text only. Run `wom index --now`."
    );
    assert!(opens_browser(true, true, false));
    assert!(!opens_browser(false, true, false));
    assert!(!opens_browser(true, false, false));
    assert!(!opens_browser(true, true, true));
}

#[test]
fn status_says_what_is_indexed() {
    assert_eq!(model_status(&Some(s("m")), Some(384), "m"), vec!["model    m (384-dim)"]);
    assert_eq!(model_status(&None, None, "m"), vec!["model    -"]);
    assert_eq!(
        model_status(&Some(s("old")), None, "m"),
        vec!["model    old", "         (config says m; run `wom index --rebuild` to switch)"]
    );
    assert_eq!(refresh_status(Refresh::Daily), "refresh  Daily");
    let full = StoreState { present: true, rows: Some(7) };
    let none = StoreState { present: false, rows: None };
    let empty = StoreState { present: true, rows: Some(0) };
    let odd = StoreState { present: true, rows: None };
    let m = Some(s("m"));
    assert_eq!(vector_status(&m, Some(3), full, odd), vec!["vectors  7 file, incompatible dir"]);
    assert_eq!(vector_status(&m, None, full, full), vec!["vectors  -"]);
    assert_eq!(vector_status(&None, Some(3), full, full), vec!["vectors  -"]);
    assert!(vector_status(&m, Some(3), none, full)[1].contains("no vector index"));
    assert!(vector_status(&m, Some(3), empty, full)[1].contains("interrupted"));
    let t = Totals {
        files: 3,
        embedded: 2,
        dirs: 1,
        coverage: vec![
            Coverage { kind: s("text"), files: 2 },
            Coverage { kind: s("name-only"), files: 1 },
        ],
        scanned: Some(s("2 hours")),
    };
    assert_eq!(
        total_status(&t),
        vec![
            "files    3 indexed, 2 embedded",
            "dirs     1",
            "text     2 text, 1 name-only",
            "scanned  2 hours ago",
        ]
    );
    let t = Totals { files: 0, embedded: 0, dirs: 0, coverage: vec![], scanned: None };
    assert_eq!(total_status(&t)[2], "scanned  never");
    assert_eq!(verdict(true), "consistent");
    assert!(verdict(false).contains("INCONSISTENT"));
}

#[test]
fn status_marks_missing_roots() {
    assert_eq!(root_status(&vec![], &vec![]), vec!["roots", "  (none configured)"]);
    let roots = vec![
        Root { path: s("/a"), profile: Profile::NameOnly },
        Root { path: s("/b"), profile: Profile::Code },
    ];
    assert_eq!(
        root_status(&roots, &vec![true, false]),
        vec!["roots", "  name-only  /a", "  code       /b  [MISSING]"]
    );
}

#[test]
fn the_model_list_marks_what_is_in_use() {
    let t = model_table("bge-base-en-v1.5", &Some(s("all-MiniLM-L6-v2")));
    assert_eq!(t[0], format!("{:<26} {:>5} {:>7} {:>9}  {}", "MODEL", "DIM", "SIZE", "POOLING", "NOTE"));
    let line = |id: &str| t.iter().find(|l| l[1..].starts_with(&format!("{id} "))).unwrap().clone();
    assert!(line("bge-base-en-v1.5").starts_with('*'));
    assert!(line("all-MiniLM-L6-v2").starts_with('i'));
    let m = lookup("all-MiniLM-L6-v2").unwrap();
    assert_eq!(
        line("all-MiniLM-L6-v2"),
        format!("i{:<25} {:>5} {:>6}M {:>9}  {}", m.id, m.dim, m.approx_mb, "mean", m.note)
    );
    assert!(line("bge-small-en-v1.5").starts_with(' '));
    let r = reranker_table("off");
    assert_eq!(r[0], format!("{:<42} {:>7}  {}", "RERANKER", "SIZE", "NOTE"));
    assert!(r[1].starts_with(" ms-marco"));
    assert!(reranker_table("ms-marco-MiniLM-L-6-v2-int8")[1].starts_with("*ms-marco"));
}

#[test]
fn measurements_are_tabulated() {
    let m = Measured {
        id: s("m"),
        dim: 384,
        load: s("0.3"),
        docs_per_sec: s("64"),
        query: s("15.0"),
        margin: s("0.340"),
        cosines: s("0.80/0.46"),
    };
    assert_eq!(
        bench_heading(),
        format!(
            "{:<26} {:>5} {:>7} {:>10} {:>9} {:>8} {:>8}",
            "MODEL", "DIM", "LOAD", "DOCS/SEC", "QUERY", "MARGIN", "COSINES"
        )
    );
    assert_eq!(
        bench_row(&m),
        format!(
            "{:<26} {:>5} {:>6.1}s {:>10.0} {:>7.1}ms {:>8.3} {:>8}",
            "m", 384, 0.3f64, 64.0f64, 15.0f64, 0.34f64, "0.80/0.46"
        )
    );
}

#[test]
fn projections_prefer_a_sustained_rate() {
    let p = Projection {
        sustained: Some(Sustained { rate: s("59"), duration: s("77 minutes") }),
        inference: s("37 minutes"),
    };
    assert_eq!(
        projection_line("m", "m", &p),
        format!("  {:<26} 77 minutes (at the 59 docs/sec this machine actually sustained)", "m")
    );
    let other = format!("  {:<26} 37 minutes (inference only; extraction and writes will add to this)", "m");
    assert_eq!(projection_line("m", "x", &p), other);
    assert_eq!(projection_line("m", "m", &Projection { sustained: None, inference: s("37 minutes") }), other);
}

#[test]
fn recall_lists_its_misses() {
    let r = RecallReport {
        hits: 5,
        misses: vec![Missed { query: "tax forms", top: vec![s("/a"), s("directory:/b")] }],
    };
    assert_eq!(
        recall_report(&r, "21", "52"),
        vec![
            "  5/6 golden queries found their expected answer",
            "  latency p50 21ms, p95 52ms",
            "  MISS \"tax forms\"",
            "       got /a",
            "       got directory:/b",
        ]
    );
}

#[test]
fn candidates_are_desktop_directories_then_conventional_ones() {
    let c = default_candidate_roots(vec![s("/home/n/Documents")], &Some(s("/home/n")));
    assert_eq!(c.len(), 7);
    assert_eq!((c[0].as_str(), c[1].as_str()), ("/home/n/Documents", "/home/n/projects"));
    assert_eq!(c[6], "/home/n/notes");
    assert!(default_candidate_roots(vec![s("/home/n/Documents")], &None).is_empty());
}

#[test]
fn a_scan_without_vectors_needs_no_model() {
    let args = IndexArgs { now: true, force: true, rebuild: false, dry_run: false, root: None, no_embed: true };
    let o = scan_options(&args, Some(s("/a")));
    assert!(o.force && !o.dry_run && !o.embed && o.progress);
    assert_eq!(o.only_root.as_deref(), Some("/a"));
    assert!(scan_options(&IndexArgs { no_embed: false, ..args.clone() }, None).embed);
    assert!(!scan_options(&IndexArgs { no_embed: false, dry_run: true, ..args }, None).embed);
    assert!(index_refusal(&vec![]).unwrap().contains("wom init"));
    assert!(index_refusal(&vec![Root { path: s("/a"), profile: Profile::Code }]).is_none());
}

#[test]
fn rows_are_linked_to_the_directory_that_holds_them() {
    let rows = vec![(1, s("/a/b/c.txt")), (2, s("/a/x.txt")), (3, s("/z/y.txt")), (4, s("/"))];
    let id = |d: String| match d.as_str() {
        "/a/b" => Some(10),
        "/a" => Some(11),
        _ => None,
    };
    assert_eq!(links(&rows, &id), vec![(1, 10), (2, 11)]);
}
