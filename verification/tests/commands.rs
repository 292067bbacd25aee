use wom::cli::IndexArgs;
use wom::commands::{
    accepts, age_secs, coverage_line, discards_index, dry_run_report, elide, forced_profile,
    heeds_schedule, holds_against_index, init_refusal, is_up_to_date, model_marker, model_note, name_of_refresh, propose, refresh_step, root_refusal,
    scan_report, switch_model, up_to_date, vector_count, vectors_remedy, Coverage, RefreshStep,
};
use wom::config::{Config, Profile, Refresh, Root};
use wom::index::{Due, ScanStats};
use wom::walk::Probe;

#[test]
fn elide_keeps_the_tail_and_respects_the_limit() {
    let out = elide("/home/nolan/projects/very/deep/path/file.txt", 20);
    assert_eq!(out.chars().count(), 20);
    assert!(out.starts_with("..."));
    assert!(out.ends_with("file.txt"));
    assert_eq!(elide("/short", 20), "/short");
}

#[test]
fn elide_handles_multibyte_without_panicking() {
    // Char-based slicing, not byte-based: this would panic on a byte split.
    let out = elide("/home/nolan/Документы/файл-с-длинным-именем.txt", 20);
    assert_eq!(out.chars().count(), 20);
}

#[test]
fn age_is_never_negative_for_a_future_timestamp() {
    assert_eq!(age_secs(i64::MAX / 2, 1_700_000_000), 0);
    assert_eq!(age_secs(100, 160), 60);
}

#[test]
fn only_a_yes_is_a_yes() {
    for s in ["y", "Y\n", " yes ", "Yes"] {
        assert!(accepts(s), "{s:?}");
    }
    for s in ["", "n", "YES", "yep"] {
        assert!(!accepts(s), "{s:?}");
    }
}

#[test]
fn an_existing_configuration_is_kept() {
    assert_eq!(
        init_refusal("/c/config.toml", true, false).unwrap(),
        "config already exists at /c/config.toml. Pass --force to overwrite it, or edit it directly."
    );
    assert!(init_refusal("/c", true, true).is_none());
    assert!(init_refusal("/c", false, false).is_none());
}

#[test]
fn forced_profiles_must_exist() {
    assert_eq!(forced_profile(&None), Ok(None));
    assert_eq!(forced_profile(&Some("name-only".into())), Ok(Some(Profile::NameOnly)));
    assert_eq!(forced_profile(&Some("x".into())), Err("unknown profile `x`".to_string()));
}

#[test]
fn empty_candidates_are_left_out_of_the_proposal() {
    let dirs: Vec<String> = ["/a", "/b", "/c"].map(String::from).to_vec();
    let probe = |files, truncated, source_files| Probe { files, truncated, source_files };
    let probes = vec![probe(10, false, 9), probe(0, true, 0), probe(60_000, true, 0)];
    let p = propose(&dirs, &probes, None).unwrap();
    assert_eq!(p.roots.len(), 2);
    assert_eq!((p.roots[0].path.as_str(), p.roots[0].profile), ("/a", Profile::Code));
    assert_eq!(p.counts, vec!["10", "60000+"]);
    assert_eq!(p.total_files, 60_010);
    assert!(p.truncated);
    let p = propose(&dirs, &probes, Some(Profile::Content)).unwrap();
    assert_eq!(p.roots[1].profile, Profile::Content);
    let none = vec![probe(0, false, 0); 3];
    assert_eq!(
        propose(&dirs, &none, None).unwrap_err(),
        "every candidate directory came back empty after ignore rules"
    );
    assert!(propose(&vec![], &vec![], None).unwrap_err().starts_with("no directories to index"));
}

fn index_args() -> IndexArgs {
    IndexArgs { now: false, force: false, rebuild: false, dry_run: false, root: None, no_embed: false }
}

#[test]
fn a_scan_asked_for_in_words_ignores_the_schedule() {
    assert!(heeds_schedule(&index_args()));
    assert!(!heeds_schedule(&IndexArgs { now: true, ..index_args() }));
    assert!(is_up_to_date(&index_args(), Due::No));
    assert!(!is_up_to_date(&index_args(), Due::Elapsed));
    assert!(!is_up_to_date(&index_args(), Due::Never));
    assert!(!is_up_to_date(&IndexArgs { now: true, ..index_args() }, Due::No));
    assert!(!is_up_to_date(&IndexArgs { force: true, ..index_args() }, Due::No));
    assert!(!is_up_to_date(&IndexArgs { rebuild: true, ..index_args() }, Due::No));
    assert!(!is_up_to_date(&IndexArgs { dry_run: true, ..index_args() }, Due::No));
}

#[test]
fn the_schedule_is_named() {
    assert_eq!(name_of_refresh(Refresh::EveryRun), format!("{:?}", Refresh::EveryRun));
    assert_eq!(
        up_to_date(&Some("2 hours".to_string()), Refresh::Daily),
        "Index is up to date (scanned 2 hours ago) per the `Daily` schedule. Pass --now to scan anyway."
    );
    assert_eq!(
        up_to_date(&None, Refresh::Weekly),
        "Index is up to date per the `Weekly` schedule. Pass --now to scan anyway."
    );
}

#[test]
fn only_configured_roots_can_be_scanned_alone() {
    let roots = vec![Root { path: "/a".to_string(), profile: Profile::Code }];
    assert!(root_refusal(&roots, "/a/").is_none());
    assert_eq!(
        root_refusal(&roots, "/b").unwrap(),
        "/b is not a configured root. `wom status` lists them."
    );
}

#[test]
fn reports_say_what_a_scan_did() {
    let mut s = ScanStats { seen: 9, added: 1, updated: 2, unchanged: 6, ..ScanStats::default() };
    assert_eq!(
        dry_run_report(&s),
        "dry run: 9 files would be indexed (1 new, 2 changed, 6 unchanged)"
    );
    s.embedded = 3;
    s.dirs = 4;
    assert_eq!(
        scan_report(&s, "5 seconds"),
        vec![
            "indexed 9 files in 5 seconds (1 new, 2 changed, 6 unchanged, 3 embedded)",
            "4 directories",
        ]
    );
    s.skipped = 7;
    s.deleted_dirs = 1;
    assert_eq!(
        &scan_report(&s, "x")[2..],
        &[
            "7 paths skipped as unreadable (permissions, or removed mid-scan)",
            "removed 0 files and 1 directories that are gone from disk",
        ]
    );
}

#[test]
fn queries_refresh_a_stale_index_behind_them() {
    assert_eq!(refresh_step(Due::No, false), RefreshStep::Nothing);
    assert_eq!(refresh_step(Due::Never, false), RefreshStep::SayEmpty);
    assert_eq!(refresh_step(Due::Elapsed, true), RefreshStep::SayRunning);
    assert_eq!(refresh_step(Due::Elapsed, false), RefreshStep::Start);
}

#[test]
fn vector_stores_are_counted() {
    assert_eq!(vector_count(false, None), "none");
    assert_eq!(vector_count(true, Some(12)), "12");
    assert_eq!(vector_count(true, None), "incompatible");
    assert!(vectors_remedy(false, None).unwrap().contains("no vector index"));
    assert!(vectors_remedy(true, Some(0)).unwrap().contains("interrupted"));
    assert!(vectors_remedy(true, Some(1)).is_none());
    assert!(vectors_remedy(true, None).is_none());
}

#[test]
fn models_are_marked_and_switched() {
    let indexed = Some("b".to_string());
    assert_eq!(model_marker("a", "a", &indexed), "*");
    assert_eq!(model_marker("b", "a", &indexed), "i");
    assert_eq!(model_marker("c", "a", &indexed), " ");
    assert!(model_note("a", "a").is_none());
    assert!(model_note("-", "a").is_none());
    assert_eq!(
        model_note("a", "b").unwrap(),
        "(config says b; run `wom index --rebuild` to switch)"
    );
    let mut cfg = Config::default();
    assert!(switch_model(&mut cfg, "gpt-9").is_err());
    assert_eq!(
        switch_model(&mut cfg, "all-MiniLM-L6-v2").unwrap().unwrap(),
        wom::embed::DEFAULT_MODEL
    );
    assert_eq!(cfg.model, "all-MiniLM-L6-v2");
    assert_eq!(switch_model(&mut cfg, "all-MiniLM-L6-v2"), Ok(None));
}

#[test]
fn coverage_is_listed() {
    let c = vec![
        Coverage { kind: "text".to_string(), files: 12 },
        Coverage { kind: "name-only".to_string(), files: 3 },
    ];
    assert_eq!(coverage_line(&c), "12 text, 3 name-only");
    assert_eq!(coverage_line(&vec![]), "");
}

#[test]
fn a_dry_run_discards_nothing() {
    let rebuild = IndexArgs { rebuild: true, ..index_args() };
    assert!(discards_index(&rebuild));
    assert!(!discards_index(&IndexArgs { dry_run: true, ..rebuild.clone() }));
    assert!(!discards_index(&index_args()));
    // What would be discarded counts for nothing.
    assert!(!holds_against_index(&rebuild, true));
    assert!(holds_against_index(&index_args(), true));
    assert!(!holds_against_index(&index_args(), false));
}
