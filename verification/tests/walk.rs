use wom::config::{IgnoreConfig, Profile};
use wom::walk::{
    dedupe_nested, ignore_globs, is_source, mtime_ns, size_limit, Probe, BUILTIN_IGNORES, PROBE_CAP,
};

#[test]
fn builtin_ignores_are_unique() {
    let mut v = BUILTIN_IGNORES.to_vec();
    v.sort_unstable();
    let n = v.len();
    v.dedup();
    assert_eq!(v.len(), n, "duplicate pattern in BUILTIN_IGNORES");
}

#[test]
fn source_detection_is_case_insensitive() {
    assert!(is_source("/a/main.C"));
    assert!(is_source("/a/b.rs"));
    assert!(!is_source("/a/notes.txt"));
    assert!(!is_source("/a/noext"));
}

#[test]
fn large_or_source_heavy_trees_suggest_the_code_profile() {
    let big = Probe {
        files: 30_000,
        truncated: false,
        source_files: 0,
    };
    assert_eq!(big.suggest(), Profile::Code);

    let sourcey = Probe {
        files: 100,
        truncated: false,
        source_files: 80,
    };
    assert_eq!(sourcey.suggest(), Profile::Code);

    let docs = Probe {
        files: 500,
        truncated: false,
        source_files: 10,
    };
    assert_eq!(docs.suggest(), Profile::Content);
}

#[test]
fn truncated_probe_assumes_a_large_tree() {
    let p = Probe {
        files: 50_000,
        truncated: true,
        source_files: 0,
    };
    assert_eq!(p.suggest(), Profile::Code);
}

#[test]
fn empty_probe_has_zero_ratio_and_no_division_by_zero() {
    let p = Probe {
        files: 0,
        truncated: false,
        source_files: 0,
    };
    assert_eq!(p.suggest(), Profile::Content);
}

#[test]
fn six_in_ten_is_not_yet_source_heavy() {
    let probe = |source_files| Probe { files: 20_000, truncated: false, source_files };
    assert_eq!(probe(12_000).suggest(), Profile::Content);
    assert_eq!(probe(12_001).suggest(), Profile::Code);
    let five = |source_files| Probe { files: 5, truncated: false, source_files };
    assert_eq!(five(3).suggest(), Profile::Content);
    assert_eq!(five(4).suggest(), Profile::Code);
}

#[test]
fn a_probe_counts_and_stops_at_its_cap() {
    let mut p = Probe::start();
    assert!(!p.see("/a/x.rs"));
    assert!(!p.see("/a/y.txt"));
    assert_eq!((p.files, p.source_files, p.truncated), (2, 1, false));
    p.files = PROBE_CAP - 1;
    assert!(p.see("/a/z.txt"));
    assert!(p.truncated);
    p.see("/a/late.txt");
    assert_eq!(p.finish().files, PROBE_CAP);
}

#[test]
fn nested_roots_are_dropped() {
    let mut roots = vec![
        "/home/n/projects/sub".to_string(),
        "/home/n/projects".to_string(),
        "/home/n/Documents".to_string(),
    ];
    dedupe_nested(&mut roots);
    assert_eq!(roots, vec!["/home/n/Documents", "/home/n/projects"]);
}

#[test]
fn sibling_with_shared_prefix_is_kept() {
    // `projects-old` starts with the string "projects" but is not nested.
    let mut roots = vec![
        "/home/n/projects".to_string(),
        "/home/n/projects-old".to_string(),
    ];
    dedupe_nested(&mut roots);
    assert_eq!(roots.len(), 2, "sibling directory was wrongly treated as nested");
}

#[test]
fn roots_are_sorted_by_components_and_named_once() {
    let mut roots: Vec<String> =
        ["/b//", "/a-b", "/a/c", "/b", "/a b", "../x", "rel"].map(String::from).to_vec();
    dedupe_nested(&mut roots);
    assert_eq!(roots, vec!["/a/c", "/a b", "/a-b", "/b//", "../x", "rel"]);
}

#[test]
fn dropping_nested_roots_twice_drops_nothing_more() {
    let mut roots: Vec<String> =
        ["/b/x", "/b", "/a/c", "/a/c/", "rel/..", "rel"].map(String::from).to_vec();
    dedupe_nested(&mut roots);
    assert_eq!(roots, vec!["/a/c", "/b", "rel"]);
    let once = roots.clone();
    dedupe_nested(&mut roots);
    assert_eq!(roots, once);
}

#[test]
fn unignored_patterns_are_left_out_and_extra_ones_follow() {
    let mut ic = IgnoreConfig::default();
    ic.unignore = vec!["vendor/".to_string(), "no-such-pattern".to_string()];
    ic.extra = vec!["*.bak".to_string()];
    let g = ignore_globs(&ic);
    assert_eq!(g.len(), BUILTIN_IGNORES.len() - 1 + 1);
    assert_eq!(g[0], "!.git/");
    assert!(!g.contains(&"!vendor/".to_string()));
    assert_eq!(g.last().unwrap(), "!*.bak");
}

#[test]
fn limits_and_times_saturate() {
    assert_eq!(size_limit(20), Some(20 * 1024 * 1024));
    assert_eq!(size_limit(u64::MAX), None);
    assert_eq!(mtime_ns(1, 5), 1_000_000_005);
    assert_eq!(mtime_ns(i64::MAX, 0), i64::MAX);
    assert_eq!(mtime_ns(i64::MIN, -1), i64::MIN);
    assert_eq!(mtime_ns(-2, 7), -1_999_999_993);
}
