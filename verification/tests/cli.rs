use wom::cli::{insert_implicit_search, looks_like_path, split_scope_and_query, Query, SearchArgs};
use wom::config::Config;
use wom::search::Mode;

fn strings(words: &[&str]) -> Vec<String> {
    words.iter().map(|w| w.to_string()).collect()
}

fn args(words: &[&str]) -> SearchArgs {
    SearchArgs {
        words: strings(words),
        scope: Vec::new(),
        limit: None,
        lexical: false,
        dense: false,
        no_tui: false,
        scores: false,
        rerank: false,
        rerank_model: None,
        no_rerank: false,
        min_similarity: None,
    }
}

#[test]
fn implicit_search_is_inserted_for_bare_words() {
    let got = insert_implicit_search(vec!["wom".into(), "employment".into(), "docs".into()]);
    assert_eq!(got, vec!["wom", "search", "employment", "docs"]);
}

#[test]
fn explicit_subcommands_are_left_alone() {
    for sub in ["init", "index", "status", "model", "bench"] {
        let got = insert_implicit_search(vec!["wom".into(), sub.into()]);
        assert_eq!(got, vec!["wom", sub], "subcommand {sub} was rewritten");
    }
}

#[test]
fn global_flags_are_left_alone() {
    for f in ["--version", "-V", "--help", "-h"] {
        assert_eq!(
            insert_implicit_search(vec!["wom".into(), f.into()]),
            vec!["wom", f]
        );
    }
    assert_eq!(insert_implicit_search(vec!["wom".into()]), vec!["wom"]);
}

#[test]
fn search_flags_get_the_implicit_search_too() {
    assert_eq!(
        insert_implicit_search(strings(&["wom", "--lexical", "bosnia"])),
        vec!["wom", "search", "--lexical", "bosnia"]
    );
}

#[test]
fn path_shaped_but_nonexistent_stays_in_the_query() {
    let words = vec!["a/b/definitely-not-here".to_string(), "notes".into()];
    let (scope, text) =
        split_scope_and_query(&words, &vec![false, false], &None, "/work").unwrap();
    assert!(scope.is_empty());
    assert_eq!(text, "a/b/definitely-not-here notes");
}

#[test]
fn query_with_no_words_is_empty_not_an_error() {
    let (scope, text) = split_scope_and_query(&vec![], &vec![], &None, "/work").unwrap();
    assert!(scope.is_empty());
    assert_eq!(text, "");
}

#[test]
fn leading_existing_directory_becomes_scope() {
    let words = strings(&["/tmp/", "sensors", "monitor"]);
    let (scope, text) =
        split_scope_and_query(&words, &vec![true, false, false], &None, "/work").unwrap();
    assert_eq!(scope.len(), 1, "temp dir should have been taken as scope");
    assert_eq!(scope[0], "/tmp");
    assert_eq!(text, "sensors monitor");
}

#[test]
fn a_bare_word_is_never_a_scope_even_if_a_matching_dir_exists() {
    let words = strings(&["wom-test-scope-guard"]);
    let (scope, text) = split_scope_and_query(&words, &vec![true], &None, "/tmp").unwrap();
    assert!(scope.is_empty(), "bare word must not be treated as a scope");
    assert_eq!(text, "wom-test-scope-guard");
}

#[test]
fn a_scope_expands_and_stops_at_the_first_word_that_is_none() {
    let home = Some("/home/n".to_string());
    let words = strings(&["~/projects/", "./notes", "esp32", "/etc"]);
    let (scope, text) =
        split_scope_and_query(&words, &vec![true, true, true, true], &home, "/work").unwrap();
    assert_eq!(scope, vec!["/home/n/projects", "/work/notes"]);
    assert_eq!(text, "esp32 /etc");
}

#[test]
fn a_tilde_without_a_home_is_an_error() {
    let words = strings(&["~/projects", "esp32"]);
    let e = match split_scope_and_query(&words, &vec![false, false], &None, "/work") {
        Ok(_) => panic!("expected an error"),
        Err(e) => e,
    };
    assert_eq!(e.message(), "$HOME is not set, cannot expand `~`");
}

#[test]
fn paths_are_told_by_their_shape() {
    for s in ["a/b", "/a", "~", "~/x", ".", "..", "./x", "~other"] {
        assert!(looks_like_path(s), "{s}");
    }
    for s in ["", "bosnia", "a.b", "x~"] {
        assert!(!looks_like_path(s), "{s}");
    }
}

#[test]
fn directories_of_the_flag_follow_the_leading_ones() {
    let mut a = args(&["/data", "tax", "forms"]);
    a.scope = strings(&["~/Documents", "sub"]);
    let q = a
        .to_query(&vec![true, false, false], &Some("/home/n".to_string()), "/work")
        .unwrap();
    assert_eq!(q.scope, vec!["/data", "/home/n/Documents", "/work/sub"]);
    assert_eq!(q.text, "tax forms");
    a.scope = strings(&["~"]);
    assert!(a.to_query(&vec![true, false, false], &None, "/work").is_err());
}

#[test]
fn what_the_command_line_leaves_open_the_configuration_decides() {
    let cfg = Config::default();
    let mut a = args(&["tax"]);
    let q = Query { scope: strings(&["/d"]), text: "tax".to_string() };
    let r = a.to_request(q.clone(), &cfg);
    assert_eq!(r.limit, cfg.limit);
    assert_eq!(r.mode, Mode::Hybrid);
    assert_eq!(r.min_similarity, cfg.resolved_min_similarity());
    assert_eq!(r.scope, vec!["/d"]);
    assert_eq!(r.text, "tax");
    a.limit = Some(3);
    a.dense = true;
    a.min_similarity = Some(0.25f32.to_bits());
    let r = a.to_request(q.clone(), &cfg);
    assert_eq!((r.limit, r.mode), (3, Mode::Dense));
    assert_eq!(f32::from_bits(r.min_similarity), 0.25);
    a.lexical = true;
    assert_eq!(a.to_request(q, &cfg).mode, Mode::Lexical);
}

#[test]
fn a_lexical_search_loads_no_reranker() {
    let mut cfg = Config::default();
    let mut a = args(&["tax"]);
    assert_eq!(a.reranker(&cfg), None);
    a.rerank = true;
    assert_eq!(a.reranker(&cfg).unwrap(), wom::rerank::DEFAULT_RERANKER);
    cfg.reranker = "jina-reranker-v2-base-multilingual-int8".to_string();
    assert_eq!(a.reranker(&cfg).unwrap(), "jina-reranker-v2-base-multilingual-int8");
    a.rerank_model = Some("other".to_string());
    assert_eq!(a.reranker(&cfg).unwrap(), "other");
    a.lexical = true;
    assert_eq!(a.reranker(&cfg), None);
    a.lexical = false;
    a.no_rerank = true;
    assert_eq!(a.reranker(&cfg), None);
}
