use wom::rerank::{
    capped, effective_reranker, logit_column, lookup, reranker_registry, DEFAULT_RERANKER,
};

/// Scores each document by an exact-substring rule the test controls.
fn mock_scores(hot: &str, docs: &[String]) -> Vec<u32> {
    docs.iter()
        .map(|d| if d.contains(hot) { 10.0f32 } else { -10.0 })
        .map(|s| s.to_bits())
        .collect()
}

#[test]
fn default_reranker_is_registered() {
    assert!(lookup(DEFAULT_RERANKER).is_ok());
}

#[test]
fn unknown_reranker_error_lists_alternatives() {
    let err = lookup("gpt-9-rerank").unwrap_err().to_string();
    assert!(err.contains("ms-marco"), "got: {err}");
}

#[test]
fn rerank_registry_ids_are_unique() {
    let all = reranker_registry();
    let mut ids: Vec<&str> = all.iter().map(|m| m.id).collect();
    ids.sort_unstable();
    let n = ids.len();
    ids.dedup();
    assert_eq!(ids.len(), n, "duplicate reranker id in the registry");
}

#[test]
fn mock_reranker_scores_by_substring() {
    let docs = vec!["a tax form".to_string(), "a cake recipe".to_string()];
    let s = mock_scores("tax", &docs);
    assert!(wom::score::is_greater(s[0], s[1]));
}

#[test]
fn documents_are_capped_by_characters() {
    assert_eq!(capped("short"), "short");
    let long = "\u{00e9}".repeat(700);
    assert_eq!(capped(&long).chars().count(), 600);
}

#[test]
fn the_relevance_logit_is_the_only_column_or_the_second() {
    assert_eq!(logit_column(1), 0);
    assert_eq!(logit_column(2), 1);
}

#[test]
fn the_command_line_beats_the_configuration() {
    assert_eq!(effective_reranker(false, false, &None, "off"), None);
    assert_eq!(effective_reranker(false, true, &None, "off").unwrap(), DEFAULT_RERANKER);
    assert_eq!(effective_reranker(false, false, &None, "x").unwrap(), "x");
    assert_eq!(effective_reranker(false, true, &Some("y".into()), "x").unwrap(), "y");
    assert_eq!(effective_reranker(true, true, &Some("y".into()), "x"), None);
}
