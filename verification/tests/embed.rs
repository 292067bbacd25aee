use wom::config::Device;
use wom::embed::{
    lookup, query_passages, query_text, registry, without_gpu, Pooling, BGE_QUERY_PREFIX, DEFAULT_MICRO_BATCH,
    DEFAULT_MODEL,
};

#[test]
fn default_model_is_registered() {
    assert!(lookup(DEFAULT_MODEL).is_ok());
}

#[test]
fn unknown_model_error_lists_alternatives() {
    let err = lookup("gpt-9").unwrap_err().to_string();
    assert!(err.contains("bge-small-en-v1.5"), "got: {err}");
}

#[test]
fn all_bge_models_use_cls_pooling_and_the_query_prefix() {
    for m in registry().iter().filter(|m| m.id.starts_with("bge-")) {
        assert_eq!(m.pooling, Pooling::Cls, "{} pooling", m.id);
        assert_eq!(m.query_prefix, BGE_QUERY_PREFIX, "{} prefix", m.id);
    }
}

#[test]
fn mxbai_uses_cls_pooling_and_the_bge_prefix() {
    for m in registry().iter().filter(|m| m.id.starts_with("mxbai-")) {
        assert_eq!(m.pooling, Pooling::Cls, "{} pooling", m.id);
        assert_eq!(m.query_prefix, BGE_QUERY_PREFIX, "{} prefix", m.id);
    }
}

#[test]
fn gte_uses_cls_pooling_and_no_prefix() {
    for m in registry().iter().filter(|m| m.id.starts_with("gte-")) {
        assert_eq!(m.pooling, Pooling::Cls, "{} pooling", m.id);
        assert!(m.query_prefix.is_empty(), "{} prefix", m.id);
    }
}

#[test]
fn large_fp32_models_use_a_smaller_micro_batch() {
    // A wide fp32 model at the default batch size overruns the memory of a small machine.
    for m in registry().iter().filter(|m| m.dim >= 1024 && m.approx_mb > 1000) {
        assert!(
            m.micro_batch < DEFAULT_MICRO_BATCH,
            "{} must not micro-batch at the default",
            m.id
        );
    }
}

#[test]
fn minilm_uses_mean_pooling_and_no_prefix() {
    let m = lookup("all-MiniLM-L6-v2").unwrap();
    assert_eq!(m.pooling, Pooling::Mean);
    assert!(m.query_prefix.is_empty());
}

#[test]
fn mod_registry_ids_are_unique() {
    let all = registry();
    let mut ids: Vec<&str> = all.iter().map(|m| m.id).collect();
    ids.sort_unstable();
    let n = ids.len();
    ids.dedup();
    assert_eq!(ids.len(), n, "duplicate model id in the registry");
}

#[test]
fn queries_carry_the_prefix_of_their_model() {
    let m = lookup(DEFAULT_MODEL).unwrap();
    assert_eq!(
        query_text(&m, "tax forms"),
        "Represent this sentence for searching relevant passages: tax forms"
    );
    let s = lookup("all-MiniLM-L6-v2").unwrap();
    assert_eq!(query_text(&s, "tax forms"), "tax forms");
    assert_eq!(query_passages(&s, "tax forms"), vec!["tax forms"]);
    assert_eq!(query_passages(&m, ""), vec![BGE_QUERY_PREFIX]);
}

#[test]
fn a_build_without_a_gpu_says_so() {
    assert_eq!(without_gpu(Device::Cpu), Ok(None));
    assert_eq!(
        without_gpu(Device::Auto).unwrap().unwrap(),
        "this build has no GPU support; rebuild with `--features gpu`; using the CPU"
    );
    assert_eq!(
        without_gpu(Device::Gpu).unwrap_err(),
        "device = \"gpu\" was requested but this build has no GPU support; rebuild with `--features gpu`"
    );
}
