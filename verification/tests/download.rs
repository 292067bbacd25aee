use wom::config::Paths;
use wom::download::{
    advance, fetch_notice, hf_url, model_files, optimised_file, partial_file, size_refusal,
    truncation_refusal, use_optimised, verify_pin, Happening, Stage, Step,
};

#[test]
fn hf_url_is_a_resolve_url() {
    assert_eq!(
        hf_url("BAAI/bge-small-en-v1.5", "onnx/model.onnx"),
        "https://huggingface.co/BAAI/bge-small-en-v1.5/resolve/main/onnx/model.onnx"
    );
}

#[test]
fn model_files_lie_in_the_directory_of_their_model() {
    let p = Paths::at("/h");
    let f = model_files(&p, "m");
    assert_eq!(f.onnx, format!("{}/model.onnx", p.model_dir("m")));
    assert_eq!(f.tokenizer, format!("{}/tokenizer.json", p.model_dir("m")));
    assert!(partial_file(&f.onnx).ends_with("/model.part"));
    assert!(optimised_file(&f.onnx).ends_with("/model.opt.onnx"));
}

#[test]
fn a_stale_optimised_copy_is_not_used() {
    assert!(use_optimised(Some(2), Some(2)));
    assert!(!use_optimised(Some(1), Some(2)));
    assert!(!use_optimised(None, Some(2)));
    assert!(!use_optimised(Some(2), None));
}

#[test]
fn pins_are_held_against_the_digest() {
    assert!(verify_pin("/m", "abc", None, "tokenizer").is_ok());
    assert!(verify_pin("/m", "abc", Some("abc"), "tokenizer").is_ok());
    assert_eq!(
        verify_pin("/m", "abc", Some("abd"), "tokenizer").unwrap_err(),
        "tokenizer at /m failed hash pin: expected abd, got abc. Removed nothing; delete the file and re-run to re-download"
    );
}

fn looked(present: bool) -> Happening {
    Happening::Looked { present }
}

fn hashed(d: &str) -> Happening {
    Happening::Hashed { digest: d.to_string() }
}

#[test]
fn an_unpinned_file_is_used_or_fetched() {
    let (s, step) = advance(Stage::Start, &looked(true), "/m", None, "l");
    assert_eq!(s, Stage::Ready);
    assert!(matches!(step, Step::Use));
    let (s, step) = advance(Stage::Start, &looked(false), "/m", None, "l");
    assert_eq!(s, Stage::Fetching);
    assert!(matches!(step, Step::Fetch));
    let (s, step) = advance(s, &Happening::Downloaded, "/m", None, "l");
    assert_eq!(s, Stage::Ready);
    assert!(matches!(step, Step::Use));
}

#[test]
fn a_mismatch_is_downloaded_again_once() {
    let pin = Some("good");
    let (s, step) = advance(Stage::Start, &looked(true), "/m", pin, "l");
    assert_eq!(s, Stage::Found);
    assert!(matches!(step, Step::Hash));
    let (s, step) = advance(s, &hashed("bad"), "/m", pin, "l");
    assert_eq!(s, Stage::Fetching);
    match step {
        Step::Replace { why } => assert!(why.contains("expected good, got bad")),
        other => panic!("expected a replacement, got {other:?}"),
    }
    let (s, step) = advance(s, &Happening::Downloaded, "/m", pin, "l");
    assert_eq!(s, Stage::Fetched);
    assert!(matches!(step, Step::Hash));
    let (ok, step) = advance(s, &hashed("good"), "/m", pin, "l");
    assert_eq!(ok, Stage::Ready);
    assert!(matches!(step, Step::Use));
    let (s, step) = advance(s, &hashed("bad"), "/m", pin, "l");
    assert_eq!(s, Stage::Refused);
    assert!(matches!(step, Step::Fail { .. }));
}

#[test]
fn what_cannot_happen_changes_nothing() {
    let (s, step) = advance(Stage::Ready, &hashed("x"), "/m", Some("y"), "l");
    assert_eq!(s, Stage::Ready);
    assert!(matches!(step, Step::Nothing));
}

#[test]
fn short_downloads_are_refused() {
    assert!(size_refusal("m", 1_000_000).is_none());
    assert_eq!(
        size_refusal("m", 17).unwrap(),
        "downloaded model for m was only 17 bytes, which cannot be right; removed it, please re-run"
    );
    assert!(truncation_refusal("model.onnx", 5, None).is_none());
    assert!(truncation_refusal("model.onnx", 5, Some(5)).is_none());
    assert_eq!(
        truncation_refusal("model.onnx", 4, Some(5)).unwrap(),
        "download of model.onnx was truncated: got 4 of 5 bytes; removed the partial file, please re-run"
    );
    assert_eq!(fetch_notice("m", 34, "a/b"), "fetching model m (~34 MB) from a/b");
}
