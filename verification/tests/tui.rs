use wom::fusion::ResultKind;
use wom::screen::{
    copy_notice, desktop_notice, editor_notice, hint_line, preview, query_line, result_line,
    results_title, save_line, save_notice, search_notice, terminal_notice, truncate_spans, Ink, Piece,
};
use wom::search::{Mode, Request, SearchResult};
use wom::tui::{Action, Browser, Key, Press, SAVE_NAME};

fn spans(parts: &[&str]) -> Vec<Piece> {
    parts.iter().map(|p| Piece { text: p.to_string(), ink: Ink::Plain }).collect()
}

fn rendered(spans: &[Piece]) -> String {
    spans.iter().map(|s| s.text.as_str()).collect()
}

#[test]
fn truncate_spans_keeps_short_lines_untouched() {
    let got = truncate_spans(spans(&["/a/", "b.txt"]), 40);
    assert_eq!(rendered(&got), "/a/b.txt");
}

#[test]
fn truncate_spans_keeps_the_filename_and_fits_the_width() {
    let got = truncate_spans(spans(&["/home/nolan/very/deep/path/", "main.cpp"]), 20);
    let text = rendered(&got);
    assert!(text.chars().count() <= 20, "too wide: {text:?}");
    assert!(text.ends_with("main.cpp"), "lost the filename: {text:?}");
    assert!(text.starts_with('…'), "no elision marker: {text:?}");
}

#[test]
fn truncate_spans_handles_zero_width() {
    assert!(truncate_spans(spans(&["abc"]), 0).is_empty());
}

#[test]
fn truncate_spans_does_not_split_multibyte_characters() {
    // Char-based, not byte-based: a byte split here would panic.
    let got = truncate_spans(spans(&["/дом/очень/длинный/путь/", "файл.txt"]), 15);
    let text = rendered(&got);
    assert!(text.chars().count() <= 15);
    assert!(text.ends_with("файл.txt"));
}

#[test]
fn a_cut_line_keeps_its_colours() {
    let mut line = spans(&["abcdef", "gh"]);
    line[0].ink = Ink::Dim;
    let got = truncate_spans(line, 5);
    assert_eq!(rendered(&got), "…efgh");
    assert_eq!(got[1].ink, Ink::Dim);
    assert_eq!(got[2].ink, Ink::Plain);
}

#[test]
fn a_cut_between_pieces_is_marked_too() {
    assert_eq!(rendered(&truncate_spans(spans(&["abc", "def"]), 4)), "…def");
    assert_eq!(rendered(&truncate_spans(spans(&["abc", "de"]), 3)), "…de");
    assert_eq!(rendered(&truncate_spans(spans(&["abc"]), 1)), "…");
}

fn res(kind: ResultKind, path: &str) -> SearchResult {
    SearchResult {
        kind,
        path: path.to_string(),
        score: 0,
        snippet: "Wage and Tax".to_string(),
        dense_rank: Some(2),
        cosine: None,
        lexical_rank: None,
        rerank: None,
        file_count: None,
    }
}

fn request() -> Request {
    Request {
        text: "tax".to_string(),
        scope: vec!["/home/n/docs".to_string()],
        limit: 7,
        mode: Mode::Dense,
        min_similarity: 42,
    }
}

fn browser() -> Browser {
    Browser::new(
        request(),
        vec![
            res(ResultKind::File, "/h/a/w2.txt"),
            res(ResultKind::Dir, "/h/b"),
            res(ResultKind::File, "/h/c.txt"),
        ],
    )
}

fn press(b: &mut Browser, key: Key) -> Action {
    b.handle_key(Press { key, ctrl: false })
}

#[test]
fn moving_is_clamped() {
    let mut b = browser();
    press(&mut b, Key::Up);
    assert_eq!(b.selected, Some(0));
    press(&mut b, Key::Char('j'));
    assert_eq!(b.selected, Some(1));
    press(&mut b, Key::PageDown);
    assert_eq!(b.selected, Some(2));
    press(&mut b, Key::Char('k'));
    press(&mut b, Key::PageUp);
    assert_eq!(b.selected, Some(0));
    press(&mut b, Key::End);
    assert_eq!(b.selected, Some(2));
    press(&mut b, Key::Home);
    assert_eq!(b.selected, Some(0));
    let mut empty = Browser::new(request(), vec![]);
    press(&mut empty, Key::Down);
    press(&mut empty, Key::End);
    assert_eq!(empty.selected, None);
    press(&mut empty, Key::Home);
    assert!(empty.selection().is_none());
    assert!(matches!(press(&mut empty, Key::Enter), Action::Nothing));
}

#[test]
fn keys_open_what_is_selected() {
    let mut b = browser();
    assert!(matches!(press(&mut b, Key::Enter), Action::Edit { path } if path == "/h/a/w2.txt"));
    assert!(matches!(press(&mut b, Key::Char('d')), Action::Terminal { dir } if dir == "/h/a"));
    assert!(matches!(press(&mut b, Key::Char('x')), Action::Desktop { path } if path == "/h/a/w2.txt"));
    assert!(matches!(press(&mut b, Key::Char('y')), Action::Copy { text } if text == "/h/a/w2.txt"));
    press(&mut b, Key::Down);
    assert!(matches!(press(&mut b, Key::Enter), Action::Terminal { dir } if dir == "/h/b"));
    assert!(matches!(press(&mut b, Key::Char('d')), Action::Terminal { dir } if dir == "/h/b"));
    assert!(matches!(press(&mut b, Key::Char('e')), Action::Edit { path } if path == "/h/b"));
}

#[test]
fn several_keys_quit() {
    let mut b = browser();
    assert!(matches!(press(&mut b, Key::Char('q')), Action::Quit));
    assert!(matches!(press(&mut b, Key::Char('Z')), Action::Quit));
    assert!(matches!(press(&mut b, Key::Esc), Action::Quit));
    assert!(matches!(press(&mut b, Key::Char('c')), Action::Nothing));
    assert!(matches!(b.handle_key(Press { key: Key::Char('c'), ctrl: true }), Action::Quit));
}

#[test]
fn editing_searches_live_and_keeps_every_other_parameter() {
    let mut b = browser();
    assert!(matches!(press(&mut b, Key::Char('/')), Action::Nothing));
    assert!(matches!(press(&mut b, Key::Char('q')), Action::Search { rerank: false }));
    assert_eq!(b.req.text, "taxq");
    assert!(matches!(press(&mut b, Key::Backspace), Action::Search { rerank: false }));
    assert!(matches!(press(&mut b, Key::Down), Action::Nothing));
    assert!(matches!(press(&mut b, Key::Enter), Action::Search { rerank: true }));
    assert!(!b.editing);
    assert_eq!(b.req.text, "tax");
    assert_eq!((b.req.limit, b.req.mode, b.req.min_similarity), (7, Mode::Dense, 42));
    press(&mut b, Key::Char('/'));
    assert!(matches!(press(&mut b, Key::Esc), Action::Nothing));
    assert!(!b.editing);
}

#[test]
fn saving_asks_for_a_name() {
    let mut b = browser();
    press(&mut b, Key::Char('s'));
    assert_eq!(b.saving.as_deref(), Some(SAVE_NAME));
    press(&mut b, Key::Backspace);
    press(&mut b, Key::Char('T'));
    match press(&mut b, Key::Enter) {
        Action::Save { path, query } => {
            assert_eq!(path, "wom-results.txT");
            assert_eq!(query, "tax");
        }
        other => panic!("expected a save, got {other:?}"),
    }
    assert!(b.saving.is_none());
    press(&mut b, Key::Char('s'));
    assert!(matches!(press(&mut b, Key::Esc), Action::Nothing));
    assert!(b.saving.is_none());
    press(&mut b, Key::Char('S'));
    assert!(b.show_scores);
}

#[test]
fn new_results_select_the_first() {
    let mut b = browser();
    press(&mut b, Key::End);
    b.show(vec![res(ResultKind::File, "/x")]);
    assert_eq!(b.selected, Some(0));
    b.show(vec![]);
    assert_eq!(b.selected, None);
}

#[test]
fn the_lines_on_screen() {
    let home = Some("/home/n".to_string());
    let mut b = browser();
    assert_eq!(rendered(&query_line(&b, &home)), "wom [~/docs] tax   3 matches");
    b.editing = true;
    b.req.scope.clear();
    assert_eq!(rendered(&query_line(&b, &home)), "wom tax\u{2588}   3 matches");
    let f = &b.results[0];
    let line = result_line(f, false, &None, &None, &home);
    assert_eq!((line[0].text.as_str(), line[0].ink), ("/h/a/", Ink::Dim));
    assert_eq!((line[1].text.as_str(), line[1].ink), ("w2.txt", Ink::Plain));
    let cos = Some("0.53 ".to_string());
    let rr = Some("rr+1.0 ".to_string());
    assert_eq!(rendered(&result_line(f, true, &cos, &rr, &home)), "0.53 rr+1.0 /h/a/w2.txt");
    assert_eq!(
        rendered(&result_line(&b.results[1], true, &None, &None, &home)),
        "  -  directory:/h/b"
    );
    assert_eq!(results_title(0), " no matches ");
    assert_eq!(results_title(2), " results ");
    assert_eq!(
        rendered(&save_line("x.txt")),
        "save to: x.txt\u{2588}   (Enter to write, Esc to cancel)"
    );
    assert_eq!(
        rendered(&hint_line(false)),
        "j/k move  Enter open  d terminal  e editor  s save  y copy  / refine  q quit"
    );
    assert!(rendered(&hint_line(true)).contains("e editor  x xdg-open  s save"));
}

#[test]
fn the_preview_explains_a_match() {
    let mut r = res(ResultKind::File, "/h/a/w2.txt");
    assert_eq!(
        preview(Some(&r), &Some("0.812".to_string()), &None),
        "/h/a/w2.txt\n\nsimilarity  0.812\nmatched by  meaning (#2)\n\nWage and Tax"
    );
    r.lexical_rank = Some(5);
    r.snippet.clear();
    assert_eq!(
        preview(Some(&r), &None, &None),
        "/h/a/w2.txt\n\nmatched by  meaning (#2) and text (#5)\n\n(no extracted text; matched on path and name)"
    );
    r.dense_rank = None;
    assert!(preview(Some(&r), &None, &None).contains("matched by  text (#5)"));
    r.lexical_rank = None;
    r.file_count = Some(12);
    assert!(preview(Some(&r), &None, &None)
        .ends_with("matched by  contents of this directory\n\ndirectory holding 12 indexed files"));
    assert_eq!(preview(None, &None, &None), "Nothing selected.");
}

#[test]
fn notices_report_success_and_failure() {
    let n = terminal_notice("/h", &None);
    assert_eq!((n.text.as_str(), n.warning), ("opened terminal in /h", false));
    let n = desktop_notice("/h/x", &Some("xdg-open not found".to_string()));
    assert_eq!((n.text.as_str(), n.warning), ("xdg-open not found", true));
    assert_eq!(copy_notice("xsel", &None).text, "copied path with xsel");
    assert_eq!(save_notice(3, "o.txt", &None).text, "saved 3 results to o.txt");
    assert_eq!(search_notice("boom").text, "search failed: boom");
    assert!(editor_notice("boom").warning);
}
