use wom::actions::{
    build_command, choose_clipboard, choose_terminal, desktop_refusal, dir_of, directory_refusal,
    resolve_editor, save_refusal, saved_text, split_whitespace,
};
use wom::fusion::ResultKind;
use wom::search::SearchResult;

fn res(kind: ResultKind, path: &str) -> SearchResult {
    SearchResult {
        kind,
        path: path.to_string(),
        score: 1.0f32.to_bits(),
        snippet: String::new(),
        dense_rank: None,
        cosine: None,
        lexical_rank: None,
        rerank: None,
        file_count: None,
    }
}

#[test]
fn dir_of_a_file_is_its_parent() {
    let r = res(ResultKind::File, "/a/b/c.txt");
    assert_eq!(dir_of(&r), "/a/b");
}

#[test]
fn dir_of_a_directory_is_itself() {
    let r = res(ResultKind::Dir, "/a/b");
    assert_eq!(dir_of(&r), "/a/b");
}

#[test]
fn dir_of_a_root_level_file_does_not_panic() {
    let r = res(ResultKind::File, "/c.txt");
    assert_eq!(dir_of(&r), "/");
}

#[test]
fn visual_wins_over_editor() {
    let got = resolve_editor(Some("vim"), Some("nano"), &|_| true);
    assert_eq!(got, "vim");
}

#[test]
fn editor_is_used_when_visual_is_unset_or_blank() {
    assert_eq!(resolve_editor(None, Some("nano"), &|_| true), "nano");
    assert_eq!(resolve_editor(Some("  "), Some("nano"), &|_| true), "nano");
}

#[test]
fn falls_back_to_the_first_installed_editor() {
    // Only nano present.
    let got = resolve_editor(None, None, &|c| c == "nano");
    assert_eq!(got, "nano");
    // Nothing present at all still yields something runnable.
    assert_eq!(resolve_editor(None, None, &|_| false), "vi");
}

#[test]
fn an_editor_from_the_environment_is_trimmed() {
    assert_eq!(resolve_editor(Some(" code -w \n"), None, &|_| false), "code -w");
    assert_eq!(resolve_editor(None, None, &|c| c == "nvim" || c == "vim"), "nvim");
}

#[test]
fn editor_arguments_are_split_into_argv() {
    let cmd = build_command("emacs -nw", "/tmp/x");
    assert_eq!(cmd.program, "emacs");
    assert_eq!(cmd.args, vec!["-nw", "/tmp/x"]);
}

#[test]
fn editor_without_arguments_passes_only_the_path() {
    let cmd = build_command("vim", "/tmp/x");
    assert_eq!(cmd.program, "vim");
    assert_eq!(cmd.args, vec!["/tmp/x"]);
}

#[test]
fn a_blank_command_line_runs_vi() {
    let cmd = build_command("  \t ", "/tmp/x");
    assert_eq!(cmd.program, "vi");
    assert_eq!(cmd.args, vec!["/tmp/x"]);
}

#[test]
fn words_are_split_at_any_white_space() {
    assert_eq!(split_whitespace("  a\tb \n c\u{3000}d"), vec!["a", "b", "c", "d"]);
    assert!(split_whitespace(" \n").is_empty());
}

#[test]
fn the_configured_terminal_wins() {
    let c = choose_terminal(Some("st"), &|_| true).unwrap();
    assert_eq!(c.program, "st");
    assert!(c.args.is_empty());
}

#[test]
fn installed_terminals_start_in_the_working_directory() {
    let c = choose_terminal(None, &|n| n == "alacritty" || n == "xterm").unwrap();
    assert_eq!(c.program, "alacritty");
    assert_eq!(c.args, vec!["--working-directory", "."]);
    let c = choose_terminal(Some(" "), &|n| n == "wezterm").unwrap();
    assert_eq!(c.program, "wezterm");
    assert_eq!(c.args, vec!["start", "--cwd", "."]);
    let c = choose_terminal(None, &|n| n == "konsole").unwrap();
    assert_eq!(c.args, vec!["--workdir", "."]);
    let c = choose_terminal(None, &|_| true).unwrap();
    assert_eq!(c.program, "foot");
    assert!(c.args.is_empty());
}

#[test]
fn without_a_terminal_the_error_lists_what_was_tried() {
    let e = choose_terminal(None, &|_| false).unwrap_err();
    assert!(e.starts_with("no terminal emulator found. Set $TERMINAL"));
    assert!(e.contains("(Tried: foot, alacritty, kitty,"));
    assert!(e.ends_with("urxvt, xterm)"));
}

#[test]
fn clipboard_tools_are_tried_in_order() {
    let c = choose_clipboard(&|_| true).unwrap();
    assert_eq!(c.command.program, "wl-copy");
    assert!(c.command.args.is_empty());
    assert!(!c.wait);
    let c = choose_clipboard(&|n| n == "xclip").unwrap();
    assert_eq!(c.command.args, vec!["-selection", "clipboard"]);
    assert!(c.wait);
    let c = choose_clipboard(&|n| n == "xsel").unwrap();
    assert_eq!(c.command.args, vec!["--clipboard", "--input"]);
    assert_eq!(
        choose_clipboard(&|_| false).unwrap_err(),
        "no clipboard tool found (install wl-clipboard, xclip, or xsel)"
    );
}

#[test]
fn the_desktop_needs_a_session_and_an_opener() {
    assert!(desktop_refusal(true, true).is_none());
    assert!(desktop_refusal(false, true).unwrap().contains("no desktop session"));
    assert!(desktop_refusal(true, false).unwrap().contains("xdg-open not found"));
}

#[test]
fn open_terminal_rejects_a_non_directory() {
    assert!(directory_refusal("/definitely/not/a/dir", false).is_some());
    assert!(directory_refusal("/tmp", true).is_none());
}

#[test]
fn save_results_writes_one_line_per_result() {
    let results = vec![
        res(ResultKind::Dir, "/h/employment_docs"),
        res(ResultKind::File, "/h/employment_docs/2024_W2.pdf"),
    ];
    let text = saved_text(&results, "employment documents");
    assert!(text.contains("# wom results for: employment documents"));
    assert!(text.contains("directory:/h/employment_docs"));
    assert!(text.contains("/h/employment_docs/2024_W2.pdf"));
    assert_eq!(
        text,
        "# wom results for: employment documents\n# 2 matches\n\ndirectory:/h/employment_docs\n/h/employment_docs/2024_W2.pdf\n"
    );
}

#[test]
fn save_results_refuses_to_overwrite() {
    let err = save_refusal("/t/existing.txt", true).unwrap();
    assert!(err.contains("already exists"), "got: {err}");
    assert!(save_refusal("/t/new.txt", false).is_none());
}
