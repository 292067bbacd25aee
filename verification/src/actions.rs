//! What the keys of the browser do: which program opens a result, and what a saved list says.
use crate::chars;
use crate::fusion::ResultKind;
use crate::path;
use crate::search::SearchResult;
use crate::text;
use vstd::prelude::*;

verus! {

/// The directory a result refers to: itself if it is a directory, otherwise its parent.
pub fn dir_of(r: &SearchResult) -> (d: String)
    ensures
        d@ == match r.kind {
            ResultKind::Dir => r.path@,
            ResultKind::File => match path::parent_of(r.path@) {
                Some(p) => p,
                None => "/"@,
            },
        },
{
    match r.kind {
        ResultKind::Dir => r.path.as_str().to_owned(),
        ResultKind::File => match path::parent(r.path.as_str()) {
            Some(p) => p,
            None => "/".to_owned(),
        },
    }
}

// ------------------------------------------------------------------ choosing a program

/// Editors to try when none is configured, in order of preference.
pub const EDITORS: [&'static str; 4] = ["nvim", "vim", "nano", "vi"];

/// Terminal emulators to try when none is configured, ordered by how likely the user is to consider
/// one theirs.
pub const TERMINALS: [&'static str; 11] = [
    "foot",
    "alacritty",
    "kitty",
    "wezterm",
    "ghostty",
    "gnome-terminal",
    "konsole",
    "xfce4-terminal",
    "terminator",
    "urxvt",
    "xterm",
];

/// Clipboard tools to try, in order.
pub const CLIPBOARDS: [&'static str; 3] = ["wl-copy", "xclip", "xsel"];

/// What `installed` answered: no for every one of `names` before the `n`-th, and yes for that one,
/// if there is one.
pub open spec fn picked<F: Fn(&'static str) -> bool>(
    names: Seq<&'static str>,
    installed: &F,
    n: int,
) -> bool {
    &&& 0 <= n <= names.len()
    &&& forall|i: int| 0 <= i < n ==> call_ensures(installed, (#[trigger] names[i],), false)
    &&& n < names.len() ==> call_ensures(installed, (names[n],), true)
}

/// The first of `names` that is installed.
pub fn first_installed<F: Fn(&'static str) -> bool>(names: &[&'static str], installed: &F) -> (r:
    Option<usize>)
    requires
        forall|s: &'static str| call_requires(installed, (s,)),
    ensures
        match r {
            Some(i) => i < names@.len() && picked(names@, installed, i as int),
            None => picked(names@, installed, names@.len() as int),
        },
{
    let mut i: usize = 0;
    while i < names.len()
        invariant
            forall|s: &'static str| call_requires(installed, (s,)),
            i <= names@.len(),
            forall|k: int| 0 <= k < i ==> call_ensures(installed, (#[trigger] names@[k],), false),
        decreases names@.len() - i,
    {
        if installed(names[i]) {
            return Some(i);
        }
        i += 1;
    }
    None
}

/// The command line that an environment variable holds, if it is not blank.
pub open spec fn configured(v: Option<&str>) -> Option<Seq<char>> {
    match v {
        Some(s) => if chars::trimmed(s@).len() > 0 {
            Some(chars::trimmed(s@))
        } else {
            None
        },
        None => None,
    }
}

fn find_configured(v: Option<&str>) -> (r: Option<String>)
    ensures
        match r {
            Some(s) => configured(v) == Some(s@),
            None => configured(v) is None,
        },
{
    match v {
        Some(s) => if chars::is_blank(s) {
            None
        } else {
            Some(chars::trim(s))
        },
        None => None,
    }
}

/// Picks an editor command line, preferring `$VISUAL`, then `$EDITOR`, then whichever common editor
/// is installed; `vi` where none is.
pub fn resolve_editor<F: Fn(&'static str) -> bool>(
    visual: Option<&str>,
    editor: Option<&str>,
    installed: &F,
) -> (r: String)
    requires
        forall|s: &'static str| call_requires(installed, (s,)),
    ensures
        match (configured(visual), configured(editor)) {
            (Some(v), _) => r@ == v,
            (None, Some(e)) => r@ == e,
            (None, None) => exists|n: int|
                #[trigger] picked(EDITORS@, installed, n) && r@ == (if n < EDITORS@.len() {
                    EDITORS@[n]@
                } else {
                    "vi"@
                }),
        },
{
    if let Some(v) = find_configured(visual) {
        return v;
    }
    if let Some(e) = find_configured(editor) {
        return e;
    }
    let editors = EDITORS;
    match first_installed(&editors, installed) {
        Some(i) => editors[i].to_owned(),
        None => {
            proof {
                assert(picked(EDITORS@, installed, EDITORS@.len() as int));
            }
            "vi".to_owned()
        },
    }
}

/// A program to run and its arguments.
#[derive(Debug, Clone)]
pub struct CommandLine {
    pub program: String,
    pub args: Vec<String>,
}

/// The words of `s` so far, and the word it ends in the middle of: maximal runs without white
/// space.
pub open spec fn plain_runs(s: Seq<char>) -> (Seq<Seq<char>>, Seq<char>)
    decreases s.len(),
{
    if s.len() == 0 {
        (seq![], seq![])
    } else {
        let (done, cur) = plain_runs(s.drop_last());
        if !chars::whitespace(s.last()) {
            (done, cur.push(s.last()))
        } else if cur.len() > 0 {
            (done.push(cur), seq![])
        } else {
            (done, seq![])
        }
    }
}

/// The words of `s`.
pub open spec fn plain_words(s: Seq<char>) -> Seq<Seq<char>> {
    let (done, cur) = plain_runs(s);
    if cur.len() > 0 {
        done.push(cur)
    } else {
        done
    }
}

/// The words of `s`, split at white space.
pub fn split_whitespace(s: &str) -> (r: Vec<String>)
    ensures
        text::views(r@) == plain_words(s@),
{
    let cs = text::chars_of(s);
    let mut out: Vec<String> = Vec::new();
    let mut cur: Vec<char> = Vec::new();
    let mut i: usize = 0;
    proof {
        assert(text::views(out@) =~= Seq::<Seq<char>>::empty());
    }
    while i < cs.len()
        invariant
            cs@ == s@,
            i <= cs@.len(),
            plain_runs(cs@.take(i as int)) == (text::views(out@), cur@),
        decreases cs@.len() - i,
    {
        let c = cs[i];
        proof {
            assert(cs@.take(i + 1).drop_last() =~= cs@.take(i as int));
            assert(cs@.take(i + 1).last() == c);
        }
        if !c.is_whitespace() {
            cur.push(c);
        } else if cur.len() > 0 {
            let word = text::from_chars(&cur);
            proof {
                text::lemma_views_push(out@, word);
            }
            out.push(word);
            cur = Vec::new();
        }
        i += 1;
        proof {
            assert(plain_runs(cs@.take(i as int)).1 =~= cur@);
        }
    }
    proof {
        assert(cs@.take(cs@.len() as int) =~= cs@);
    }
    if cur.len() > 0 {
        let word = text::from_chars(&cur);
        proof {
            text::lemma_views_push(out@, word);
        }
        out.push(word);
    }
    out
}

/// Splits a command line that may carry arguments, e.g. `code -w`, and puts the path last; `vi`
/// where the command line is blank.
pub fn build_command(cmdline: &str, p: &str) -> (r: CommandLine)
    ensures
        ({
            let words = plain_words(cmdline@);
            if words.len() > 0 {
                &&& r.program@ == words[0]
                &&& text::views(r.args@) == words.skip(1).push(p@)
            } else {
                &&& r.program@ == "vi"@
                &&& text::views(r.args@) == seq![p@]
            }
        }),
{
    let words = split_whitespace(cmdline);
    let ghost ws = plain_words(cmdline@);
    let mut args: Vec<String> = Vec::new();
    let last = p.to_owned();
    if words.len() == 0 {
        args.push(last);
        proof {
            assert(text::views(args@) =~= seq![p@]);
            assert(text::views(words@).len() == 0);
        }
        return CommandLine { program: "vi".to_owned(), args };
    }
    let mut i: usize = 1;
    proof {
        assert(text::views(words@).len() == words@.len());
        assert(text::views(args@) =~= ws.subrange(1, 1));
    }
    while i < words.len()
        invariant
            ws == text::views(words@),
            ws.len() == words@.len(),
            1 <= i <= words@.len(),
            text::views(args@) == ws.subrange(1, i as int),
        decreases words@.len() - i,
    {
        let w = words[i].as_str().to_owned();
        proof {
            text::lemma_views_push(args@, w);
            assert(ws.subrange(1, i + 1) =~= ws.subrange(1, i as int).push(w@));
        }
        args.push(w);
        i += 1;
    }
    proof {
        text::lemma_views_push(args@, last);
        assert(ws.subrange(1, ws.len() as int) =~= ws.skip(1));
        assert(ws[0] == words@[0]@);
    }
    args.push(last);
    CommandLine { program: words[0].as_str().to_owned(), args }
}

/// The arguments that make a terminal emulator start in its working directory.
pub open spec fn terminal_args(program: Seq<char>) -> Seq<Seq<char>> {
    if program == "alacritty"@ {
        seq!["--working-directory"@, "."@]
    } else if program == "wezterm"@ {
        seq!["start"@, "--cwd"@, "."@]
    } else if program == "konsole"@ {
        seq!["--workdir"@, "."@]
    } else {
        seq![]
    }
}

fn find_terminal_args(program: &str) -> (r: Vec<String>)
    ensures
        text::views(r@) == terminal_args(program@),
{
    let mut v: Vec<String> = Vec::new();
    if text::same(program, "alacritty") {
        v.push("--working-directory".to_owned());
        v.push(".".to_owned());
    } else if text::same(program, "wezterm") {
        v.push("start".to_owned());
        v.push("--cwd".to_owned());
        v.push(".".to_owned());
    } else if text::same(program, "konsole") {
        v.push("--workdir".to_owned());
        v.push(".".to_owned());
    }
    proof {
        assert(text::views(v@) =~= terminal_args(program@));
    }
    v
}

/// What is said when there is no terminal emulator.
pub open spec fn no_terminal_message() -> Seq<char> {
    "no terminal emulator found. Set $TERMINAL to the one you use, e.g. TERMINAL=foot. (Tried: foot, alacritty, kitty, wezterm, ghostty, gnome-terminal, konsole, xfce4-terminal, terminator, urxvt, xterm)"@
}

/// Picks the terminal emulator: the configured one, as it is spelled and without arguments, or else
/// the first that is installed, with what makes it start in its working directory.
pub fn choose_terminal<F: Fn(&'static str) -> bool>(terminal: Option<&str>, installed: &F) -> (r:
    Result<CommandLine, String>)
    requires
        forall|s: &'static str| call_requires(installed, (s,)),
    ensures
        match configured(terminal) {
            Some(_) => r matches Ok(c) && c.program@ == terminal->0@ && c.args@.len() == 0,
            None => exists|n: int|
                #[trigger] picked(TERMINALS@, installed, n) && (if n < TERMINALS@.len() {
                    r is Ok && r->Ok_0.program@ == TERMINALS@[n]@ && text::views(r->Ok_0.args@)
                        == terminal_args(TERMINALS@[n]@)
                } else {
                    r is Err && r->Err_0@ == no_terminal_message()
                }),
        },
{
    if let Some(t) = terminal {
        if !chars::is_blank(t) {
            return Ok(CommandLine { program: t.to_owned(), args: Vec::new() });
        }
    }
    let terminals = TERMINALS;
    match first_installed(&terminals, installed) {
        Some(i) => {
            let args = find_terminal_args(terminals[i]);
            Ok(CommandLine { program: terminals[i].to_owned(), args })
        },
        None => {
            proof {
                assert(picked(TERMINALS@, installed, TERMINALS@.len() as int));
            }
            Err(
                "no terminal emulator found. Set $TERMINAL to the one you use, e.g. TERMINAL=foot. (Tried: foot, alacritty, kitty, wezterm, ghostty, gnome-terminal, konsole, xfce4-terminal, terminator, urxvt, xterm)".to_owned(),
            )
        },
    }
}

/// The arguments that make a clipboard tool read the text to copy.
pub open spec fn clipboard_args(program: Seq<char>) -> Seq<Seq<char>> {
    if program == "xclip"@ {
        seq!["-selection"@, "clipboard"@]
    } else if program == "xsel"@ {
        seq!["--clipboard"@, "--input"@]
    } else {
        seq![]
    }
}

fn find_clipboard_args(program: &str) -> (r: Vec<String>)
    ensures
        text::views(r@) == clipboard_args(program@),
{
    let mut v: Vec<String> = Vec::new();
    if text::same(program, "xclip") {
        v.push("-selection".to_owned());
        v.push("clipboard".to_owned());
    } else if text::same(program, "xsel") {
        v.push("--clipboard".to_owned());
        v.push("--input".to_owned());
    }
    proof {
        assert(text::views(v@) =~= clipboard_args(program@));
    }
    v
}

/// A clipboard tool to run.
#[derive(Debug, Clone)]
pub struct Clipboard {
    pub command: CommandLine,
    /// Whether to wait for it. One that stays resident to serve the selection is not waited for.
    pub wait: bool,
}

/// Picks the clipboard tool: the first that is installed.
pub fn choose_clipboard<F: Fn(&'static str) -> bool>(installed: &F) -> (r: Result<
    Clipboard,
    &'static str,
>)
    requires
        forall|s: &'static str| call_requires(installed, (s,)),
    ensures
        exists|n: int|
            #[trigger] picked(CLIPBOARDS@, installed, n) && (if n < CLIPBOARDS@.len() {
                &&& r is Ok
                &&& r->Ok_0.command.program@ == CLIPBOARDS@[n]@
                &&& text::views(r->Ok_0.command.args@) == clipboard_args(CLIPBOARDS@[n]@)
                &&& r->Ok_0.wait == (n != 0)
            } else {
                &&& r is Err
                &&& r->Err_0@ == "no clipboard tool found (install wl-clipboard, xclip, or xsel)"@
            }),
{
    let tools = CLIPBOARDS;
    match first_installed(&tools, installed) {
        Some(i) => {
            let args = find_clipboard_args(tools[i]);
            Ok(
                Clipboard {
                    command: CommandLine { program: tools[i].to_owned(), args },
                    wait: i != 0,
                },
            )
        },
        None => {
            proof {
                assert(picked(CLIPBOARDS@, installed, CLIPBOARDS@.len() as int));
            }
            Err("no clipboard tool found (install wl-clipboard, xclip, or xsel)")
        },
    }
}

/// Why a path cannot be handed to the desktop, if it cannot.
pub fn desktop_refusal(has_desktop: bool, has_opener: bool) -> (r: Option<&'static str>)
    ensures
        match r {
            Some(s) => if !has_desktop {
                s@ == "no desktop session ($DISPLAY and $WAYLAND_DISPLAY are both unset)"@
            } else {
                !has_opener && s@ == "xdg-open not found (install xdg-utils)"@
            },
            None => has_desktop && has_opener,
        },
{
    if !has_desktop {
        Some("no desktop session ($DISPLAY and $WAYLAND_DISPLAY are both unset)")
    } else if !has_opener {
        Some("xdg-open not found (install xdg-utils)")
    } else {
        None
    }
}

/// Why a terminal cannot be opened in `dir`, if it cannot.
pub fn directory_refusal(dir: &str, is_dir: bool) -> (r: Option<String>)
    ensures
        match r {
            Some(s) => !is_dir && s@ == dir@ + " is not a directory"@,
            None => is_dir,
        },
{
    if is_dir {
        None
    } else {
        let mut s = dir.to_owned();
        s.append(" is not a directory");
        Some(s)
    }
}

// ------------------------------------------------------------------ saving results

/// Refuses to overwrite: saving is one keystroke, and losing an unrelated file to a mistyped name
/// would be a poor trade.
pub fn save_refusal(p: &str, present: bool) -> (r: Option<String>)
    ensures
        match r {
            Some(s) => present && s@ == p@ + " already exists; pick another name"@,
            None => !present,
        },
{
    if present {
        let mut s = p.to_owned();
        s.append(" already exists; pick another name");
        Some(s)
    } else {
        None
    }
}

/// A result as it is listed: directories tagged, files bare.
pub open spec fn listed(r: SearchResult) -> Seq<char> {
    match r.kind {
        ResultKind::Dir => "directory:"@ + r.path@,
        ResultKind::File => r.path@,
    }
}

/// The results, one per line.
pub open spec fn result_lines(results: Seq<SearchResult>) -> Seq<char>
    decreases results.len(),
{
    if results.len() == 0 {
        seq![]
    } else {
        (result_lines(results.drop_last()) + listed(results.last())).push('\n')
    }
}

/// A saved result list: the query, the number of matches, and the results, one per line.
pub open spec fn saved(results: Seq<SearchResult>, query: Seq<char>) -> Seq<char> {
    "# wom results for: "@ + query + "\n# "@ + text::decimal(results.len()) + " matches\n\n"@
        + result_lines(results)
}

/// What a saved result list says.
pub fn saved_text(results: &Vec<SearchResult>, query: &str) -> (r: String)
    ensures
        r@ == saved(results@, query@),
{
    let mut lines = String::new();
    let mut i: usize = 0;
    proof {
        assert(lines@ =~= result_lines(results@.take(0)));
    }
    while i < results.len()
        invariant
            i <= results@.len(),
            lines@ == result_lines(results@.take(i as int)),
        decreases results@.len() - i,
    {
        proof {
            assert(results@.take(i + 1).drop_last() =~= results@.take(i as int));
            assert(results@.take(i + 1).last() == results@[i as int]);
        }
        let s = results[i].display();
        lines.append(s.as_str());
        lines.push('\n');
        i += 1;
    }
    proof {
        assert(results@.take(results@.len() as int) =~= results@);
    }
    let mut out = "# wom results for: ".to_owned();
    out.append(query);
    out.append("\n# ");
    out.append(text::dec(results.len() as u64).as_str());
    out.append(" matches\n\n");
    out.append(lines.as_str());
    proof {
        assert(out@ =~= saved(results@, query@));
    }
    out
}

// ------------------------------------------------------------------ laws

/// White space parts the words of a command line, and nothing else does: what stands on either side
/// of it is read by itself, and a run without it is one word.
pub proof fn white_space_parts_the_arguments(a: Seq<char>, c: char, b: Seq<char>)
    requires
        chars::whitespace(c),
    ensures
        plain_words(a + seq![c] + b) == plain_words(a) + plain_words(b),
        plain_words(seq![]) == Seq::<Seq<char>>::empty(),
        a.len() > 0 && (forall|i: int| 0 <= i < a.len() ==> !chars::whitespace(#[trigger] a[i]))
            ==> plain_words(a) == seq![a],
{
    lemma_plain_parts(a, c, b);
    let (d, cur) = plain_runs(b);
    assert(plain_words(a + seq![c] + b) =~= plain_words(a) + plain_words(b));
    if forall|i: int| 0 <= i < a.len() ==> !chars::whitespace(#[trigger] a[i]) {
        lemma_plain_run(a);
        assert(Seq::<Seq<char>>::empty().push(a) =~= seq![a]);
    }
}

proof fn lemma_plain_parts(a: Seq<char>, c: char, b: Seq<char>)
    requires
        chars::whitespace(c),
    ensures
        plain_runs(a + seq![c] + b).0 == plain_words(a) + plain_runs(b).0,
        plain_runs(a + seq![c] + b).1 == plain_runs(b).1,
    decreases b.len(),
{
    let s = a + seq![c] + b;
    if b.len() == 0 {
        assert(s.drop_last() =~= a);
        assert(s.last() == c);
        assert(plain_runs(s).0 =~= plain_words(a) + plain_runs(b).0);
    } else {
        lemma_plain_parts(a, c, b.drop_last());
        assert(s.drop_last() =~= a + seq![c] + b.drop_last());
        assert(s.last() == b.last());
        assert(plain_runs(s).0 =~= plain_words(a) + plain_runs(b).0);
    }
}

proof fn lemma_plain_run(a: Seq<char>)
    requires
        forall|i: int| 0 <= i < a.len() ==> !chars::whitespace(#[trigger] a[i]),
    ensures
        plain_runs(a) == (Seq::<Seq<char>>::empty(), a),
    decreases a.len(),
{
    if a.len() > 0 {
        let init = a.drop_last();
        assert forall|i: int| 0 <= i < init.len() implies !chars::whitespace(#[trigger] init[i]) by {
            assert(init[i] == a[i]);
        }
        lemma_plain_run(init);
        assert(!chars::whitespace(a[a.len() - 1]));
        assert(init.push(a.last()) =~= a);
    } else {
        assert(a =~= seq![]);
    }
}

/// A saved list names every result, in order, on a line of its own, below the query and their
/// number.
pub proof fn every_result_has_its_line(
    a: Seq<SearchResult>,
    b: Seq<SearchResult>,
    r: SearchResult,
    query: Seq<char>,
)
    ensures
        result_lines(seq![]) == Seq::<char>::empty(),
        result_lines(seq![r]) == listed(r) + seq!['\n'],
        result_lines(a + b) == result_lines(a) + result_lines(b),
        r.kind == ResultKind::File ==> listed(r) == r.path@,
        r.kind == ResultKind::Dir ==> listed(r) == "directory:"@ + r.path@,
        saved(a, query) == "# wom results for: "@ + query + "\n# "@ + text::decimal(a.len())
            + " matches\n\n"@ + result_lines(a),
    decreases b.len(),
{
    assert(seq![r].drop_last() =~= seq![]);
    assert(result_lines(Seq::<SearchResult>::empty()) =~= seq![]);
    reveal_with_fuel(result_lines, 2);
    assert(result_lines(seq![r]) =~= listed(r) + seq!['\n']);
    if b.len() == 0 {
        assert(a + b =~= a);
        assert(result_lines(a + b) =~= result_lines(a) + result_lines(b));
    } else {
        every_result_has_its_line(a, b.drop_last(), r, query);
        assert((a + b).drop_last() =~= a + b.drop_last());
        assert((a + b).last() == b.last());
        assert(result_lines(a + b) =~= result_lines(a) + result_lines(b));
    }
}

/// The programs that are tried, in order, and what makes each of them do what it is started for.
pub proof fn the_programs_are_these()
    ensures
        EDITORS@.map_values(|s: &'static str| s@) == seq!["nvim"@, "vim"@, "nano"@, "vi"@],
        TERMINALS@.map_values(|s: &'static str| s@) == seq![
            "foot"@,
            "alacritty"@,
            "kitty"@,
            "wezterm"@,
            "ghostty"@,
            "gnome-terminal"@,
            "konsole"@,
            "xfce4-terminal"@,
            "terminator"@,
            "urxvt"@,
            "xterm"@,
        ],
        CLIPBOARDS@.map_values(|s: &'static str| s@) == seq!["wl-copy"@, "xclip"@, "xsel"@],
        terminal_args("alacritty"@) == seq!["--working-directory"@, "."@],
        terminal_args("wezterm"@) == seq!["start"@, "--cwd"@, "."@],
        terminal_args("konsole"@) == seq!["--workdir"@, "."@],
        terminal_args("foot"@).len() == 0,
        terminal_args("kitty"@).len() == 0,
        terminal_args("xterm"@).len() == 0,
        clipboard_args("xclip"@) == seq!["-selection"@, "clipboard"@],
        clipboard_args("xsel"@) == seq!["--clipboard"@, "--input"@],
        clipboard_args("wl-copy"@).len() == 0,
{
    reveal_strlit("alacritty");
    reveal_strlit("wezterm");
    reveal_strlit("konsole");
    reveal_strlit("foot");
    reveal_strlit("kitty");
    reveal_strlit("xterm");
    reveal_strlit("xclip");
    reveal_strlit("xsel");
    reveal_strlit("wl-copy");
    assert("wezterm"@[0] == 'w' && "alacritty"@[0] == 'a' && "konsole"@[0] == 'k');
    assert("foot"@[0] == 'f' && "xterm"@[0] == 'x' && "kitty"@.len() == 5);
    assert("xsel"@.len() == 4 && "xclip"@.len() == 5 && "wl-copy"@.len() == 7);
    assert(EDITORS@.map_values(|s: &'static str| s@) =~= seq!["nvim"@, "vim"@, "nano"@, "vi"@]);
    assert(TERMINALS@.map_values(|s: &'static str| s@) =~= seq![
        "foot"@,
        "alacritty"@,
        "kitty"@,
        "wezterm"@,
        "ghostty"@,
        "gnome-terminal"@,
        "konsole"@,
        "xfce4-terminal"@,
        "terminator"@,
        "urxvt"@,
        "xterm"@,
    ]);
    assert(CLIPBOARDS@.map_values(|s: &'static str| s@) =~= seq!["wl-copy"@, "xclip"@, "xsel"@]);
}

/// A variable counts as set exactly where something other than white space is in it, and what
/// counts is what stands between the white space.
pub proof fn a_blank_variable_is_none(v: &str)
    ensures
        configured(None) is None,
        chars::trimmed(v@).len() == 0 ==> configured(Some(v)) is None,
        chars::trimmed(v@).len() > 0 ==> configured(Some(v)) == Some(chars::trimmed(v@)),
{
}

/// The first installed of the names is the first: none before it is, and nothing is found only
/// where none is.
pub proof fn the_first_installed_is_picked<F: Fn(&'static str) -> bool>(
    names: &[&'static str],
    installed: &F,
    r: Option<usize>,
    i: int,
)
    requires
        call_ensures(first_installed::<F>, (names, installed), r),
        0 <= i < names@.len(),
        r matches Some(n) ==> i <= n,
    ensures
        r == Some(i as usize) && i <= usize::MAX ==> call_ensures(installed, (names@[i],), true),
        r is None || i < r->0 ==> call_ensures(installed, (names@[i],), false),
{
}

/// A command line is run with its own arguments and the path after them.
pub proof fn the_path_is_the_last_argument(cmdline: &str, p: &str, r: CommandLine, w: Seq<char>)
    requires
        call_ensures(build_command, (cmdline, p), r),
    ensures
        r.args@.len() > 0,
        r.args@.last()@ == p@,
        plain_words(cmdline@).len() == 0 ==> r.program@ == "vi"@ && r.args@.len() == 1,
        plain_words(cmdline@).len() > 0 ==> r.program@ == plain_words(cmdline@)[0]
            && text::views(r.args@).drop_last() == plain_words(cmdline@).skip(1),
{
    let v = text::views(r.args@);
    let words = plain_words(cmdline@);
    assert(v.len() == r.args@.len());
    if words.len() > 0 {
        assert(v.last() == p@);
        assert(v.drop_last() =~= words.skip(1));
    } else {
        assert(v[0] == p@);
    }
    assert(v[v.len() - 1] == r.args@[r.args@.len() - 1]@);
}

/// `$VISUAL` goes before `$EDITOR`, and either before what is installed.
pub proof fn the_configured_editor_goes_first<F: Fn(&'static str) -> bool>(
    visual: Option<&str>,
    editor: Option<&str>,
    installed: &F,
    r: String,
)
    requires
        call_ensures(resolve_editor::<F>, (visual, editor, installed), r),
    ensures
        configured(visual) is Some ==> r@ == configured(visual)->0,
        configured(visual) is None && configured(editor) is Some ==> r@ == configured(editor)->0,
{
}

/// A file is saved only where none of that name is; a path is handed to the desktop only where
/// there is one, and something to open it with; and a terminal is opened only in a directory.
pub proof fn refusals_have_their_reasons(
    p: &str,
    present: bool,
    save: Option<String>,
    has_desktop: bool,
    has_opener: bool,
    desktop: Option<&'static str>,
    is_dir: bool,
    dir: Option<String>,
)
    requires
        call_ensures(save_refusal, (p, present), save),
        call_ensures(desktop_refusal, (has_desktop, has_opener), desktop),
        call_ensures(directory_refusal, (p, is_dir), dir),
    ensures
        save is Some <==> present,
        desktop is Some <==> !has_desktop || !has_opener,
        dir is Some <==> !is_dir,
{
}

} // verus!
