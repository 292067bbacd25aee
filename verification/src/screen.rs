//! The lines of the browser, as pieces of text with a colour each.
use crate::fusion::ResultKind;
use crate::path;
use crate::path::find_last;
use crate::search;
use crate::search::{tilde, SearchResult};
use crate::text;
use crate::tui::Browser;
use vstd::prelude::*;

verus! {

/// How a piece of text is drawn.
#[derive(Debug, Clone, Copy, PartialEq, Eq, Structural)]
pub enum Ink {
    Plain,
    /// Greyed out.
    Dim,
    /// The accent colour.
    Accent,
    AccentBold,
    /// The colour of directories.
    Warm,
    WarmBold,
}

/// A piece of a line.
#[derive(Debug, Clone)]
pub struct Piece {
    pub text: String,
    pub ink: Ink,
}

/// A piece of a line, as plain values.
pub struct PieceView {
    pub text: Seq<char>,
    pub ink: Ink,
}

impl View for Piece {
    type V = PieceView;

    open spec fn view(&self) -> PieceView {
        PieceView { text: self.text@, ink: self.ink }
    }
}

/// The pieces of a line, as plain values.
pub open spec fn pieces(v: Seq<Piece>) -> Seq<PieceView> {
    v.map_values(|p: Piece| p@)
}

/// A piece with a text and a colour.
pub open spec fn inked(text: Seq<char>, ink: Ink) -> PieceView {
    PieceView { text, ink }
}

proof fn lemma_pieces_push(v: Seq<Piece>, p: Piece)
    ensures
        pieces(v.push(p)) == pieces(v).push(p@),
{
    assert(pieces(v.push(p)) =~= pieces(v).push(p@));
}

/// What a line reads.
pub open spec fn rendered(line: Seq<PieceView>) -> Seq<char>
    decreases line.len(),
{
    if line.len() == 0 {
        seq![]
    } else {
        line[0].text + rendered(line.drop_first())
    }
}

// ------------------------------------------------------------------ fitting the width

/// The mark of an elision.
pub open spec fn ellipsis() -> PieceView {
    inked(seq!['\u{2026}'], Ink::Dim)
}

/// The line without its first `excess` characters.
pub open spec fn cut(line: Seq<PieceView>, excess: int) -> Seq<PieceView>
    decreases line.len(),
{
    if excess <= 0 || line.len() == 0 {
        line
    } else {
        let p = line[0];
        if p.text.len() <= excess {
            cut(line.drop_first(), excess - p.text.len())
        } else {
            seq![inked(p.text.skip(excess), p.ink)] + line.drop_first()
        }
    }
}

/// The line, trimmed to `width` columns, keeping the tail of the path, which is the informative
/// end. Where anything is left out, a mark stands in its place.
pub open spec fn fitted(line: Seq<PieceView>, width: nat) -> Seq<PieceView> {
    if width == 0 {
        seq![]
    } else if rendered(line).len() <= width {
        line
    } else {
        seq![ellipsis()] + cut(line, rendered(line).len() - width + 1)
    }
}

fn rendered_len(line: &Vec<Piece>) -> (r: Option<usize>)
    ensures
        match r {
            Some(n) => n == rendered(pieces(line@)).len(),
            None => rendered(pieces(line@)).len() > usize::MAX,
        },
{
    let mut total: usize = 0;
    let mut i: usize = line.len();
    let ghost ps = pieces(line@);
    proof {
        assert(ps.skip(ps.len() as int) =~= Seq::<PieceView>::empty());
    }
    while i > 0
        invariant
            ps == pieces(line@),
            ps.len() == line@.len(),
            i <= line@.len(),
            total == rendered(ps.skip(i as int)).len(),
        decreases i,
    {
        let cs = text::chars_of(line[i - 1].text.as_str());
        proof {
            let tail = ps.skip(i - 1);
            assert(tail[0] == line@[i - 1]@);
            assert(tail.drop_first() =~= ps.skip(i as int));
            lemma_rendered_skip(ps, i - 1);
        }
        match total.checked_add(cs.len()) {
            Some(t) => {
                total = t;
            },
            None => {
                return None;
            },
        }
        i -= 1;
    }
    proof {
        assert(ps.skip(0) =~= ps);
    }
    Some(total)
}

/// A line reads at least as long as what remains of it.
proof fn lemma_rendered_skip(line: Seq<PieceView>, n: int)
    requires
        0 <= n <= line.len(),
    ensures
        rendered(line.skip(n)).len() <= rendered(line).len(),
    decreases n,
{
    if n == 0 {
        assert(line.skip(0) =~= line);
    } else {
        lemma_rendered_skip(line.drop_first(), n - 1);
        assert(line.drop_first().skip(n - 1) =~= line.skip(n));
    }
}

/// Trims a styled line to `width` columns.
pub fn truncate_spans(line: Vec<Piece>, width: usize) -> (r: Vec<Piece>)
    requires
        rendered(pieces(line@)).len() < usize::MAX,
    ensures
        pieces(r@) == fitted(pieces(line@), width as nat),
{
    if width == 0 {
        let v: Vec<Piece> = Vec::new();
        proof {
            assert(pieces(v@) =~= Seq::<PieceView>::empty());
        }
        return v;
    }
    let total: usize = match rendered_len(&line) {
        Some(n) => n,
        None => 0,
    };
    if total <= width {
        return line;
    }
    let ghost ps = pieces(line@);
    let mut excess: usize = total - width + 1;
    let ghost want = seq![ellipsis()] + cut(ps, excess as int);
    let mut i: usize = 0;
    let mut out: Vec<Piece> = Vec::new();
    let mut mark = String::new();
    mark.push('\u{2026}');
    proof {
        assert(ps.skip(0) =~= ps);
        assert(mark@ =~= seq!['\u{2026}']);
    }
    out.push(Piece { text: mark, ink: Ink::Dim });
    proof {
        assert(pieces(out@) =~= seq![ellipsis()]);
    }
    while i < line.len() && excess > 0
        invariant
            ps == pieces(line@),
            ps.len() == line@.len(),
            i <= line@.len(),
            want == pieces(out@) + cut(ps.skip(i as int), excess as int),
        decreases line@.len() - i,
    {
        let cs = text::chars_of(line[i].text.as_str());
        let n: usize = cs.len();
        let ghost tail = ps.skip(i as int);
        proof {
            assert(tail[0] == line@[i as int]@);
            assert(tail.drop_first() =~= ps.skip(i + 1));
        }
        if n <= excess {
            excess = excess - n;
        } else {
            let kept = text::from_chars(&cs[excess..n]);
            let b = Piece { text: kept, ink: line[i].ink };
            proof {
                assert(kept@ =~= tail[0].text.skip(excess as int));
                lemma_pieces_push(out@, b);
                assert(pieces(out@) + (seq![b@] + ps.skip(i + 1)) =~= pieces(out@).push(b@) + ps.skip(
                    i + 1,
                ));
            }
            out.push(b);
            excess = 0;
        }
        i += 1;
    }
    while i < line.len()
        invariant
            ps == pieces(line@),
            ps.len() == line@.len(),
            i <= line@.len(),
            want == pieces(out@) + ps.skip(i as int),
        decreases line@.len() - i,
    {
        let p = Piece { text: line[i].text.as_str().to_owned(), ink: line[i].ink };
        proof {
            lemma_pieces_push(out@, p);
            assert(ps[i as int] == line@[i as int]@);
            assert(pieces(out@).push(p@) + ps.skip(i + 1) =~= pieces(out@) + ps.skip(i as int));
        }
        out.push(p);
        i += 1;
    }
    proof {
        assert(pieces(out@) + ps.skip(i as int) =~= pieces(out@));
    }
    out
}

proof fn lemma_rendered_concat(a: Seq<PieceView>, b: Seq<PieceView>)
    ensures
        rendered(a + b) == rendered(a) + rendered(b),
    decreases a.len(),
{
    if a.len() == 0 {
        assert(a + b =~= b);
        assert(rendered(a) + rendered(b) =~= rendered(b));
    } else {
        lemma_rendered_concat(a.drop_first(), b);
        assert((a + b).drop_first() =~= a.drop_first() + b);
        assert(rendered(a + b) =~= rendered(a) + rendered(b));
    }
}

/// What is left of a line reads as its last characters.
proof fn lemma_cut(line: Seq<PieceView>, excess: int)
    requires
        0 <= excess <= rendered(line).len(),
    ensures
        rendered(cut(line, excess)) == rendered(line).skip(excess),
    decreases line.len(),
{
    if excess == 0 {
        assert(rendered(line).skip(0) =~= rendered(line));
    } else if line.len() > 0 {
        let p = line[0];
        let rest = line.drop_first();
        if p.text.len() <= excess {
            lemma_cut(rest, excess - p.text.len());
            assert(rendered(line).skip(excess) =~= rendered(rest).skip(excess - p.text.len()));
        } else {
            let a = seq![inked(p.text.skip(excess), p.ink)];
            lemma_rendered_concat(a, rest);
            lemma_rendered_one(inked(p.text.skip(excess), p.ink));
            assert(rendered(line).skip(excess) =~= p.text.skip(excess) + rendered(rest));
        }
    }
}

proof fn lemma_rendered_one(p: PieceView)
    ensures
        rendered(seq![p]) == p.text,
{
    assert(seq![p].drop_first() =~= Seq::<PieceView>::empty());
    assert(rendered(seq![p].drop_first()) =~= Seq::<char>::empty());
    assert(rendered(seq![p]) =~= p.text);
}

/// A fitted line is never wider than asked for.
pub proof fn a_fitted_line_fits(line: Seq<PieceView>, width: nat)
    ensures
        rendered(fitted(line, width)).len() <= width,
{
    if width > 0 {
        a_fitted_line_keeps_its_tail(line, width);
    }
}

/// A line that fits is left as it is; one that does not reads as a mark and its last characters,
/// one fewer than the width.
pub proof fn a_fitted_line_keeps_its_tail(line: Seq<PieceView>, width: nat)
    requires
        width > 0,
    ensures
        rendered(line).len() <= width ==> fitted(line, width) == line,
        rendered(line).len() > width ==> rendered(fitted(line, width)) == seq!['\u{2026}']
            + rendered(line).skip(rendered(line).len() - width + 1),
{
    if rendered(line).len() > width {
        let excess = rendered(line).len() - width + 1;
        lemma_cut(line, excess);
        lemma_rendered_concat(seq![ellipsis()], cut(line, excess));
        lemma_rendered_one(ellipsis());
    }
}

// ------------------------------------------------------------------ the lines

fn piece(t: &str, ink: Ink) -> (r: Piece)
    ensures
        r@ == inked(t@, ink),
{
    Piece { text: t.to_owned(), ink }
}

/// The block that marks the cursor.
pub open spec fn cursor() -> Seq<char> {
    seq!['\u{2588}']
}

fn cursor_piece() -> (r: Piece)
    ensures
        r@ == inked(cursor(), Ink::Accent),
{
    let mut s = String::new();
    s.push('\u{2588}');
    proof {
        assert(s@ =~= cursor());
    }
    Piece { text: s, ink: Ink::Accent }
}

/// The scope of a query as it is shown: the directories in brackets.
pub open spec fn scope_text(scope: Seq<Seq<char>>, home: Option<String>) -> Seq<char> {
    "["@ + text::joined(scope.map_values(|p: Seq<char>| search::tilded(p, home)), " "@) + "] "@
}

fn write_scope(scope: &Vec<String>, home: &Option<String>) -> (r: String)
    ensures
        r@ == scope_text(text::views(scope@), *home),
{
    let mut parts: Vec<String> = Vec::new();
    let ghost all = text::views(scope@).map_values(|p: Seq<char>| search::tilded(p, *home));
    let mut i: usize = 0;
    proof {
        assert(text::views(parts@) =~= all.take(0));
    }
    while i < scope.len()
        invariant
            all == text::views(scope@).map_values(|p: Seq<char>| search::tilded(p, *home)),
            i <= scope@.len(),
            text::views(parts@) == all.take(i as int),
        decreases scope@.len() - i,
    {
        let s = tilde(scope[i].as_str(), home);
        proof {
            text::lemma_views_push(parts@, s);
            assert(text::views(scope@)[i as int] == scope@[i as int]@);
            assert(all.take(i + 1) =~= all.take(i as int).push(s@));
        }
        parts.push(s);
        i += 1;
    }
    proof {
        assert(all.take(all.len() as int) =~= all);
    }
    let mut out = "[".to_owned();
    let joined = text::join(&parts, " ");
    out.append(joined.as_str());
    out.append("] ");
    proof {
        assert(out@ =~= scope_text(text::views(scope@), *home));
    }
    out
}

/// The query line: the scope, the text with a cursor while it is edited, and the number of matches.
pub open spec fn query_pieces(
    scope: Seq<Seq<char>>,
    query: Seq<char>,
    editing: bool,
    matches: nat,
    home: Option<String>,
) -> Seq<PieceView> {
    seq![inked("wom "@, Ink::AccentBold)] + (if scope.len() > 0 {
        seq![inked(scope_text(scope, home), Ink::Dim)]
    } else {
        seq![]
    }) + seq![inked(query, Ink::Plain)] + (if editing {
        seq![inked(cursor(), Ink::Accent)]
    } else {
        seq![]
    }) + seq![inked("   "@ + text::decimal(matches) + " matches"@, Ink::Dim)]
}

/// The query line.
pub fn query_line(b: &Browser, home: &Option<String>) -> (r: Vec<Piece>)
    ensures
        pieces(r@) == query_pieces(
            text::views(b.req.scope@),
            b.req.text@,
            b.editing,
            b.results@.len(),
            *home,
        ),
{
    let mut v: Vec<Piece> = Vec::new();
    v.push(piece("wom ", Ink::AccentBold));
    proof {
        assert(text::views(b.req.scope@).len() == b.req.scope@.len());
    }
    if b.req.scope.len() > 0 {
        v.push(Piece { text: write_scope(&b.req.scope, home), ink: Ink::Dim });
    }
    v.push(piece(b.req.text.as_str(), Ink::Plain));
    if b.editing {
        v.push(cursor_piece());
    }
    let mut n = "   ".to_owned();
    n.append(text::dec(b.results.len() as u64).as_str());
    n.append(" matches");
    v.push(Piece { text: n, ink: Ink::Dim });
    proof {
        assert(pieces(v@) =~= query_pieces(
            text::views(b.req.scope@),
            b.req.text@,
            b.editing,
            b.results@.len(),
            *home,
        ));
    }
    v
}

/// The scores before a result: the similarity, or a dash, and the reranker's score if there is one.
pub open spec fn score_pieces(cosine: Option<String>, rerank: Option<String>) -> Seq<PieceView> {
    seq![
        inked(
            match cosine {
                Some(c) => c@,
                None => "  -  "@,
            },
            Ink::Dim,
        ),
    ] + (match rerank {
        Some(r) => seq![inked(r@, Ink::Dim)],
        None => seq![],
    })
}

/// The path of a result: a directory is tagged; of a file, the directory part is dimmed so the name
/// stands out.
pub open spec fn path_pieces(kind: ResultKind, full: Seq<char>) -> Seq<PieceView> {
    match kind {
        ResultKind::Dir => seq![inked("directory:"@, Ink::Warm), inked(full, Ink::WarmBold)],
        ResultKind::File => match path::last_index(full, '/') {
            Some(i) => seq![
                inked(full.take(i + 1), Ink::Dim),
                inked(full.skip(i + 1), Ink::Plain),
            ],
            None => seq![inked(full, Ink::Plain)],
        },
    }
}

/// The line of a result; the scores, if they are shown, come as text.
pub fn result_line(
    r: &SearchResult,
    show_scores: bool,
    cosine: &Option<String>,
    rerank: &Option<String>,
    home: &Option<String>,
) -> (out: Vec<Piece>)
    ensures
        pieces(out@) == (if show_scores {
            score_pieces(*cosine, *rerank)
        } else {
            Seq::<PieceView>::empty()
        }) + path_pieces(r.kind, search::tilded(r.path@, *home)),
{
    let mut v: Vec<Piece> = Vec::new();
    if show_scores {
        match cosine {
            Some(c) => {
                v.push(piece(c.as_str(), Ink::Dim));
            },
            None => {
                v.push(piece("  -  ", Ink::Dim));
            },
        }
        match rerank {
            Some(s) => {
                v.push(piece(s.as_str(), Ink::Dim));
            },
            None => {},
        }
    }
    let ghost head = if show_scores {
        score_pieces(*cosine, *rerank)
    } else {
        Seq::<PieceView>::empty()
    };
    proof {
        assert(pieces(v@) =~= head);
    }
    let full = tilde(r.path.as_str(), home);
    match r.kind {
        ResultKind::Dir => {
            v.push(piece("directory:", Ink::Warm));
            v.push(Piece { text: full, ink: Ink::WarmBold });
        },
        ResultKind::File => {
            let cs = text::chars_of(full.as_str());
            let n: usize = cs.len();
            match find_last(&cs, '/') {
                Some(i) => {
                    let dir = text::from_chars(&cs[0..i + 1]);
                    let name = text::from_chars(&cs[i + 1..n]);
                    proof {
                        assert(dir@ =~= full@.take(i + 1));
                        assert(name@ =~= full@.skip(i + 1));
                    }
                    v.push(Piece { text: dir, ink: Ink::Dim });
                    v.push(Piece { text: name, ink: Ink::Plain });
                },
                None => {
                    v.push(Piece { text: full, ink: Ink::Plain });
                },
            }
        },
    }
    proof {
        assert(pieces(v@) =~= head + path_pieces(r.kind, search::tilded(r.path@, *home)));
    }
    v
}

/// Which arms a result was matched by.
pub open spec fn arms_text(dense: Option<usize>, lexical: Option<usize>) -> Seq<char> {
    match (dense, lexical) {
        (Some(d), Some(l)) => "matched by  meaning (#"@ + text::decimal(d as nat) + ") and text (#"@
            + text::decimal(l as nat) + ")"@,
        (Some(d), None) => "matched by  meaning (#"@ + text::decimal(d as nat) + ")"@,
        (None, Some(l)) => "matched by  text (#"@ + text::decimal(l as nat) + ")"@,
        (None, None) => "matched by  contents of this directory"@,
    }
}

fn write_arms(dense: Option<usize>, lexical: Option<usize>) -> (r: String)
    ensures
        r@ == arms_text(dense, lexical),
{
    match (dense, lexical) {
        (Some(d), Some(l)) => {
            let mut s = "matched by  meaning (#".to_owned();
            s.append(text::dec(d as u64).as_str());
            s.append(") and text (#");
            s.append(text::dec(l as u64).as_str());
            s.append(")");
            s
        },
        (Some(d), None) => {
            let mut s = "matched by  meaning (#".to_owned();
            s.append(text::dec(d as u64).as_str());
            s.append(")");
            s
        },
        (None, Some(l)) => {
            let mut s = "matched by  text (#".to_owned();
            s.append(text::dec(l as u64).as_str());
            s.append(")");
            s
        },
        (None, None) => "matched by  contents of this directory".to_owned(),
    }
}

/// The last part of a preview: how many files a directory holds, or what a file says.
pub open spec fn contents_text(r: SearchResult) -> Seq<char> {
    match r.file_count {
        Some(n) => "directory holding "@ + text::signed_decimal(n as int) + " indexed files"@,
        None => if r.snippet@.len() == 0 {
            "(no extracted text; matched on path and name)"@
        } else {
            r.snippet@
        },
    }
}

/// The preview of a result; its similarity, if it has one, comes as text.
pub open spec fn preview_text(r: SearchResult, cosine: Option<String>, home: Option<String>) -> Seq<
    char,
> {
    search::tilded(r.path@, home) + "\n\n"@ + (match cosine {
        Some(c) => "similarity  "@ + c@ + "\n"@,
        None => Seq::<char>::empty(),
    }) + arms_text(r.dense_rank, r.lexical_rank) + "\n\n"@ + contents_text(r)
}

/// What the preview pane says of the selected result.
pub fn preview(selected: Option<&SearchResult>, cosine: &Option<String>, home: &Option<String>) -> (out:
    String)
    ensures
        out@ == match selected {
            None => "Nothing selected."@,
            Some(r) => preview_text(*r, *cosine, *home),
        },
{
    match selected {
        None => "Nothing selected.".to_owned(),
        Some(r) => {
            let mut s = tilde(r.path.as_str(), home);
            s.append("\n\n");
            match cosine {
                Some(c) => {
                    s.append("similarity  ");
                    s.append(c.as_str());
                    s.append("\n");
                },
                None => {},
            }
            s.append(write_arms(r.dense_rank, r.lexical_rank).as_str());
            s.append("\n\n");
            match r.file_count {
                Some(n) => {
                    s.append("directory holding ");
                    s.append(text::dec_signed(n).as_str());
                    s.append(" indexed files");
                },
                None => {
                    if text::chars_of(r.snippet.as_str()).len() == 0 {
                        s.append("(no extracted text; matched on path and name)");
                    } else {
                        s.append(r.snippet.as_str());
                    }
                },
            }
            proof {
                assert(s@ =~= preview_text(*r, *cosine, *home));
            }
            s
        },
    }
}

/// The title of the result pane.
pub fn results_title(matches: usize) -> (r: &'static str)
    ensures
        r@ == if matches == 0 {
            " no matches "@
        } else {
            " results "@
        },
{
    if matches == 0 {
        " no matches "
    } else {
        " results "
    }
}

/// The line that asks for a file name.
pub fn save_line(name: &str) -> (r: Vec<Piece>)
    ensures
        pieces(r@) == seq![
            inked("save to: "@, Ink::Accent),
            inked(name@, Ink::Plain),
            inked(cursor(), Ink::Accent),
            inked("   (Enter to write, Esc to cancel)"@, Ink::Dim),
        ],
{
    let mut v: Vec<Piece> = Vec::new();
    v.push(piece("save to: ", Ink::Accent));
    v.push(piece(name, Ink::Plain));
    v.push(cursor_piece());
    v.push(piece("   (Enter to write, Esc to cancel)", Ink::Dim));
    proof {
        assert(pieces(v@) =~= seq![
            inked("save to: "@, Ink::Accent),
            inked(name@, Ink::Plain),
            inked(cursor(), Ink::Accent),
            inked("   (Enter to write, Esc to cancel)"@, Ink::Dim),
        ]);
    }
    v
}

/// A key and what it does.
pub open spec fn hint_pieces(key: Seq<char>, what: Seq<char>) -> Seq<PieceView> {
    seq![inked(key, Ink::AccentBold), inked(what, Ink::Dim)]
}

/// The key hints, two blanks apart; the desktop's key only where there is a desktop.
pub open spec fn hints(has_desktop: bool) -> Seq<PieceView> {
    let gap = seq![inked("  "@, Ink::Plain)];
    hint_pieces("j/k"@, " move"@) + gap + hint_pieces("Enter"@, " open"@) + gap + hint_pieces(
        "d"@,
        " terminal"@,
    ) + gap + hint_pieces("e"@, " editor"@) + gap + (if has_desktop {
        hint_pieces("x"@, " xdg-open"@) + gap
    } else {
        seq![]
    }) + hint_pieces("s"@, " save"@) + gap + hint_pieces("y"@, " copy"@) + gap + hint_pieces(
        "/"@,
        " refine"@,
    ) + gap + hint_pieces("q"@, " quit"@)
}

fn push_hint(v: &mut Vec<Piece>, key: &str, what: &str, more: bool)
    ensures
        pieces(final(v)@) == pieces(old(v)@) + hint_pieces(key@, what@) + (if more {
            seq![inked("  "@, Ink::Plain)]
        } else {
            seq![]
        }),
{
    v.push(piece(key, Ink::AccentBold));
    v.push(piece(what, Ink::Dim));
    if more {
        v.push(piece("  ", Ink::Plain));
    }
    proof {
        assert(pieces(v@) =~= pieces(old(v)@) + hint_pieces(key@, what@) + (if more {
            seq![inked("  "@, Ink::Plain)]
        } else {
            seq![]
        }));
    }
}

/// The line of key hints.
pub fn hint_line(has_desktop: bool) -> (r: Vec<Piece>)
    ensures
        pieces(r@) == hints(has_desktop),
{
    let mut v: Vec<Piece> = Vec::new();
    push_hint(&mut v, "j/k", " move", true);
    push_hint(&mut v, "Enter", " open", true);
    push_hint(&mut v, "d", " terminal", true);
    push_hint(&mut v, "e", " editor", true);
    if has_desktop {
        push_hint(&mut v, "x", " xdg-open", true);
    }
    push_hint(&mut v, "s", " save", true);
    push_hint(&mut v, "y", " copy", true);
    push_hint(&mut v, "/", " refine", true);
    push_hint(&mut v, "q", " quit", false);
    proof {
        assert(pieces(v@) =~= hints(has_desktop));
    }
    v
}

// ------------------------------------------------------------------ notices

/// A transient message.
#[derive(Debug, Clone)]
pub struct Notice {
    pub text: String,
    pub warning: bool,
}

fn notice(before: &str, what: &str, warning: bool) -> (r: Notice)
    ensures
        r.text@ == before@ + what@,
        r.warning == warning,
{
    let mut s = before.to_owned();
    s.append(what);
    Notice { text: s, warning }
}

/// What became of an attempt: a note on what was done, or a warning on why it was not.
pub open spec fn outcome_text(before: Seq<char>, what: Seq<char>, failure: Option<String>) -> Seq<char> {
    match failure {
        Some(e) => e@,
        None => before + what,
    }
}

fn outcome(before: &str, what: &str, failure: &Option<String>) -> (r: Notice)
    ensures
        r.text@ == outcome_text(before@, what@, *failure),
        r.warning == (failure is Some),
{
    match failure {
        Some(e) => Notice { text: e.as_str().to_owned(), warning: true },
        None => notice(before, what, false),
    }
}

/// The notice after opening a terminal.
pub fn terminal_notice(dir: &str, failure: &Option<String>) -> (r: Notice)
    ensures
        r.text@ == outcome_text("opened terminal in "@, dir@, *failure),
        r.warning == (failure is Some),
{
    outcome("opened terminal in ", dir, failure)
}

/// The notice after handing a path to the desktop.
pub fn desktop_notice(p: &str, failure: &Option<String>) -> (r: Notice)
    ensures
        r.text@ == outcome_text("opened "@, p@, *failure),
        r.warning == (failure is Some),
{
    outcome("opened ", p, failure)
}

/// The notice after copying a path.
pub fn copy_notice(tool: &str, failure: &Option<String>) -> (r: Notice)
    ensures
        r.text@ == outcome_text("copied path with "@, tool@, *failure),
        r.warning == (failure is Some),
{
    outcome("copied path with ", tool, failure)
}

/// The notice after saving the results.
pub fn save_notice(count: usize, p: &str, failure: &Option<String>) -> (r: Notice)
    ensures
        r.text@ == outcome_text(
            "saved "@ + text::decimal(count as nat) + " results to "@,
            p@,
            *failure,
        ),
        r.warning == (failure is Some),
{
    let mut s = "saved ".to_owned();
    s.append(text::dec(count as u64).as_str());
    s.append(" results to ");
    outcome(s.as_str(), p, failure)
}

/// The notice after a search that failed.
pub fn search_notice(e: &str) -> (r: Notice)
    ensures
        r.text@ == "search failed: "@ + e@,
        r.warning,
{
    notice("search failed: ", e, true)
}

/// The notice after an editor that could not be run.
pub fn editor_notice(e: &str) -> (r: Notice)
    ensures
        r.text@ == "could not run editor: "@ + e@,
        r.warning,
{
    notice("could not run editor: ", e, true)
}

// ------------------------------------------------------------------ laws

/// A line reads as its pieces, one after the other.
pub proof fn a_line_reads_piece_by_piece(a: Seq<PieceView>, b: Seq<PieceView>, p: PieceView)
    ensures
        rendered(a + b) == rendered(a) + rendered(b),
        rendered(seq![p]) == p.text,
{
    lemma_rendered_concat(a, b);
    lemma_rendered_one(p);
}

proof fn lemma_rendered_two(p: PieceView, q: PieceView)
    ensures
        rendered(seq![p, q]) == p.text + q.text,
{
    assert(seq![p, q] =~= seq![p] + seq![q]);
    a_line_reads_piece_by_piece(seq![p], seq![q], p);
    lemma_rendered_one(q);
}

/// The path of a result is shown whole, a directory's behind its tag; and the name of a file, drawn
/// apart from what leads to it, is what follows the last slash.
pub proof fn the_path_is_shown_whole(full: Seq<char>)
    ensures
        rendered(path_pieces(ResultKind::File, full)) == full,
        rendered(path_pieces(ResultKind::Dir, full)) == "directory:"@ + full,
        path_pieces(ResultKind::File, full).last().ink == Ink::Plain,
        !path_pieces(ResultKind::File, full).last().text.contains('/'),
        path_pieces(ResultKind::File, full).len() == if full.contains('/') {
            2int
        } else {
            1
        },
{
    path::lemma_last_index(full, '/');
    lemma_rendered_two(inked("directory:"@, Ink::Warm), inked(full, Ink::WarmBold));
    match path::last_index(full, '/') {
        Some(i) => {
            lemma_rendered_two(
                inked(full.take(i + 1), Ink::Dim),
                inked(full.skip(i + 1), Ink::Plain),
            );
            assert(full.take(i + 1) + full.skip(i + 1) =~= full);
            assert(full[i] == '/');
            let tail = full.skip(i + 1);
            assert(!tail.contains('/')) by {
                if tail.contains('/') {
                    let k = choose|k: int| 0 <= k < tail.len() && tail[k] == '/';
                    assert(full[i + 1 + k] == '/');
                }
            }
        },
        None => {
            lemma_rendered_one(inked(full, Ink::Plain));
        },
    }
}

/// The query line reads the program's name, the scope where there is one, the query, a cursor while
/// it is edited, and the number of matches.
pub proof fn the_query_line_shows_the_query(
    scope: Seq<Seq<char>>,
    query: Seq<char>,
    matches: nat,
    home: Option<String>,
)
    requires
        scope.len() > 0,
    ensures
        rendered(query_pieces(seq![], query, false, matches, home)) == "wom "@ + query + ("   "@
            + text::decimal(matches) + " matches"@),
        rendered(query_pieces(seq![], query, true, matches, home)) == "wom "@ + query + seq![
            '\u{2588}',
        ] + ("   "@ + text::decimal(matches) + " matches"@),
        rendered(query_pieces(scope, query, false, matches, home)) == "wom "@ + scope_text(
            scope,
            home,
        ) + query + ("   "@ + text::decimal(matches) + " matches"@),
        rendered(query_pieces(scope, query, true, matches, home)) == "wom "@ + scope_text(
            scope,
            home,
        ) + query + seq!['\u{2588}'] + ("   "@ + text::decimal(matches) + " matches"@),
{
    lemma_query_reads(seq![], query, false, matches, home);
    lemma_query_reads(seq![], query, true, matches, home);
    lemma_query_reads(scope, query, false, matches, home);
    lemma_query_reads(scope, query, true, matches, home);
    let count = "   "@ + text::decimal(matches) + " matches"@;
    assert("wom "@ + Seq::<char>::empty() + query + Seq::<char>::empty() + count =~= "wom "@ + query
        + count);
    assert("wom "@ + Seq::<char>::empty() + query + cursor() + count =~= "wom "@ + query + seq![
        '\u{2588}',
    ] + count);
    assert("wom "@ + scope_text(scope, home) + query + Seq::<char>::empty() + count =~= "wom "@
        + scope_text(scope, home) + query + count);
}

proof fn lemma_query_reads(
    scope: Seq<Seq<char>>,
    query: Seq<char>,
    editing: bool,
    matches: nat,
    home: Option<String>,
)
    ensures
        rendered(query_pieces(scope, query, editing, matches, home)) == "wom "@ + (if scope.len()
            > 0 {
            scope_text(scope, home)
        } else {
            Seq::<char>::empty()
        }) + query + (if editing {
            cursor()
        } else {
            Seq::<char>::empty()
        }) + ("   "@ + text::decimal(matches) + " matches"@),
{
    let a = seq![inked("wom "@, Ink::AccentBold)];
    let b = if scope.len() > 0 {
        seq![inked(scope_text(scope, home), Ink::Dim)]
    } else {
        seq![]
    };
    let c = seq![inked(query, Ink::Plain)];
    let d = if editing {
        seq![inked(cursor(), Ink::Accent)]
    } else {
        seq![]
    };
    let e = seq![inked("   "@ + text::decimal(matches) + " matches"@, Ink::Dim)];
    lemma_rendered_one(a[0]);
    lemma_rendered_one(c[0]);
    lemma_rendered_one(e[0]);
    if scope.len() > 0 {
        lemma_rendered_one(b[0]);
    }
    if editing {
        lemma_rendered_one(d[0]);
    }
    lemma_rendered_concat(a, b);
    lemma_rendered_concat(a + b, c);
    lemma_rendered_concat(a + b + c, d);
    lemma_rendered_concat(a + b + c + d, e);
    assert(rendered(Seq::<PieceView>::empty()) =~= Seq::<char>::empty());
}

/// The preview says where a result was found: in the arm that found it and at which place, in both,
/// or in neither.
pub proof fn the_preview_names_the_arms(d: usize, l: usize)
    ensures
        arms_text(Some(d), Some(l)) == "matched by  meaning (#"@ + text::decimal(d as nat)
            + ") and text (#"@ + text::decimal(l as nat) + ")"@,
        arms_text(Some(d), None) == "matched by  meaning (#"@ + text::decimal(d as nat) + ")"@,
        arms_text(None, Some(l)) == "matched by  text (#"@ + text::decimal(l as nat) + ")"@,
        arms_text(None, None) == "matched by  contents of this directory"@,
{
}

/// The preview ends with how many files a directory holds, or with the text of a file, if it has
/// any, and begins with the path.
pub proof fn the_preview_ends_with_the_contents(
    r: SearchResult,
    cosine: Option<String>,
    home: Option<String>,
)
    ensures
        ({
            let t = preview_text(r, cosine, home);
            let p = search::tilded(r.path@, home);
            let c = contents_text(r);
            &&& t.len() >= p.len() + c.len()
            &&& t.take(p.len() as int) == p
            &&& t.skip(t.len() - c.len()) == c
            &&& r.file_count is Some ==> c == "directory holding "@ + text::signed_decimal(
                r.file_count->0 as int,
            ) + " indexed files"@
            &&& r.file_count is None && r.snippet@.len() > 0 ==> c == r.snippet@
            &&& r.file_count is None && r.snippet@.len() == 0 ==> c
                == "(no extracted text; matched on path and name)"@
        }),
{
    let t = preview_text(r, cosine, home);
    let p = search::tilded(r.path@, home);
    let c = contents_text(r);
    assert(t.take(p.len() as int) =~= p);
    assert(t.skip(t.len() - c.len()) =~= c);
}

/// What failed is told in place of what was done.
pub proof fn a_failure_is_told(before: Seq<char>, what: Seq<char>, e: String)
    ensures
        outcome_text(before, what, Some(e)) == e@,
        outcome_text(before, what, None) == before + what,
{
}

/// Every key has its hint; that of the desktop only where there is one.
pub proof fn every_key_has_its_hint()
    ensures
        hints(true).len() == 26,
        hints(false).len() == 23,
        seq![
            hints(true)[0].text,
            hints(true)[3].text,
            hints(true)[6].text,
            hints(true)[9].text,
            hints(true)[12].text,
            hints(true)[15].text,
            hints(true)[18].text,
            hints(true)[21].text,
            hints(true)[24].text,
        ] == seq!["j/k"@, "Enter"@, "d"@, "e"@, "x"@, "s"@, "y"@, "/"@, "q"@],
        hints(false).take(12) == hints(true).take(12),
        hints(false).skip(12) == hints(true).skip(15),
{
    assert(hints(false).take(12) =~= hints(true).take(12));
    assert(hints(false).skip(12) =~= hints(true).skip(15));
}

} // verus!
