//! The tables and lines that the subcommands print.
//!
//! Times, rates and similarities come in as text, since they are measured and written in floating
//! point by the caller.
use crate::bench;
use crate::bench::{Missed, RecallReport};
use crate::chars;
use crate::commands;
use crate::commands::{coverage_line, elide, model_marker, model_note, name_of_refresh, Coverage, Proposal};
use crate::config::{Refresh, Root};
use crate::embed;
use crate::embed::{registry, ModelSpec, Pooling};
use crate::fusion::ResultKind;
use crate::rerank;
use crate::rerank::{reranker_registry, RerankerSpec};
use crate::search::SearchResult;
use crate::text;
use crate::walk::PROBE_CAP;
use vstd::prelude::*;

verus! {

/// One more line.
fn say(out: &mut Vec<String>, line: String)
    ensures
        text::views(final(out)@) == text::views(old(out)@).push(line@),
{
    proof {
        text::lemma_views_push(out@, line);
    }
    out.push(line);
}

fn two(a: &str, b: &str) -> (r: String)
    ensures
        r@ == a@ + b@,
{
    let mut s = a.to_owned();
    s.append(b);
    s
}

// ------------------------------------------------------------------ init

/// A row of the table of proposed roots.
pub open spec fn root_row(path: Seq<char>, files: Seq<char>, profile: Seq<char>) -> Seq<char> {
    text::flush_left(path, 44) + " "@ + text::flush_right(files, 10) + "  "@ + profile
}

fn write_root_row(path: &str, files: &str, profile: &str) -> (r: String)
    ensures
        r@ == root_row(path@, files@, profile@),
{
    let mut s = text::to_left(path, 44);
    s.append(" ");
    s.append(text::to_right(files, 10).as_str());
    s.append("  ");
    s.append(profile);
    s
}

/// The rows of the table of proposed roots, under their heading. Long paths are shortened from the
/// left.
pub open spec fn root_table(p: Proposal) -> Seq<Seq<char>> {
    seq![root_row("DIRECTORY"@, "FILES"@, "PROFILE"@)] + Seq::new(
        p.roots@.len(),
        |i: int|
            root_row(
                commands::elided(p.roots@[i].path@, 44),
                p.counts@[i]@,
                p.roots@[i].profile.name(),
            ),
    )
}

/// The table of proposed roots.
pub fn proposal_table(p: &Proposal) -> (r: Vec<String>)
    requires
        p.counts@.len() == p.roots@.len(),
    ensures
        text::views(r@) == root_table(*p),
{
    let mut out: Vec<String> = Vec::new();
    let ghost all = root_table(*p);
    say(&mut out, write_root_row("DIRECTORY", "FILES", "PROFILE"));
    let mut i: usize = 0;
    proof {
        assert(text::views(out@) =~= all.take(1));
    }
    while i < p.roots.len()
        invariant
            p.counts@.len() == p.roots@.len(),
            all == root_table(*p),
            i <= p.roots@.len(),
            text::views(out@) == all.take(i + 1),
        decreases p.roots@.len() - i,
    {
        let path = elide(p.roots[i].path.as_str(), 44);
        let row = write_root_row(path.as_str(), p.counts[i].as_str(), p.roots[i].profile.as_str());
        proof {
            assert(all.take(i + 2) =~= all.take(i + 1).push(row@));
        }
        say(&mut out, row);
        i += 1;
    }
    proof {
        assert(all.take(all.len() as int) =~= all);
    }
    out
}

/// What a first index will cost.
pub open spec fn cost_lines(
    p: Proposal,
    m: ModelSpec,
    duration: Seq<char>,
    rate: Seq<char>,
    measured: bool,
) -> Seq<Seq<char>> {
    seq![
        text::decimal(p.total_files as nat) + (if p.truncated {
            "+"@
        } else {
            ""@
        }) + " files, model "@ + m.id@ + " ("@ + text::decimal(m.approx_mb as nat)
            + " MB download)."@,
        "First index will take roughly "@ + duration + " at "@ + rate + " docs/sec ("@ + (
        if measured {
            "measured on this machine"@
        } else {
            "rough estimate; `wom bench` measures it properly"@
        }) + ")."@,
        "Later runs only process what changed."@,
    ] + (if p.truncated {
        seq![
            "Note: at least one directory hit the "@ + text::decimal(PROBE_CAP as nat)
                + " file probe cap, so the"@,
            "real totals are higher than shown."@,
        ]
    } else {
        seq![]
    })
}

/// What a first index will cost; `rate` was measured on this machine or is the registry's estimate.
pub fn cost_report(p: &Proposal, m: &ModelSpec, duration: &str, rate: &str, measured: bool) -> (r: Vec<
    String,
>)
    ensures
        text::views(r@) == cost_lines(*p, *m, duration@, rate@, measured),
{
    let mut out: Vec<String> = Vec::new();
    let mut a = text::dec(p.total_files as u64);
    if p.truncated {
        a.append("+");
    } else {
        a.append("");
    }
    a.append(" files, model ");
    a.append(m.id);
    a.append(" (");
    a.append(text::dec(m.approx_mb).as_str());
    a.append(" MB download).");
    say(&mut out, a);
    let mut b = "First index will take roughly ".to_owned();
    b.append(duration);
    b.append(" at ");
    b.append(rate);
    b.append(" docs/sec (");
    if measured {
        b.append("measured on this machine");
    } else {
        b.append("rough estimate; `wom bench` measures it properly");
    }
    b.append(").");
    say(&mut out, b);
    say(&mut out, "Later runs only process what changed.".to_owned());
    if p.truncated {
        let mut c = "Note: at least one directory hit the ".to_owned();
        c.append(text::dec(PROBE_CAP as u64).as_str());
        c.append(" file probe cap, so the");
        say(&mut out, c);
        say(&mut out, "real totals are higher than shown.".to_owned());
    }
    proof {
        assert(text::views(out@) =~= cost_lines(*p, *m, duration@, rate@, measured));
    }
    out
}

// ------------------------------------------------------------------ search

/// The scores of a result as they are written.
pub struct ScoreTexts {
    pub fused: String,
    pub cosine: Option<String>,
    pub rerank: Option<String>,
}

/// A result as it is shown.
pub open spec fn shown(r: SearchResult) -> Seq<char> {
    match r.kind {
        ResultKind::Dir => "directory:"@ + r.path@,
        ResultKind::File => r.path@,
    }
}

/// A result on a line of its own: alone, or behind the fused score, the cosine and the reranker's
/// score.
pub open spec fn result_text(r: SearchResult, scores: Option<ScoreTexts>) -> Seq<char> {
    match scores {
        None => shown(r),
        Some(s) => s.fused@ + "  "@ + (match s.cosine {
            Some(c) => "cos="@ + c@,
            None => "cos=-    "@,
        }) + (match s.rerank {
            Some(x) => " rr="@ + x@,
            None => ""@,
        }) + "\t"@ + shown(r),
    }
}

/// A result on a line of its own.
pub fn plain_line(r: &SearchResult, scores: &Option<ScoreTexts>) -> (out: String)
    ensures
        out@ == result_text(*r, *scores),
{
    match scores {
        None => r.display(),
        Some(s) => {
            let mut m = two(s.fused.as_str(), "  ");
            match &s.cosine {
                Some(c) => m.append(two("cos=", c.as_str()).as_str()),
                None => m.append("cos=-    "),
            }
            match &s.rerank {
                Some(x) => m.append(two(" rr=", x.as_str()).as_str()),
                None => m.append(""),
            }
            m.append("\t");
            m.append(r.display().as_str());
            m
        },
    }
}

/// Why a search cannot start, if it cannot: it has no words, or there is no index.
pub fn search_refusal(query: &str, index_present: bool) -> (r: Option<&'static str>)
    ensures
        match r {
            Some(m) => if chars::trimmed(query@).len() == 0 {
                m@ == "nothing to search for. Try `wom employment documents`."@
            } else {
                !index_present && m@ == "no index yet. Run `wom init` then `wom index`."@
            },
            None => chars::trimmed(query@).len() > 0 && index_present,
        },
{
    if chars::is_blank(query) {
        Some("nothing to search for. Try `wom employment documents`.")
    } else if !index_present {
        Some("no index yet. Run `wom init` then `wom index`.")
    } else {
        None
    }
}

/// What is said of a search that a gap in the vector index reduces to full text.
pub fn gap_notice(gap: &str) -> (r: String)
    ensures
        r@ == gap@ + "; results are full-text only. Run `wom index --now`."@,
{
    two(gap, "; results are full-text only. Run `wom index --now`.")
}

/// Whether results open in the browser: only where a human watches an interactive terminal, so that
/// piped or redirected output stays plain lines.
pub fn opens_browser(stdin_is_terminal: bool, stdout_is_terminal: bool, no_tui: bool) -> (r: bool)
    ensures
        r == (stdin_is_terminal && stdout_is_terminal && !no_tui),
{
    stdin_is_terminal && stdout_is_terminal && !no_tui
}

// ------------------------------------------------------------------ status

/// What is known of a vector store: whether its file is there, and how many rows it holds, if it
/// opens.
#[derive(Debug, Clone, Copy, PartialEq, Eq)]
pub struct StoreState {
    pub present: bool,
    pub rows: Option<usize>,
}

/// What is shown of the model that built the index.
pub open spec fn model_lines(model: Option<String>, dim: Option<usize>, configured: Seq<char>) -> Seq<
    Seq<char>,
> {
    let id = match model {
        Some(m) => m@,
        None => "-"@,
    };
    seq![
        "model    "@ + id + (match dim {
            Some(d) => " ("@ + text::decimal(d as nat) + "-dim)"@,
            None => ""@,
        }),
    ] + (if id != configured && id != "-"@ {
        seq![
            "         "@ + ("(config says "@ + configured
                + "; run `wom index --rebuild` to switch)"@),
        ]
    } else {
        seq![]
    })
}

/// What is shown of the model that built the index.
pub fn model_status(model: &Option<String>, dim: Option<usize>, configured: &str) -> (r: Vec<String>)
    ensures
        text::views(r@) == model_lines(*model, dim, configured@),
{
    let mut out: Vec<String> = Vec::new();
    let id = match model {
        Some(m) => m.as_str().to_owned(),
        None => "-".to_owned(),
    };
    let mut a = two("model    ", id.as_str());
    match dim {
        Some(d) => {
            let mut b = " (".to_owned();
            b.append(text::dec(d as u64).as_str());
            b.append("-dim)");
            a.append(b.as_str());
        },
        None => a.append(""),
    }
    say(&mut out, a);
    if let Some(note) = model_note(id.as_str(), configured) {
        say(&mut out, two("         ", note.as_str()));
    }
    proof {
        assert(text::views(out@) =~= model_lines(*model, dim, configured@));
    }
    out
}

/// What is shown of the vector stores: how many rows each holds, with the remedy spelled out for
/// the two gaps.
pub open spec fn vector_lines(model: Option<String>, dim: Option<usize>, files: StoreState, dirs: StoreState) -> Seq<
    Seq<char>,
> {
    if dim is None || model is None || model->0@ == "-"@ {
        seq!["vectors  -"@]
    } else {
        seq![
            "vectors  "@ + commands::vector_count_text(files.present, files.rows) + " file, "@
                + commands::vector_count_text(dirs.present, dirs.rows) + " dir"@,
        ] + (if !files.present {
            seq!["         "@ + "(no vector index; run `wom index` to build it)"@]
        } else if files.rows == Some(0usize) {
            seq![
                "         "@
                    + "(empty - indexing was likely interrupted; run `wom index --now`)"@,
            ]
        } else {
            seq![]
        })
    }
}

/// What is shown of the vector stores.
pub fn vector_status(model: &Option<String>, dim: Option<usize>, files: StoreState, dirs: StoreState) -> (r:
    Vec<String>)
    ensures
        text::views(r@) == vector_lines(*model, dim, files, dirs),
{
    let mut out: Vec<String> = Vec::new();
    let known = match model {
        Some(m) => !text::same(m.as_str(), "-"),
        None => false,
    };
    if dim.is_none() || !known {
        say(&mut out, "vectors  -".to_owned());
    } else {
        let mut a = "vectors  ".to_owned();
        a.append(commands::vector_count(files.present, files.rows).as_str());
        a.append(" file, ");
        a.append(commands::vector_count(dirs.present, dirs.rows).as_str());
        a.append(" dir");
        say(&mut out, a);
        if let Some(remedy) = commands::vectors_remedy(files.present, files.rows) {
            say(&mut out, two("         ", remedy));
        }
    }
    proof {
        assert(text::views(out@) =~= vector_lines(*model, dim, files, dirs));
    }
    out
}

/// How much is indexed.
pub struct Totals {
    pub files: i64,
    pub embedded: i64,
    pub dirs: i64,
    pub coverage: Vec<Coverage>,
    /// How long ago the last scan was, as it is written.
    pub scanned: Option<String>,
}

/// What is shown of how much is indexed.
pub open spec fn total_lines(t: Totals) -> Seq<Seq<char>> {
    seq![
        "files    "@ + text::signed_decimal(t.files as int) + " indexed, "@ + text::signed_decimal(
            t.embedded as int,
        ) + " embedded"@,
        "dirs     "@ + text::signed_decimal(t.dirs as int),
    ] + (if t.coverage@.len() > 0 {
        seq!["text     "@ + text::joined(commands::coverage_parts(t.coverage@), ", "@)]
    } else {
        seq![]
    }) + (match t.scanned {
        Some(ago) => seq!["scanned  "@ + ago@ + " ago"@],
        None => seq!["scanned  never"@],
    })
}

/// What is shown of how much is indexed.
pub fn total_status(t: &Totals) -> (r: Vec<String>)
    ensures
        text::views(r@) == total_lines(*t),
{
    let mut out: Vec<String> = Vec::new();
    let mut a = "files    ".to_owned();
    a.append(text::dec_signed(t.files).as_str());
    a.append(" indexed, ");
    a.append(text::dec_signed(t.embedded).as_str());
    a.append(" embedded");
    say(&mut out, a);
    say(&mut out, two("dirs     ", text::dec_signed(t.dirs).as_str()));
    if t.coverage.len() > 0 {
        say(&mut out, two("text     ", coverage_line(&t.coverage).as_str()));
    }
    match &t.scanned {
        Some(ago) => {
            let mut b = two("scanned  ", ago.as_str());
            b.append(" ago");
            say(&mut out, b);
        },
        None => {
            say(&mut out, "scanned  never".to_owned());
        },
    }
    proof {
        assert(text::views(out@) =~= total_lines(*t));
    }
    out
}

/// The verdict on the full-text index.
pub fn verdict(consistent: bool) -> (r: &'static str)
    ensures
        r@ == if consistent {
            "consistent"@
        } else {
            "INCONSISTENT - run `wom index --rebuild`"@
        },
{
    if consistent {
        "consistent"
    } else {
        "INCONSISTENT - run `wom index --rebuild`"
    }
}

/// What is shown of the configured roots; `present[i]` says whether the `i`-th is a directory.
pub open spec fn root_lines(roots: Seq<Root>, present: Seq<bool>) -> Seq<Seq<char>> {
    if roots.len() == 0 {
        seq!["roots"@, "  (none configured)"@]
    } else {
        seq!["roots"@] + Seq::new(
            roots.len(),
            |i: int|
                "  "@ + text::flush_left(roots[i].profile.name(), 10) + " "@ + roots[i].path@ + (
                if present[i] {
                    ""@
                } else {
                    "  [MISSING]"@
                }),
        )
    }
}

/// What is shown of the configured roots.
pub fn root_status(roots: &Vec<Root>, present: &Vec<bool>) -> (r: Vec<String>)
    requires
        present@.len() == roots@.len(),
    ensures
        text::views(r@) == root_lines(roots@, present@),
{
    let mut out: Vec<String> = Vec::new();
    let ghost all = root_lines(roots@, present@);
    say(&mut out, "roots".to_owned());
    if roots.len() == 0 {
        say(&mut out, "  (none configured)".to_owned());
        proof {
            assert(text::views(out@) =~= all);
        }
        return out;
    }
    let mut i: usize = 0;
    proof {
        assert(text::views(out@) =~= all.take(1));
    }
    while i < roots.len()
        invariant
            roots@.len() > 0,
            present@.len() == roots@.len(),
            all == root_lines(roots@, present@),
            i <= roots@.len(),
            text::views(out@) == all.take(i + 1),
        decreases roots@.len() - i,
    {
        let mut s = two("  ", text::to_left(roots[i].profile.as_str(), 10).as_str());
        s.append(" ");
        s.append(roots[i].path.as_str());
        if present[i] {
            s.append("");
        } else {
            s.append("  [MISSING]");
        }
        proof {
            assert(all.take(i + 2) =~= all.take(i + 1).push(s@));
        }
        say(&mut out, s);
        i += 1;
    }
    proof {
        assert(all.take(all.len() as int) =~= all);
    }
    out
}

/// The line that names the schedule.
pub fn refresh_status(r: Refresh) -> (s: String)
    ensures
        s@ == "refresh  "@ + commands::refresh_name(r),
{
    two("refresh  ", name_of_refresh(r))
}

// ------------------------------------------------------------------ models

/// The name of a pooling.
pub open spec fn pooling_name(p: Pooling) -> Seq<char> {
    match p {
        Pooling::Cls => "cls"@,
        Pooling::Mean => "mean"@,
    }
}

/// The mark before a model in the list.
pub open spec fn mark(id: Seq<char>, configured: Seq<char>, indexed: Option<String>) -> Seq<char> {
    if id == configured {
        "*"@
    } else if indexed is Some && indexed->0@ == id {
        "i"@
    } else {
        " "@
    }
}

/// A row of the list of models.
pub open spec fn model_row(m: ModelSpec, configured: Seq<char>, indexed: Option<String>) -> Seq<char> {
    mark(m.id@, configured, indexed) + text::flush_left(m.id@, 25) + " "@ + text::flush_right(
        text::decimal(m.dim as nat),
        5,
    ) + " "@ + text::flush_right(text::decimal(m.approx_mb as nat), 6) + "M "@ + text::flush_right(
        pooling_name(m.pooling),
        9,
    ) + "  "@ + m.note@
}

/// The heading of the list of models.
pub open spec fn model_heading() -> Seq<char> {
    text::flush_left("MODEL"@, 26) + " "@ + text::flush_right("DIM"@, 5) + " "@ + text::flush_right(
        "SIZE"@,
        7,
    ) + " "@ + text::flush_right("POOLING"@, 9) + "  NOTE"@
}

/// The list of models, each marked where it is configured or built the current index.
pub fn model_table(configured: &str, indexed: &Option<String>) -> (r: Vec<String>)
    ensures
        text::views(r@) == seq![model_heading()] + embed::models().map_values(
            |m: ModelSpec| model_row(m, configured@, *indexed),
        ),
{
    let specs = registry();
    let ghost all = seq![model_heading()] + embed::models().map_values(
        |m: ModelSpec| model_row(m, configured@, *indexed),
    );
    let mut out: Vec<String> = Vec::new();
    let mut h = text::to_left("MODEL", 26);
    h.append(" ");
    h.append(text::to_right("DIM", 5).as_str());
    h.append(" ");
    h.append(text::to_right("SIZE", 7).as_str());
    h.append(" ");
    h.append(text::to_right("POOLING", 9).as_str());
    h.append("  NOTE");
    say(&mut out, h);
    let mut i: usize = 0;
    proof {
        assert(text::views(out@) =~= all.take(1));
    }
    while i < specs.len()
        invariant
            specs@ == embed::models(),
            all == seq![model_heading()] + embed::models().map_values(
                |m: ModelSpec| model_row(m, configured@, *indexed),
            ),
            i <= specs@.len(),
            text::views(out@) == all.take(i + 1),
        decreases specs@.len() - i,
    {
        let m = specs[i];
        let mut s = model_marker(m.id, configured, indexed).to_owned();
        s.append(text::to_left(m.id, 25).as_str());
        s.append(" ");
        s.append(text::to_right(text::dec(m.dim as u64).as_str(), 5).as_str());
        s.append(" ");
        s.append(text::to_right(text::dec(m.approx_mb).as_str(), 6).as_str());
        s.append("M ");
        let pooling = match m.pooling {
            Pooling::Cls => "cls",
            Pooling::Mean => "mean",
        };
        s.append(text::to_right(pooling, 9).as_str());
        s.append("  ");
        s.append(m.note);
        proof {
            assert(all[i + 1] == model_row(m, configured@, *indexed));
            assert(all.take(i + 2) =~= all.take(i + 1).push(s@));
        }
        say(&mut out, s);
        i += 1;
    }
    proof {
        assert(all.take(all.len() as int) =~= all);
    }
    out
}

/// A row of the list of rerankers.
pub open spec fn reranker_row(m: RerankerSpec, configured: Seq<char>) -> Seq<char> {
    mark(m.id@, configured, None) + text::flush_left(m.id@, 41) + " "@ + text::flush_right(
        text::decimal(m.approx_mb as nat),
        6,
    ) + "M  "@ + m.note@
}

/// The heading of the list of rerankers.
pub open spec fn reranker_heading() -> Seq<char> {
    text::flush_left("RERANKER"@, 42) + " "@ + text::flush_right("SIZE"@, 7) + "  NOTE"@
}

/// The list of rerankers, the configured one marked.
pub fn reranker_table(configured: &str) -> (r: Vec<String>)
    ensures
        text::views(r@) == seq![reranker_heading()] + rerank::rerankers().map_values(
            |m: RerankerSpec| reranker_row(m, configured@),
        ),
{
    let specs = reranker_registry();
    let ghost all = seq![reranker_heading()] + rerank::rerankers().map_values(
        |m: RerankerSpec| reranker_row(m, configured@),
    );
    let mut out: Vec<String> = Vec::new();
    let mut h = text::to_left("RERANKER", 42);
    h.append(" ");
    h.append(text::to_right("SIZE", 7).as_str());
    h.append("  NOTE");
    say(&mut out, h);
    let mut i: usize = 0;
    proof {
        assert(text::views(out@) =~= all.take(1));
    }
    while i < specs.len()
        invariant
            specs@ == rerank::rerankers(),
            all == seq![reranker_heading()] + rerank::rerankers().map_values(
                |m: RerankerSpec| reranker_row(m, configured@),
            ),
            i <= specs@.len(),
            text::views(out@) == all.take(i + 1),
        decreases specs@.len() - i,
    {
        let m = specs[i];
        let mut s = model_marker(m.id, configured, &None).to_owned();
        s.append(text::to_left(m.id, 41).as_str());
        s.append(" ");
        s.append(text::to_right(text::dec(m.approx_mb).as_str(), 6).as_str());
        s.append("M  ");
        s.append(m.note);
        proof {
            assert(all[i + 1] == reranker_row(m, configured@));
            assert(all.take(i + 2) =~= all.take(i + 1).push(s@));
        }
        say(&mut out, s);
        i += 1;
    }
    proof {
        assert(all.take(all.len() as int) =~= all);
    }
    out
}

// ------------------------------------------------------------------ bench

/// What was measured of a model, as it is written.
pub struct Measured {
    pub id: String,
    pub dim: usize,
    pub load: String,
    pub docs_per_sec: String,
    pub query: String,
    pub margin: String,
    pub cosines: String,
}

/// A row of the table of measurements.
pub open spec fn bench_columns(
    id: Seq<char>,
    dim: Seq<char>,
    load: Seq<char>,
    rate: Seq<char>,
    query: Seq<char>,
    margin: Seq<char>,
    cosines: Seq<char>,
) -> Seq<char> {
    text::flush_left(id, 26) + " "@ + text::flush_right(dim, 5) + " "@ + text::flush_right(load, 7)
        + " "@ + text::flush_right(rate, 10) + " "@ + text::flush_right(query, 9) + " "@
        + text::flush_right(margin, 8) + " "@ + text::flush_right(cosines, 8)
}

fn write_columns(
    id: &str,
    dim: &str,
    load: &str,
    rate: &str,
    query: &str,
    margin: &str,
    cosines: &str,
) -> (r: String)
    ensures
        r@ == bench_columns(id@, dim@, load@, rate@, query@, margin@, cosines@),
{
    let mut s = text::to_left(id, 26);
    s.append(" ");
    s.append(text::to_right(dim, 5).as_str());
    s.append(" ");
    s.append(text::to_right(load, 7).as_str());
    s.append(" ");
    s.append(text::to_right(rate, 10).as_str());
    s.append(" ");
    s.append(text::to_right(query, 9).as_str());
    s.append(" ");
    s.append(text::to_right(margin, 8).as_str());
    s.append(" ");
    s.append(text::to_right(cosines, 8).as_str());
    s
}

/// The heading of the table of measurements.
pub fn bench_heading() -> (r: String)
    ensures
        r@ == bench_columns(
            "MODEL"@,
            "DIM"@,
            "LOAD"@,
            "DOCS/SEC"@,
            "QUERY"@,
            "MARGIN"@,
            "COSINES"@,
        ),
{
    write_columns("MODEL", "DIM", "LOAD", "DOCS/SEC", "QUERY", "MARGIN", "COSINES")
}

/// A row of the table of measurements.
pub fn bench_row(m: &Measured) -> (r: String)
    ensures
        r@ == bench_columns(
            m.id@,
            text::decimal(m.dim as nat),
            m.load@ + "s"@,
            m.docs_per_sec@,
            m.query@ + "ms"@,
            m.margin@,
            m.cosines@,
        ),
{
    write_columns(
        m.id.as_str(),
        text::dec(m.dim as u64).as_str(),
        two(m.load.as_str(), "s").as_str(),
        m.docs_per_sec.as_str(),
        two(m.query.as_str(), "ms").as_str(),
        m.margin.as_str(),
        m.cosines.as_str(),
    )
}

/// An end-to-end rate that a real scan measured, and how long the corpus takes at it.
pub struct Sustained {
    pub rate: String,
    pub duration: String,
}

/// A projection of how long a full index takes.
pub struct Projection {
    pub sustained: Option<Sustained>,
    /// How long the corpus takes by inference alone.
    pub inference: String,
}

/// How long a full index takes with the model `id`: from the rate that scans sustained, where that
/// was measured with this model; else from inference alone. It says which.
pub open spec fn projection_text(id: Seq<char>, configured: Seq<char>, p: Projection) -> Seq<char> {
    "  "@ + text::flush_left(id, 26) + " "@ + (if id == configured && p.sustained is Some {
        p.sustained->0.duration@ + " (at the "@ + p.sustained->0.rate@
            + " docs/sec this machine actually sustained)"@
    } else {
        p.inference@ + " (inference only; extraction and writes will add to this)"@
    })
}

/// How long a full index takes with the model `id`.
pub fn projection_line(id: &str, configured: &str, p: &Projection) -> (r: String)
    ensures
        r@ == projection_text(id@, configured@, *p),
{
    let mut s = two("  ", text::to_left(id, 26).as_str());
    s.append(" ");
    let same = text::same(id, configured);
    match &p.sustained {
        Some(f) => {
            if same {
                let mut t = f.duration.as_str().to_owned();
                t.append(" (at the ");
                t.append(f.rate.as_str());
                t.append(" docs/sec this machine actually sustained)");
                s.append(t.as_str());
                return s;
            }
        },
        None => {},
    }
    let t = two(
        p.inference.as_str(),
        " (inference only; extraction and writes will add to this)",
    );
    s.append(t.as_str());
    s
}

/// What is shown of one golden query that missed.
pub open spec fn missed_lines(m: Missed) -> Seq<Seq<char>> {
    seq!["  MISS \""@ + m.query@ + "\""@] + Seq::new(
        m.top@.len(),
        |i: int| "       got "@ + m.top@[i]@,
    )
}

/// What is shown of all golden queries that missed.
pub open spec fn all_missed_lines(misses: Seq<Missed>) -> Seq<Seq<char>>
    decreases misses.len(),
{
    if misses.len() == 0 {
        seq![]
    } else {
        all_missed_lines(misses.drop_last()) + missed_lines(misses.last())
    }
}

fn say_missed(out: &mut Vec<String>, m: &Missed)
    ensures
        text::views(final(out)@) == text::views(old(out)@) + missed_lines(*m),
{
    let ghost before = text::views(out@);
    let ghost all = missed_lines(*m);
    let mut h = "  MISS \"".to_owned();
    h.append(m.query);
    h.append("\"");
    say(out, h);
    let mut i: usize = 0;
    proof {
        assert(text::views(out@) =~= before + all.take(1));
    }
    while i < m.top.len()
        invariant
            all == missed_lines(*m),
            i <= m.top@.len(),
            text::views(out@) == before + all.take(i + 1),
        decreases m.top@.len() - i,
    {
        let s = two("       got ", m.top[i].as_str());
        proof {
            assert(all.take(i + 2) =~= all.take(i + 1).push(s@));
        }
        say(out, s);
        i += 1;
        proof {
            assert(text::views(out@) =~= before + all.take(i + 1));
        }
    }
    proof {
        assert(all.take(all.len() as int) =~= all);
    }
}

/// What is shown of the golden queries; `p50` and `p95` are latencies in milliseconds.
pub open spec fn recall_lines(r: RecallReport, p50: Seq<char>, p95: Seq<char>) -> Seq<Seq<char>> {
    seq![
        "  "@ + text::decimal(r.hits as nat) + "/"@ + text::decimal(bench::golden_cases().len())
            + " golden queries found their expected answer"@,
        "  latency p50 "@ + p50 + "ms, p95 "@ + p95 + "ms"@,
    ] + all_missed_lines(r.misses@)
}

/// What is shown of the golden queries.
pub fn recall_report(r: &RecallReport, p50: &str, p95: &str) -> (out: Vec<String>)
    ensures
        text::views(out@) == recall_lines(*r, p50@, p95@),
{
    let mut out: Vec<String> = Vec::new();
    let mut a = two("  ", text::dec(r.hits as u64).as_str());
    a.append("/");
    a.append(text::dec(bench::golden().len() as u64).as_str());
    a.append(" golden queries found their expected answer");
    say(&mut out, a);
    let mut b = two("  latency p50 ", p50);
    b.append("ms, p95 ");
    b.append(p95);
    b.append("ms");
    say(&mut out, b);
    let ghost head = text::views(out@);
    let mut i: usize = 0;
    proof {
        assert(all_missed_lines(r.misses@.take(0)) =~= Seq::<Seq<char>>::empty());
        assert(text::views(out@) =~= head + all_missed_lines(r.misses@.take(0)));
    }
    while i < r.misses.len()
        invariant
            i <= r.misses@.len(),
            text::views(out@) == head + all_missed_lines(r.misses@.take(i as int)),
        decreases r.misses@.len() - i,
    {
        say_missed(&mut out, &r.misses[i]);
        proof {
            let next = r.misses@.take(i + 1);
            assert(next.drop_last() =~= r.misses@.take(i as int));
            assert(text::views(out@) =~= head + all_missed_lines(next));
        }
        i += 1;
    }
    proof {
        assert(r.misses@.take(r.misses@.len() as int) =~= r.misses@);
        assert(text::views(out@) =~= recall_lines(*r, p50@, p95@));
    }
    out
}

// ------------------------------------------------------------------ laws

/// The table of proposed roots has a row for each, in order, under its heading.
pub proof fn every_proposed_root_has_its_row(p: Proposal, i: int)
    requires
        0 <= i < p.roots@.len(),
    ensures
        root_table(p).len() == p.roots@.len() + 1,
        p.roots@[i].path@.len() <= 44 ==> root_table(p)[i + 1] == text::flush_left(
            p.roots@[i].path@,
            44,
        ) + " "@ + text::flush_right(p.counts@[i]@, 10) + "  "@ + p.roots@[i].profile.name(),
{
}

/// A result is shown as its path, a directory's tagged; and the path ends the line where scores
/// stand before it.
pub proof fn a_result_line_ends_with_the_path(r: SearchResult, s: ScoreTexts)
    ensures
        r.kind == ResultKind::File ==> result_text(r, None) == r.path@,
        r.kind == ResultKind::Dir ==> result_text(r, None) == "directory:"@ + r.path@,
        result_text(r, Some(s)).len() >= s.fused@.len() + result_text(r, None).len(),
        result_text(r, Some(s)).take(s.fused@.len() as int) == s.fused@,
        result_text(r, Some(s)).skip(result_text(r, Some(s)).len() - result_text(r, None).len())
            == result_text(r, None),
        s.cosine is Some && s.rerank is Some ==> result_text(r, Some(s)) == s.fused@ + "  "@ + "cos="@
            + s.cosine->0@ + " rr="@ + s.rerank->0@ + "\t"@ + result_text(r, None),
        s.cosine is Some && s.rerank is None ==> result_text(r, Some(s)) == s.fused@ + "  "@ + "cos="@
            + s.cosine->0@ + "\t"@ + result_text(r, None),
        s.cosine is None && s.rerank is None ==> result_text(r, Some(s)) == s.fused@ + "  "@
            + "cos=-    "@ + "\t"@ + result_text(r, None),
{
    reveal_strlit("");
    let t = result_text(r, Some(s));
    let p = result_text(r, None);
    assert(t.take(s.fused@.len() as int) =~= s.fused@);
    assert(t.skip(t.len() - p.len()) =~= p);
    if s.cosine is Some && s.rerank is Some {
        assert(t =~= s.fused@ + "  "@ + "cos="@ + s.cosine->0@ + " rr="@ + s.rerank->0@ + "\t"@ + p);
    } else if s.cosine is Some {
        assert(t =~= s.fused@ + "  "@ + "cos="@ + s.cosine->0@ + "\t"@ + p);
    } else if s.rerank is None {
        assert(t =~= s.fused@ + "  "@ + "cos=-    "@ + "\t"@ + p);
    }
}

/// Every query that missed is listed, in order, with every result that came instead.
pub proof fn every_miss_is_listed(a: Seq<Missed>, b: Seq<Missed>, m: Missed, i: int)
    requires
        0 <= i < m.top@.len(),
    ensures
        all_missed_lines(seq![m]) == missed_lines(m),
        all_missed_lines(a + b) == all_missed_lines(a) + all_missed_lines(b),
        missed_lines(m).len() == m.top@.len() + 1,
        missed_lines(m)[0] == "  MISS \""@ + m.query@ + "\""@,
        missed_lines(m)[i + 1] == "       got "@ + m.top@[i]@,
    decreases b.len(),
{
    assert(seq![m].drop_last() =~= seq![]);
    assert(all_missed_lines(Seq::<Missed>::empty()) =~= seq![]);
    reveal_with_fuel(all_missed_lines, 2);
    assert(all_missed_lines(seq![m]) =~= missed_lines(m));
    if b.len() == 0 {
        assert(a + b =~= a);
        assert(all_missed_lines(a + b) =~= all_missed_lines(a) + all_missed_lines(b));
    } else {
        every_miss_is_listed(a, b.drop_last(), m, i);
        assert((a + b).drop_last() =~= a + b.drop_last());
        assert((a + b).last() == b.last());
        assert(all_missed_lines(a + b) =~= all_missed_lines(a) + all_missed_lines(b));
    }
}

/// Every configured root is listed, in order, and one that is not there is said to be missing.
pub proof fn every_root_is_listed(roots: Seq<Root>, present: Seq<bool>, i: int)
    requires
        0 <= i < roots.len(),
    ensures
        root_lines(roots, present).len() == roots.len() + 1,
        present[i] ==> root_lines(roots, present)[i + 1] == "  "@ + text::flush_left(
            roots[i].profile.name(),
            10,
        ) + " "@ + roots[i].path@,
        !present[i] ==> root_lines(roots, present)[i + 1] == "  "@ + text::flush_left(
            roots[i].profile.name(),
            10,
        ) + " "@ + roots[i].path@ + "  [MISSING]"@,
{
    reveal_strlit("");
    if present[i] {
        assert(root_lines(roots, present)[i + 1] =~= "  "@ + text::flush_left(
            roots[i].profile.name(),
            10,
        ) + " "@ + roots[i].path@);
    }
}

/// A mark says which model is configured, and which other one built the index.
pub proof fn marks_tell_the_models_apart(id: Seq<char>, other: Seq<char>, indexed: Option<String>)
    requires
        id != other,
    ensures
        mark(id, id, indexed) == "*"@,
        indexed is Some && indexed->0@ == id ==> mark(id, other, indexed) == "i"@,
        indexed is Some && indexed->0@ != id ==> mark(id, other, indexed) == " "@,
        mark(id, other, None) == " "@,
{
}

/// A gap in the vectors is named with its remedy, and only where there is one.
pub proof fn a_gap_is_named_with_its_remedy(
    model: String,
    dim: usize,
    files: StoreState,
    dirs: StoreState,
)
    requires
        model@ != "-"@,
    ensures
        ({
            let lines = vector_lines(Some(model), Some(dim), files, dirs);
            let gap = !files.present || files.rows == Some(0usize);
            &&& lines.len() == if gap {
                2int
            } else {
                1
            }
            &&& lines[0] == "vectors  "@ + commands::vector_count_text(files.present, files.rows)
                + " file, "@ + commands::vector_count_text(dirs.present, dirs.rows) + " dir"@
            &&& !files.present ==> lines[1] == "         "@
                + "(no vector index; run `wom index` to build it)"@
            &&& files.present && gap ==> lines[1] == "         "@
                + "(empty - indexing was likely interrupted; run `wom index --now`)"@
        }),
        vector_lines(None, Some(dim), files, dirs) == seq!["vectors  -"@],
        vector_lines(Some(model), None, files, dirs) == seq!["vectors  -"@],
{
}

/// A switch of models is pointed out, and only where the index was built with another one.
pub proof fn a_switch_of_models_is_pointed_out(model: String, dim: usize, configured: Seq<char>)
    requires
        model@ != "-"@,
    ensures
        model_lines(Some(model), Some(dim), configured)[0] == "model    "@ + model@ + (" ("@
            + text::decimal(dim as nat) + "-dim)"@),
        model@ == configured ==> model_lines(Some(model), Some(dim), configured).len() == 1,
        model@ != configured ==> model_lines(Some(model), Some(dim), configured).len() == 2
            && model_lines(Some(model), Some(dim), configured)[1] == "         "@ + (
        "(config says "@ + configured + "; run `wom index --rebuild` to switch)"@),
        model_lines(None, None, configured).len() == 1,
{
}

/// A projection goes by what scans sustained only for the model that sustained it.
pub proof fn a_projection_says_what_it_rests_on(
    id: Seq<char>,
    other: Seq<char>,
    s: Sustained,
    inference: String,
)
    requires
        id != other,
    ensures
        ({
            let head = "  "@ + text::flush_left(id, 26) + " "@;
            let bare = inference@ + " (inference only; extraction and writes will add to this)"@;
            let p = Projection { sustained: Some(s), inference };
            let q = Projection { sustained: None, inference };
            &&& projection_text(id, id, p) == head + (s.duration@ + " (at the "@ + s.rate@
                + " docs/sec this machine actually sustained)"@)
            &&& projection_text(id, other, p) == head + bare
            &&& projection_text(id, id, q) == head + bare
        }),
{
}

/// How much is indexed: the files and those with vectors, the directories, how the texts were read
/// where any were, and when the last scan was.
pub proof fn the_totals_are_shown(t: Totals)
    ensures
        ({
            let lines = total_lines(t);
            &&& lines.len() == if t.coverage@.len() > 0 {
                4int
            } else {
                3
            }
            &&& lines[0] == "files    "@ + text::signed_decimal(t.files as int) + " indexed, "@
                + text::signed_decimal(t.embedded as int) + " embedded"@
            &&& lines[1] == "dirs     "@ + text::signed_decimal(t.dirs as int)
            &&& t.coverage@.len() > 0 ==> lines[2] == "text     "@ + text::joined(
                commands::coverage_parts(t.coverage@),
                ", "@,
            )
            &&& t.scanned is Some ==> lines.last() == "scanned  "@ + t.scanned->0@ + " ago"@
            &&& t.scanned is None ==> lines.last() == "scanned  never"@
        }),
{
}

} // verus!
