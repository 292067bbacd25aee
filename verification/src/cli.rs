//! The command line: the implicit `search`, and where a query's scope ends and its words begin.
use crate::chars;
use crate::config;
use crate::config::{expand_path, Config, NoHome};
use crate::rerank;
use crate::rerank::effective_reranker;
use crate::search::{Mode, Request};
use crate::text;
use vstd::prelude::*;

verus! {

/// What `wom search` was given.
#[derive(Debug, Clone)]
pub struct SearchArgs {
    /// Optional leading directories to restrict the search to, then the query.
    pub words: Vec<String>,
    /// Directories to restrict the search to. Unambiguous alternative to a leading path.
    pub scope: Vec<String>,
    /// Maximum results.
    pub limit: Option<usize>,
    /// Use only full-text matching.
    pub lexical: bool,
    /// Use only vector similarity.
    pub dense: bool,
    /// Print plain lines even when attached to a terminal.
    pub no_tui: bool,
    /// Show the fused score and cosine next to each result.
    pub scores: bool,
    /// Rerank the top candidates with the configured reranker, or the default when the
    /// configuration has it off.
    pub rerank: bool,
    /// Rerank with a specific model.
    pub rerank_model: Option<String>,
    /// Disable reranking even when the configuration enables it.
    pub no_rerank: bool,
    /// Override the dense-similarity floor for this query; single-precision bits.
    pub min_similarity: Option<u32>,
}

/// What `wom status` was given.
#[derive(Debug, Clone)]
pub struct StatusArgs {
    /// Also check the index for internal inconsistency.
    pub verify: bool,
}

/// What `wom init` was given.
#[derive(Debug, Clone)]
pub struct InitArgs {
    /// Directories to index. Defaults to the user directories.
    pub add: Vec<String>,
    /// A profile for every added directory instead of detecting one.
    pub profile: Option<String>,
    /// Accept the proposed roots without prompting.
    pub yes: bool,
    /// Overwrite an existing configuration.
    pub force: bool,
}

/// What `wom index` was given.
#[derive(Debug, Clone)]
pub struct IndexArgs {
    /// Scan now regardless of the configured refresh schedule.
    pub now: bool,
    /// Re-embed everything, ignoring the modification-time and content-hash caches.
    pub force: bool,
    /// Discard the index and vectors, then build from scratch.
    pub rebuild: bool,
    /// Walk and report what would be indexed without writing anything.
    pub dry_run: bool,
    /// Limit to one configured root.
    pub root: Option<String>,
    /// Index metadata and full text only, without a model.
    pub no_embed: bool,
}

/// What `wom model` was given.
#[derive(Debug, Clone)]
pub enum ModelAction {
    /// List known models with their sizes and costs.
    List,
    /// Switch models. Invalidates every stored vector.
    Switch { id: String },
    /// Check the loaded model reproduces expected pooling and prefix behaviour.
    SelfTest,
}

/// What `wom bench` was given.
#[derive(Debug, Clone)]
pub struct BenchArgs {
    /// Models to compare. Defaults to the configured model.
    pub models: Vec<String>,
    /// Documents to embed when measuring throughput.
    pub docs: usize,
    /// Run the golden retrieval set and report recall.
    pub recall: bool,
}

/// A command with what it was given.
#[derive(Debug, Clone)]
pub enum Command {
    Search(SearchArgs),
    Init(InitArgs),
    Index(IndexArgs),
    Status(StatusArgs),
    Config,
    Model { action: ModelAction },
    Bench(BenchArgs),
}

// ------------------------------------------------------------------ the implicit search

/// The subcommands.
pub const SUBCOMMANDS: [&'static str; 8] = [
    "search",
    "init",
    "index",
    "status",
    "config",
    "model",
    "bench",
    "help",
];

/// Flags that belong to `wom` itself rather than to a search.
pub const GLOBAL_FLAGS: [&'static str; 4] = ["-h", "--help", "-V", "--version"];

/// Whether `list` holds the text `s`.
pub open spec fn lists(list: Seq<&'static str>, s: Seq<char>) -> bool {
    exists|i: int| 0 <= i < list.len() && #[trigger] list[i]@ == s
}

/// Whether a first argument stands for itself: a subcommand or a global flag.
pub open spec fn explicit(first: Seq<char>) -> bool {
    lists(SUBCOMMANDS@, first) || lists(GLOBAL_FLAGS@, first)
}

fn is_listed(list: &[&'static str], s: &str) -> (r: bool)
    ensures
        r == lists(list@, s@),
{
    let mut i: usize = 0;
    while i < list.len()
        invariant
            i <= list@.len(),
            forall|k: int| 0 <= k < i ==> #[trigger] list@[k]@ != s@,
        decreases list@.len() - i,
    {
        if text::same(list[i], s) {
            return true;
        }
        i += 1;
    }
    false
}

/// Inserts an implicit `search` when the first argument is neither a subcommand nor a global flag.
/// That includes search flags, which must reach `search` rather than be rejected at the top level.
/// The bare program name is left alone, so that it shows help and not an empty search.
pub fn insert_implicit_search(argv: Vec<String>) -> (r: Vec<String>)
    ensures
        ({
            let before = text::views(argv@);
            let after = text::views(r@);
            if before.len() < 2 || explicit(before[1]) {
                after == before
            } else {
                after == before.insert(1, "search"@)
            }
        }),
{
    if argv.len() < 2 {
        return argv;
    }
    proof {
        assert(text::views(argv@)[1] == argv@[1]@);
    }
    let subcommands = SUBCOMMANDS;
    let flags = GLOBAL_FLAGS;
    if is_listed(&subcommands, argv[1].as_str()) || is_listed(&flags, argv[1].as_str()) {
        return argv;
    }
    let ghost before = text::views(argv@);
    let mut out = argv;
    out.insert(1, "search".to_owned());
    proof {
        assert(text::views(out@) =~= before.insert(1, "search"@));
    }
    out
}

// ------------------------------------------------------------------ scope and query

/// A parsed search request: where to look, and what to look for.
#[derive(Debug, Clone)]
pub struct Query {
    pub scope: Vec<String>,
    pub text: String,
}

/// Whether a word has the shape of a path: it contains a separator, or starts with `~` or `.`.
pub open spec fn path_shaped(s: Seq<char>) -> bool {
    s.contains('/') || (s.len() > 0 && (s[0] == '~' || s[0] == '.'))
}

/// Whether a word has the shape of a path.
pub fn looks_like_path(s: &str) -> (r: bool)
    ensures
        r == path_shaped(s@),
{
    let cs = text::chars_of(s);
    chars::contains_char(s, '/') || (cs.len() > 0 && (cs[0] == '~' || cs[0] == '.'))
}

/// The text of the home directory; empty where there is none.
pub open spec fn home_text(home: Option<String>) -> Seq<char> {
    match config::home_of(home) {
        Some(h) => h,
        None => Seq::<char>::empty(),
    }
}

/// The leading words that name existing directories, expanded, and the words that remain. A leading
/// word is a scope only when it both exists on disk and looks like a path, which stops a query word
/// from being swallowed because a directory of that name happens to exist. `None` where a word
/// needs a home directory and there is none.
pub open spec fn split_words(
    words: Seq<Seq<char>>,
    present: Seq<bool>,
    home: Option<String>,
    cwd: Seq<char>,
) -> Option<(Seq<Seq<char>>, Seq<Seq<char>>)>
    decreases words.len(),
{
    if words.len() == 0 || !path_shaped(words[0]) {
        Some((seq![], words))
    } else if config::wants_home(words[0]) && config::home_of(home) is None {
        None
    } else if !present[0] {
        Some((seq![], words))
    } else {
        match split_words(words.drop_first(), present.drop_first(), home, cwd) {
            Some((scope, rest)) => Some(
                (seq![config::expanded(words[0], home_text(home), cwd)] + scope, rest),
            ),
            None => None,
        }
    }
}

/// Splits leading directory arguments from the query words; `present` says of each word whether it
/// names an existing directory.
pub fn split_scope_and_query(
    words: &Vec<String>,
    present: &Vec<bool>,
    home: &Option<String>,
    cwd: &str,
) -> (r: Result<(Vec<String>, String), NoHome>)
    requires
        present@.len() == words@.len(),
    ensures
        match (r, split_words(text::views(words@), present@, *home, cwd@)) {
            (Ok((scope, t)), Some((s, rest))) => text::views(scope@) == s && t@ == text::joined(
                rest,
                " "@,
            ),
            (Err(_), None) => true,
            _ => false,
        },
{
    let ghost ws = text::views(words@);
    let ghost all = split_words(ws, present@, *home, cwd@);
    let mut scope: Vec<String> = Vec::new();
    let mut i: usize = 0;
    proof {
        assert(ws.skip(0) =~= ws);
        assert(present@.skip(0) =~= present@);
        lemma_empty_prefix(all);
    }
    while i < words.len()
        invariant_except_break
            all == prefixed(
                text::views(scope@),
                split_words(ws.skip(i as int), present@.skip(i as int), *home, cwd@),
            ),
        invariant
            ws == text::views(words@),
            ws.len() == words@.len(),
            all == split_words(ws, present@, *home, cwd@),
            present@.len() == words@.len(),
            i <= words@.len(),
        ensures
            all == prefixed(text::views(scope@), Some((Seq::<Seq<char>>::empty(), ws.skip(i as int)))),
        decreases words@.len() - i,
    {
        let ghost tail = ws.skip(i as int);
        let ghost flags = present@.skip(i as int);
        proof {
            assert(tail[0] == words@[i as int]@);
            assert(flags[0] == present@[i as int]);
            assert(tail.drop_first() =~= ws.skip(i + 1));
            assert(flags.drop_first() =~= present@.skip(i + 1));
        }
        if !looks_like_path(words[i].as_str()) {
            break ;
        }
        match expand_path(words[i].as_str(), home, cwd) {
            Err(e) => {
                return Err(e);
            },
            Ok(p) => {
                if !present[i] {
                    break ;
                }
                proof {
                    text::lemma_views_push(scope@, p);
                    lemma_prefix_moves(
                        text::views(scope@),
                        p@,
                        split_words(ws.skip(i + 1), present@.skip(i + 1), *home, cwd@),
                    );
                }
                scope.push(p);
            },
        }
        i += 1;
        proof {
            if i == words@.len() {
                assert(ws.skip(i as int) =~= Seq::<Seq<char>>::empty());
            }
        }
    }
    let mut rest: Vec<String> = Vec::new();
    let mut j: usize = i;
    proof {
        assert(text::views(rest@) =~= ws.subrange(i as int, i as int));
    }
    while j < words.len()
        invariant
            ws == text::views(words@),
            ws.len() == words@.len(),
            i <= j <= words@.len(),
            text::views(rest@) == ws.subrange(i as int, j as int),
        decreases words@.len() - j,
    {
        let w = words[j].as_str().to_owned();
        proof {
            text::lemma_views_push(rest@, w);
            assert(ws.subrange(i as int, j + 1) =~= ws.subrange(i as int, j as int).push(w@));
        }
        rest.push(w);
        j += 1;
    }
    proof {
        assert(ws.subrange(i as int, ws.len() as int) =~= ws.skip(i as int));
        assert(text::views(scope@) + Seq::<Seq<char>>::empty() =~= text::views(scope@));
    }
    let t = text::join(&rest, " ");
    Ok((scope, t))
}

/// A split with `head` put before its scope.
spec fn prefixed(
    head: Seq<Seq<char>>,
    s: Option<(Seq<Seq<char>>, Seq<Seq<char>>)>,
) -> Option<(Seq<Seq<char>>, Seq<Seq<char>>)> {
    match s {
        Some((scope, rest)) => Some((head + scope, rest)),
        None => None,
    }
}

proof fn lemma_empty_prefix(s: Option<(Seq<Seq<char>>, Seq<Seq<char>>)>)
    ensures
        forall|v: Seq<String>| v.len() == 0 ==> #[trigger] prefixed(text::views(v), s) == s,
{
    assert forall|v: Seq<String>| v.len() == 0 implies #[trigger] prefixed(text::views(v), s) == s by {
        assert(text::views(v).len() == 0);
        if let Some((scope, rest)) = s {
            assert(text::views(v) + scope =~= scope);
        }
    }
}

proof fn lemma_prefix_moves(
    head: Seq<Seq<char>>,
    p: Seq<char>,
    s: Option<(Seq<Seq<char>>, Seq<Seq<char>>)>,
)
    ensures
        prefixed(head, prefixed(seq![p], s)) == prefixed(head.push(p), s),
{
    if let Some((scope, rest)) = s {
        assert(head + (seq![p] + scope) =~= head.push(p) + scope);
    }
}

/// The directories of `--in`, expanded.
pub open spec fn expanded_all(dirs: Seq<Seq<char>>, home: Seq<char>, cwd: Seq<char>) -> Seq<Seq<char>> {
    dirs.map_values(|d: Seq<char>| config::expanded(d, home, cwd))
}

/// Whether all of `dirs` can be expanded.
pub open spec fn all_expand(dirs: Seq<Seq<char>>, home: Option<String>) -> bool {
    config::home_of(home) is Some || forall|i: int|
        0 <= i < dirs.len() ==> !config::wants_home(#[trigger] dirs[i])
}

impl SearchArgs {
    /// The query: the leading directories and those of `--in`, and the remaining words.
    pub fn to_query(&self, present: &Vec<bool>, home: &Option<String>, cwd: &str) -> (r: Result<
        Query,
        NoHome,
    >)
        requires
            present@.len() == self.words@.len(),
        ensures
            ({
                let dirs = text::views(self.scope@);
                match (r, split_words(text::views(self.words@), present@, *home, cwd@)) {
                    (Ok(q), Some((s, rest))) => {
                        &&& all_expand(dirs, *home)
                        &&& text::views(q.scope@) == s + expanded_all(dirs, home_text(*home), cwd@)
                        &&& q.text@ == text::joined(rest, " "@)
                    },
                    (Ok(_), None) => false,
                    (Err(_), Some(_)) => !all_expand(dirs, *home),
                    (Err(_), None) => true,
                }
            }),
    {
        let (mut scope, t) = split_scope_and_query(&self.words, present, home, cwd)?;
        let ghost dirs = text::views(self.scope@);
        let ghost head = text::views(scope@);
        let ghost more = expanded_all(dirs, home_text(*home), cwd@);
        let mut i: usize = 0;
        proof {
            assert(head =~= head + more.take(0));
        }
        while i < self.scope.len()
            invariant
                dirs == text::views(self.scope@),
                dirs.len() == self.scope@.len(),
                more == expanded_all(dirs, home_text(*home), cwd@),
                i <= self.scope@.len(),
                config::home_of(*home) is Some || forall|k: int|
                    0 <= k < i ==> !config::wants_home(#[trigger] dirs[k]),
                text::views(scope@) == head + more.take(i as int),
                split_words(text::views(self.words@), present@, *home, cwd@) is Some,
            decreases self.scope@.len() - i,
        {
            proof {
                assert(dirs[i as int] == self.scope@[i as int]@);
            }
            let p = match expand_path(self.scope[i].as_str(), home, cwd) {
                Ok(p) => p,
                Err(e) => {
                    return Err(e);
                },
            };
            proof {
                text::lemma_views_push(scope@, p);
                assert(more[i as int] == p@);
                assert((head + more.take(i as int)).push(p@) =~= head + more.take(i + 1));
            }
            scope.push(p);
            i += 1;
        }
        proof {
            assert(more.take(more.len() as int) =~= more);
        }
        Ok(Query { scope, text: t })
    }

    /// Which arms the search uses.
    pub open spec fn mode_spec(&self) -> Mode {
        if self.lexical {
            Mode::Lexical
        } else if self.dense {
            Mode::Dense
        } else {
            Mode::Hybrid
        }
    }

    /// Which arms the search uses.
    pub fn mode(&self) -> (r: Mode)
        ensures
            r == self.mode_spec(),
    {
        if self.lexical {
            Mode::Lexical
        } else if self.dense {
            Mode::Dense
        } else {
            Mode::Hybrid
        }
    }

    /// The request for a query: what the command line leaves open, the configuration decides.
    pub fn to_request(&self, query: Query, cfg: &Config) -> (r: Request)
        ensures
            r.text@ == query.text@,
            text::views(r.scope@) == text::views(query.scope@),
            r.limit == match self.limit {
                Some(n) => n,
                None => cfg.limit,
            },
            r.mode == self.mode_spec(),
            match self.min_similarity {
                Some(m) => r.min_similarity == m,
                None => r.min_similarity == cfg.floor(),
            },
    {
        Request {
            text: query.text,
            scope: query.scope,
            limit: match self.limit {
                Some(n) => n,
                None => cfg.limit,
            },
            mode: self.mode(),
            min_similarity: match self.min_similarity {
                Some(m) => m,
                None => cfg.resolved_min_similarity(),
            },
        }
    }

    /// Which reranker to load, if any. Lexical mode is the fast path without a model and loads
    /// none.
    pub fn reranker(&self, cfg: &Config) -> (r: Option<String>)
        ensures
            (match r {
                Some(s) => Some(s@),
                None => None,
            }) == (if self.mode_spec() == Mode::Lexical {
                None
            } else {
                rerank::chosen_reranker(
                    self.no_rerank,
                    self.rerank,
                    match self.rerank_model {
                        Some(m) => Some(m@),
                        None => None,
                    },
                    cfg.reranker@,
                )
            }),
    {
        if self.mode() == Mode::Lexical {
            return None;
        }
        effective_reranker(
            self.no_rerank,
            self.rerank,
            &self.rerank_model,
            cfg.reranker.as_str(),
        )
    }
}

/// A bare word is never a scope, whatever directories exist.
pub proof fn a_bare_word_is_never_a_scope(
    words: Seq<Seq<char>>,
    present: Seq<bool>,
    home: Option<String>,
    cwd: Seq<char>,
)
    requires
        words.len() > 0,
        !path_shaped(words[0]),
    ensures
        split_words(words, present, home, cwd) == Some((Seq::<Seq<char>>::empty(), words)),
{
}

/// The words that stand for themselves as a first argument are the subcommands and the flags of the
/// program itself; anything else begins a search.
pub proof fn anything_but_a_subcommand_is_searched_for(first: Seq<char>)
    ensures
        explicit(first) <==> seq![
            "search"@,
            "init"@,
            "index"@,
            "status"@,
            "config"@,
            "model"@,
            "bench"@,
            "help"@,
            "-h"@,
            "--help"@,
            "-V"@,
            "--version"@,
        ].contains(first),
{
    let all = seq![
        "search"@,
        "init"@,
        "index"@,
        "status"@,
        "config"@,
        "model"@,
        "bench"@,
        "help"@,
        "-h"@,
        "--help"@,
        "-V"@,
        "--version"@,
    ];
    assert forall|i: int| 0 <= i < 8 implies (#[trigger] SUBCOMMANDS@[i])@ == all[i] by {}
    assert forall|i: int| 0 <= i < 4 implies (#[trigger] GLOBAL_FLAGS@[i])@ == all[8 + i] by {}
    if explicit(first) {
        if lists(SUBCOMMANDS@, first) {
            let i = choose|i: int| 0 <= i < SUBCOMMANDS@.len() && #[trigger] SUBCOMMANDS@[i]@ == first;
            assert(all[i] == first);
        } else {
            let i = choose|i: int|
                0 <= i < GLOBAL_FLAGS@.len() && #[trigger] GLOBAL_FLAGS@[i]@ == first;
            assert(all[8 + i] == first);
        }
    }
    if all.contains(first) {
        let i = choose|i: int| 0 <= i < all.len() && all[i] == first;
        if i < 8 {
            assert(SUBCOMMANDS@[i]@ == first);
        } else {
            assert(GLOBAL_FLAGS@[i - 8]@ == first);
        }
    }
}

/// The scope is every leading word that has the shape of a path and names a directory, expanded,
/// and the query is all the words after them: none is lost, and the first of them is no such word.
pub proof fn leading_directories_are_the_scope(
    words: Seq<Seq<char>>,
    present: Seq<bool>,
    home: Option<String>,
    cwd: Seq<char>,
)
    requires
        present.len() == words.len(),
        split_words(words, present, home, cwd) is Some,
    ensures
        ({
            let (scope, rest) = split_words(words, present, home, cwd)->0;
            let k = scope.len() as int;
            &&& k <= words.len()
            &&& rest == words.skip(k)
            &&& forall|i: int|
                0 <= i < k ==> #[trigger] scope[i] == config::expanded(
                    words[i],
                    home_text(home),
                    cwd,
                )
            &&& forall|i: int| 0 <= i < k ==> path_shaped(#[trigger] words[i]) && present[i]
            &&& k < words.len() ==> !(path_shaped(words[k]) && present[k])
        }),
    decreases words.len(),
{
    let (scope, rest) = split_words(words, present, home, cwd)->0;
    if words.len() == 0 || !path_shaped(words[0]) || !present[0] {
        assert(words.skip(0) =~= words);
    } else {
        let w = words.drop_first();
        let p = present.drop_first();
        leading_directories_are_the_scope(w, p, home, cwd);
        let (inner, tail) = split_words(w, p, home, cwd)->0;
        let k = inner.len() as int;
        assert(scope.len() == k + 1 && rest == tail && tail == w.skip(k));
        assert(w.skip(k) =~= words.skip(k + 1));
        assert forall|i: int| 0 <= i < k + 1 implies #[trigger] scope[i] == config::expanded(
            words[i],
            home_text(home),
            cwd,
        ) by {
            if i > 0 {
                assert(scope[i] == inner[i - 1]);
                assert(w[i - 1] == words[i]);
            }
        }
        assert forall|i: int| 0 <= i < k + 1 implies path_shaped(#[trigger] words[i])
            && present[i] by {
            if i > 0 {
                assert(w[i - 1] == words[i] && p[i - 1] == present[i]);
            }
        }
        if k < w.len() {
            assert(w[k] == words[k + 1] && p[k] == present[k + 1]);
        }
    }
}

/// A query is refused only for want of a home directory that one of its leading words asks for.
pub proof fn a_query_is_refused_only_without_a_home(
    words: Seq<Seq<char>>,
    present: Seq<bool>,
    home: Option<String>,
    cwd: Seq<char>,
) -> (k: int)
    requires
        present.len() == words.len(),
        split_words(words, present, home, cwd) is None,
    ensures
        0 <= k < words.len(),
        config::wants_home(words[k]),
        config::home_of(home) is None,
        forall|i: int| 0 <= i < k ==> path_shaped(#[trigger] words[i]) && present[i],
    decreases words.len(),
{
    if config::wants_home(words[0]) && config::home_of(home) is None {
        0
    } else {
        let w = words.drop_first();
        let p = present.drop_first();
        let k = a_query_is_refused_only_without_a_home(w, p, home, cwd);
        assert forall|i: int| 0 <= i < k + 1 implies path_shaped(#[trigger] words[i])
            && present[i] by {
            if i > 0 {
                assert(w[i - 1] == words[i] && p[i - 1] == present[i]);
            }
        }
        assert(w[k] == words[k + 1]);
        k + 1
    }
}

/// A word has the shape of a path exactly where it has a slash in it, or begins with a tilde or a
/// dot.
pub proof fn paths_are_told_by_their_shape(s: Seq<char>, a: Seq<char>, b: Seq<char>)
    ensures
        path_shaped(a + seq!['/'] + b),
        path_shaped(seq!['~'] + b),
        path_shaped(seq!['.'] + b),
        !s.contains('/') && (s.len() == 0 || (s[0] != '~' && s[0] != '.')) ==> !path_shaped(s),
{
    assert((a + seq!['/'] + b)[a.len() as int] == '/');
    assert((seq!['~'] + b)[0] == '~');
    assert((seq!['.'] + b)[0] == '.');
}

/// Each directory of `--in` is expanded, in order; all can be where there is a home directory, or
/// none asks for it.
pub proof fn every_named_directory_is_expanded(
    dirs: Seq<Seq<char>>,
    home: Option<String>,
    cwd: Seq<char>,
    i: int,
)
    requires
        0 <= i < dirs.len(),
    ensures
        expanded_all(dirs, home_text(home), cwd).len() == dirs.len(),
        expanded_all(dirs, home_text(home), cwd)[i] == config::expanded(
            dirs[i],
            home_text(home),
            cwd,
        ),
        config::home_of(home) is Some ==> all_expand(dirs, home),
        config::home_of(home) is None && config::wants_home(dirs[i]) ==> !all_expand(dirs, home),
        config::home_of(home) is Some ==> home_text(home) == config::home_of(home)->0,
{
}

/// Both arms are searched unless one was asked for; full text goes before vectors.
pub proof fn both_arms_are_searched_by_default(a: SearchArgs)
    ensures
        a.lexical ==> a.mode_spec() == Mode::Lexical,
        !a.lexical && a.dense ==> a.mode_spec() == Mode::Dense,
        !a.lexical && !a.dense ==> a.mode_spec() == Mode::Hybrid,
{
}

/// A command line without a subcommand is a search for all that follows the program's name; any
/// other is left alone.
pub proof fn a_bare_query_is_a_search(argv: Vec<String>, r: Vec<String>, i: int)
    requires
        call_ensures(insert_implicit_search, (argv,), r),
    ensures
        argv@.len() < 2 ==> text::views(r@) == text::views(argv@),
        argv@.len() >= 2 && explicit(argv@[1]@) ==> text::views(r@) == text::views(argv@),
        argv@.len() >= 2 && !explicit(argv@[1]@) ==> {
            &&& r@.len() == argv@.len() + 1
            &&& r@[0]@ == argv@[0]@
            &&& r@[1]@ == "search"@
            &&& 1 <= i < argv@.len() ==> r@[i + 1]@ == argv@[i]@
        },
{
    let a = text::views(argv@);
    let b = text::views(r@);
    assert(a.len() == argv@.len() && b.len() == r@.len());
    if argv@.len() >= 2 {
        assert(a[1] == argv@[1]@);
        if !explicit(argv@[1]@) {
            assert(b[0] == r@[0]@ && b[1] == r@[1]@ && a[0] == argv@[0]@);
            if 1 <= i < argv@.len() {
                assert(b[i + 1] == r@[i + 1]@ && a[i] == argv@[i]@);
            }
        }
    }
}

/// The words after the scope are the query, a space between them.
pub proof fn the_query_is_the_words_after_the_scope(
    words: Vec<String>,
    present: Vec<bool>,
    home: Option<String>,
    cwd: &str,
    r: Result<(Vec<String>, String), NoHome>,
)
    requires
        call_ensures(split_scope_and_query, (&words, &present, &home, cwd), r),
        present@.len() == words@.len(),
    ensures
        r matches Ok(q) ==> {
            let k = q.0@.len() as int;
            &&& k <= words@.len()
            &&& q.1@ == text::joined(text::views(words@).skip(k), " "@)
            &&& forall|i: int|
                0 <= i < k ==> path_shaped(#[trigger] text::views(words@)[i]) && present@[i]
            &&& k < words@.len() ==> !(path_shaped(words@[k]@) && present@[k])
        },
        r is Err ==> config::home_of(home) is None,
{
    let w = text::views(words@);
    match split_words(w, present@, home, cwd@) {
        Some((s, rest)) => {
            leading_directories_are_the_scope(w, present@, home, cwd@);
            if let Ok(q) = r {
                assert(text::views(q.0@) == s);
                assert(q.0@.len() == s.len());
                if s.len() < w.len() {
                    assert(w[s.len() as int] == words@[s.len() as int]@);
                }
            }
        },
        None => {
            let k = a_query_is_refused_only_without_a_home(w, present@, home, cwd@);
        },
    }
}

/// What is given on the command line goes before the configuration.
pub proof fn the_command_line_goes_first(a: SearchArgs, query: Query, cfg: Config, r: Request)
    requires
        call_ensures(SearchArgs::to_request, (&a, query, &cfg), r),
    ensures
        a.limit matches Some(n) ==> r.limit == n,
        a.limit is None ==> r.limit == cfg.limit,
        a.min_similarity matches Some(m) ==> r.min_similarity == m,
        a.min_similarity is None ==> r.min_similarity == cfg.floor(),
        r.text@ == query.text@,
        text::views(r.scope@) == text::views(query.scope@),
{
}

} // verus!
