//! Retrieval: which arms run, what the full-text index is asked, and how their findings become
//! results.
//!
//! Dense search understands that "employment documents" means a W-2, but is weak on proper nouns
//! it never saw in training. Full-text search is the opposite. Both run, and are fused by rank.
use crate::chars;
use crate::fusion;
use crate::fusion::same_key;
use crate::fusion::tally;
use crate::fusion::walk_arms;
use crate::fusion::Arm;
use crate::fusion::Fused;
use crate::fusion::Key;
use crate::fusion::ResultKind;
use crate::fusion::Tally;
use crate::ranking;
use crate::score;
use crate::text;
use crate::topk::Hit;
use vstd::prelude::*;

verus! {

/// Scaling of every directory arm, as single-precision bits: 2 / (1 + 1 + 0.6). Files draw on two
/// arms for a total of 2.0, directories on three for 2.6; this gives both the same budget.
pub const DIR_ARM_SCALE: u32 = 0x3f44_ec4f;

/// Weight of the "a directory whose children matched" arm, as single-precision bits: 0.6 times the
/// directory scaling.
pub const CHILDREN_ARM_WEIGHT: u32 = 0x3eec_4ec6;

#[derive(Debug, Clone, Copy, PartialEq, Eq, Structural)]
pub enum Mode {
    /// Dense and lexical, fused. The default.
    Hybrid,
    /// Full-text only. Works without a model, useful for verifying the index.
    Lexical,
    /// Vector similarity only.
    Dense,
}

/// A search to run.
#[derive(Debug, Clone)]
pub struct Request {
    pub text: String,
    pub scope: Vec<String>,
    pub limit: usize,
    pub mode: Mode,
    /// Dense hits below this cosine are dropped before fusion; single-precision bits.
    pub min_similarity: u32,
}

/// What a request sets in motion.
#[derive(Debug, Clone, Copy, PartialEq, Eq, Structural)]
pub struct Plan {
    /// Embed the query and scan the vectors.
    pub dense: bool,
    /// Query the full-text index.
    pub lexical: bool,
}

impl Request {
    /// Which arms run: none for a blank text, no dense arm without a model or in lexical mode, no
    /// lexical arm in dense mode.
    pub fn plan(&self, has_embedder: bool) -> (r: Plan)
        ensures
            r.dense == (chars::trimmed(self.text@).len() > 0 && self.mode != Mode::Lexical
                && has_embedder),
            r.lexical == (chars::trimmed(self.text@).len() > 0 && self.mode != Mode::Dense),
    {
        let blank = chars::is_blank(self.text.as_str());
        Plan {
            dense: !blank && self.mode != Mode::Lexical && has_embedder,
            lexical: !blank && self.mode != Mode::Dense,
        }
    }

    /// Whether the fused list goes through a reranker: never in lexical mode, which is the
    /// no-model fast path.
    pub fn wants_rerank(&self, has_reranker: bool, fused: usize) -> (r: bool)
        ensures
            r == (has_reranker && self.mode != Mode::Lexical && fused > 0),
    {
        has_reranker && self.mode != Mode::Lexical && fused > 0
    }
}

// ------------------------------------------------------------------ full-text queries

/// The words of `s` so far, and the word it ends in the middle of: maximal runs of letters and
/// digits.
pub open spec fn word_runs(s: Seq<char>) -> (Seq<Seq<char>>, Seq<char>)
    decreases s.len(),
{
    if s.len() == 0 {
        (seq![], seq![])
    } else {
        let (done, cur) = word_runs(s.drop_last());
        if chars::alphanumeric(s.last()) {
            (done, cur.push(s.last()))
        } else if cur.len() > 0 {
            (done.push(cur), seq![])
        } else {
            (done, seq![])
        }
    }
}

/// The words of `s`.
pub open spec fn words_of(s: Seq<char>) -> Seq<Seq<char>> {
    let (done, cur) = word_runs(s);
    if cur.len() > 0 {
        done.push(cur)
    } else {
        done
    }
}

/// The words of `s`, in order.
pub fn split_alphanumeric(s: &str) -> (r: Vec<String>)
    ensures
        text::views(r@) == words_of(s@),
{
    let cs = text::chars_of(s);
    let mut out: Vec<String> = Vec::new();
    let mut cur = String::new();
    let mut i: usize = 0;
    proof {
        assert(text::views(out@) =~= Seq::<Seq<char>>::empty());
    }
    while i < cs.len()
        invariant
            cs@ == s@,
            i <= cs@.len(),
            word_runs(cs@.take(i as int)) == (text::views(out@), cur@),
        decreases cs@.len() - i,
    {
        let c = cs[i];
        proof {
            assert(cs@.take(i + 1).drop_last() =~= cs@.take(i as int));
            assert(cs@.take(i + 1).last() == c);
        }
        if c.is_alphanumeric() {
            cur.push(c);
        } else if !cur.as_str().is_empty() {
            proof {
                text::lemma_views_push(out@, cur);
            }
            out.push(cur);
            cur = String::new();
        }
        i += 1;
        proof {
            assert(word_runs(cs@.take(i as int)).1 =~= cur@);
        }
    }
    proof {
        assert(cs@.take(cs@.len() as int) =~= cs@);
    }
    if !cur.as_str().is_empty() {
        proof {
            text::lemma_views_push(out@, cur);
        }
        out.push(cur);
    }
    out
}

/// A word as a full-text term: a quoted literal, and for the last word a prefix match if it is at
/// least two characters long.
pub open spec fn fts_term(word: Seq<char>, last: bool) -> Seq<char> {
    if last && word.len() >= 2 {
        "\""@ + word + "\"*"@
    } else {
        "\""@ + word + "\""@
    }
}

/// The terms of a query.
pub open spec fn fts_terms(words: Seq<Seq<char>>) -> Seq<Seq<char>> {
    Seq::new(words.len(), |i: int| fts_term(chars::lower(words[i]), i + 1 == words.len()))
}

/// Whether the only quotation marks of a term are the two around its word.
pub open spec fn encloses(term: Seq<char>, word: Seq<char>) -> bool {
    forall|k: int|
        0 <= k < term.len() ==> (#[trigger] term[k] == '"' <==> k == 0 || k == word.len() + 1)
}

/// Builds a full-text match expression from raw user input.
///
/// User text cannot be passed through, since the index has a syntax of its own. Each word is
/// emitted as a quoted literal; the last word gets a prefix wildcard, so that searching is useful
/// while the user is still typing. `None` when the input holds no word at all.
pub fn fts_query(input: &str) -> (r: Option<String>)
    ensures
        match r {
            Some(q) => {
                &&& words_of(input@).len() > 0
                &&& q@ == text::joined(fts_terms(words_of(input@)), " OR "@)
            },
            None => words_of(input@).len() == 0,
        },
        // Whatever the script, no quotation mark comes from the input.
        forall|i: int|
            0 <= i < words_of(input@).len() ==> encloses(
                #[trigger] fts_terms(words_of(input@))[i],
                chars::lower(words_of(input@)[i]),
            ),
{
    let words = split_alphanumeric(input);
    let ghost ws = words_of(input@);
    proof {
        assert(text::views(words@).len() == words@.len());
    }
    if words.len() == 0 {
        return None;
    }
    let mut parts: Vec<String> = Vec::new();
    let mut i: usize = 0;
    proof {
        assert(text::views(parts@) =~= fts_terms(ws).take(0));
    }
    while i < words.len()
        invariant
            ws == text::views(words@),
            ws.len() == words@.len(),
            i <= words@.len(),
            text::views(parts@) == fts_terms(ws).take(i as int),
            ws == words_of(input@),
            forall|k: int|
                0 <= k < i ==> encloses(#[trigger] fts_terms(ws)[k], chars::lower(ws[k])),
        decreases words@.len() - i,
    {
        let w = words[i].as_str().to_lowercase();
        proof {
            assert(ws[i as int] == words@[i as int]@);
            if ws[i as int].contains('"') {
                let j = choose|j: int| 0 <= j < ws[i as int].len() && ws[i as int][j] == '"';
                words_are_alphanumeric(input@, i as int, j);
            }
            reveal_strlit("\"");
            reveal_strlit("\"*");
            let term = fts_terms(ws)[i as int];
            assert forall|k: int| 0 <= k < term.len() implies (#[trigger] term[k] == '"' <==> k == 0
                || k == w@.len() + 1) by {
                if 1 <= k <= w@.len() {
                    assert(term[k] == w@[k - 1]);
                    assert(w@.contains(w@[k - 1]));
                }
            }
        }
        let mut s = "\"".to_owned();
        s.append(w.as_str());
        let long = text::chars_of(w.as_str()).len() >= 2;
        if i + 1 == words.len() && long {
            s.append("\"*");
        } else {
            s.append("\"");
        }
        proof {
            assert(s@ =~= fts_terms(ws)[i as int]);
            text::lemma_views_push(parts@, s);
            assert(fts_terms(ws).take(i + 1) =~= fts_terms(ws).take(i as int).push(s@));
        }
        parts.push(s);
        i += 1;
    }
    proof {
        assert(fts_terms(ws).take(words@.len() as int) =~= fts_terms(ws));
    }
    Some(text::join(&parts, " OR "))
}

// ------------------------------------------------------------------ the arms

/// The keys of rows of one kind.
pub open spec fn keyed(kind: ResultKind, ids: Seq<i64>) -> Seq<Key> {
    ids.map_values(|id: i64| (kind, id))
}

/// The keys of rows of one kind.
pub fn keys_of(kind: ResultKind, ids: &Vec<i64>) -> (r: Vec<Key>)
    ensures
        r@ == keyed(kind, ids@),
{
    let mut out: Vec<Key> = Vec::new();
    let mut i: usize = 0;
    while i < ids.len()
        invariant
            i <= ids@.len(),
            out@ == keyed(kind, ids@).take(i as int),
        decreases ids@.len() - i,
    {
        out.push((kind, ids[i]));
        i += 1;
        proof {
            assert(out@ =~= keyed(kind, ids@).take(i as int));
        }
    }
    proof {
        assert(out@ =~= keyed(kind, ids@));
    }
    out
}

/// The hits at or above the floor, in order, each with its key: a hit's row is the row id.
pub open spec fn above_floor(kind: ResultKind, hits: Seq<Hit>, floor: u32) -> Seq<(Key, u32)>
    decreases hits.len(),
{
    if hits.len() == 0 {
        seq![]
    } else {
        let before = above_floor(kind, hits.drop_last(), floor);
        let h = hits.last();
        if score::at_least(h.score, floor) {
            before.push(((kind, h.row as i64), h.score))
        } else {
            before
        }
    }
}

/// Drops the hits below the floor.
pub fn dense_arm(kind: ResultKind, hits: &Vec<Hit>, floor: u32) -> (r: Vec<(Key, u32)>)
    ensures
        r@ == above_floor(kind, hits@, floor),
{
    let mut out: Vec<(Key, u32)> = Vec::new();
    let mut i: usize = 0;
    while i < hits.len()
        invariant
            i <= hits@.len(),
            out@ == above_floor(kind, hits@.take(i as int), floor),
        decreases hits@.len() - i,
    {
        let h = hits[i];
        proof {
            assert(hits@.take(i + 1).drop_last() =~= hits@.take(i as int));
        }
        if score::is_at_least(h.score, floor) {
            out.push(((kind, h.row as i64), h.score));
        }
        i += 1;
    }
    proof {
        assert(hits@.take(hits@.len() as int) =~= hits@);
    }
    out
}

/// The keys of a scored list.
pub open spec fn keys_only(pairs: Seq<(Key, u32)>) -> Seq<Key> {
    pairs.map_values(|p: (Key, u32)| p.0)
}

/// The keys of a scored list.
pub fn strip_scores(pairs: &Vec<(Key, u32)>) -> (r: Vec<Key>)
    ensures
        r@ == keys_only(pairs@),
{
    let mut out: Vec<Key> = Vec::new();
    let mut i: usize = 0;
    while i < pairs.len()
        invariant
            i <= pairs@.len(),
            out@ == keys_only(pairs@).take(i as int),
        decreases pairs@.len() - i,
    {
        out.push(pairs[i].0);
        i += 1;
        proof {
            assert(out@ =~= keys_only(pairs@).take(i as int));
        }
    }
    proof {
        assert(out@ =~= keys_only(pairs@));
    }
    out
}

/// The four ranked lists that retrieval yields, best first.
pub struct Evidence {
    pub file_dense: Vec<Key>,
    pub dir_dense: Vec<Key>,
    pub file_lexical: Vec<Key>,
    pub dir_lexical: Vec<Key>,
}

/// Tallies the five arms: the two file arms at full weight, the directory arms scaled, and the
/// directories credited by their children below them.
pub fn tally_evidence(e: &Evidence, dir_children: &Vec<Key>) -> (r: Vec<Tally>)
    ensures
        fusion::tallies_of(
            r@,
            fusion::met_in_list(e.file_dense@, fusion::FULL_WEIGHT) + fusion::met_in_list(
                e.file_lexical@,
                fusion::FULL_WEIGHT,
            ) + fusion::met_in_list(e.dir_dense@, DIR_ARM_SCALE) + fusion::met_in_list(
                e.dir_lexical@,
                DIR_ARM_SCALE,
            ) + fusion::met_in_list(dir_children@, CHILDREN_ARM_WEIGHT),
        ),
{
    let mut arms: Vec<Arm> = Vec::new();
    arms.push(Arm::new(e.file_dense.as_slice()));
    arms.push(Arm::new(e.file_lexical.as_slice()));
    arms.push(Arm { ranked: e.dir_dense.as_slice(), weight: DIR_ARM_SCALE });
    arms.push(Arm { ranked: e.dir_lexical.as_slice(), weight: DIR_ARM_SCALE });
    arms.push(Arm { ranked: dir_children.as_slice(), weight: CHILDREN_ARM_WEIGHT });
    let met = walk_arms(arms.as_slice());
    proof {
        let a = arms@;
        assert(a.drop_last() =~= a.take(4));
        assert(a.take(4).drop_last() =~= a.take(3));
        assert(a.take(3).drop_last() =~= a.take(2));
        assert(a.take(2).drop_last() =~= a.take(1));
        assert(a.take(1).drop_last() =~= Seq::<Arm>::empty());
        reveal_with_fuel(fusion::met_in, 6);
        assert(met@ =~= fusion::met_in_list(e.file_dense@, fusion::FULL_WEIGHT)
            + fusion::met_in_list(e.file_lexical@, fusion::FULL_WEIGHT) + fusion::met_in_list(
            e.dir_dense@,
            DIR_ARM_SCALE,
        ) + fusion::met_in_list(e.dir_lexical@, DIR_ARM_SCALE) + fusion::met_in_list(
            dir_children@,
            CHILDREN_ARM_WEIGHT,
        ));
    }
    tally(&met)
}

/// The keys of a fused list.
pub open spec fn fused_keys(fused: Seq<Fused>) -> Seq<Key> {
    fused.map_values(|f: Fused| f.key)
}

/// The fused list as keys with their scores.
pub open spec fn fused_scores(fused: Seq<Fused>) -> Seq<(Key, u32)> {
    fused.map_values(|f: Fused| (f.key, f.score))
}

/// Splits a fused list into its keys and its scores by key.
pub fn unfuse(fused: &Vec<Fused>) -> (r: (Vec<Key>, Vec<(Key, u32)>))
    ensures
        r.0@ == fused_keys(fused@),
        r.1@ == fused_scores(fused@),
{
    let mut keys: Vec<Key> = Vec::new();
    let mut scores: Vec<(Key, u32)> = Vec::new();
    let mut i: usize = 0;
    while i < fused.len()
        invariant
            i <= fused@.len(),
            keys@ == fused_keys(fused@).take(i as int),
            scores@ == fused_scores(fused@).take(i as int),
        decreases fused@.len() - i,
    {
        keys.push(fused[i].key);
        scores.push((fused[i].key, fused[i].score));
        i += 1;
        proof {
            assert(keys@ =~= fused_keys(fused@).take(i as int));
            assert(scores@ =~= fused_scores(fused@).take(i as int));
        }
    }
    proof {
        assert(keys@ =~= fused_keys(fused@));
        assert(scores@ =~= fused_scores(fused@));
    }
    (keys, scores)
}

/// The head of the fused list that a reranker is shown.
pub fn pool_of(keys: &Vec<Key>, size: usize) -> (r: Vec<Key>)
    ensures
        r@ == ranking::head_of(keys@, size as int),
{
    let mut out: Vec<Key> = Vec::new();
    let mut i: usize = 0;
    while i < keys.len() && i < size
        invariant
            i <= keys@.len(),
            i <= size,
            out@ == keys@.take(i as int),
        decreases keys@.len() - i,
    {
        out.push(keys[i]);
        i += 1;
        proof {
            assert(out@ =~= keys@.take(i as int));
        }
    }
    proof {
        assert(out@ =~= ranking::head_of(keys@, size as int));
    }
    out
}

/// The ids of one kind among `keys`, in order.
pub open spec fn ids_of(keys: Seq<Key>, kind: ResultKind) -> Seq<i64> {
    ranking::of_kind(keys, kind).map_values(|k: Key| k.1)
}

/// The ids of one kind among `keys`, in order.
pub fn ids_of_kind(keys: &Vec<Key>, kind: ResultKind) -> (r: Vec<i64>)
    ensures
        r@ == ids_of(keys@, kind),
{
    let mut out: Vec<i64> = Vec::new();
    let mut i: usize = 0;
    proof {
        assert(out@ =~= ids_of(keys@.take(0), kind));
    }
    while i < keys.len()
        invariant
            i <= keys@.len(),
            out@ == ids_of(keys@.take(i as int), kind),
        decreases keys@.len() - i,
    {
        let k = keys[i];
        proof {
            assert(keys@.take(i + 1).drop_last() =~= keys@.take(i as int));
            assert(keys@.take(i + 1).last() == k);
        }
        if k.0 == kind {
            out.push(k.1);
        }
        i += 1;
        proof {
            assert(out@ =~= ids_of(keys@.take(i as int), kind));
        }
    }
    proof {
        assert(keys@.take(keys@.len() as int) =~= keys@);
    }
    out
}

// ------------------------------------------------------------------ what a reranker reads

/// The text a cross-encoder judges: for a file its name and the head of its body, bounded so a
/// long document does not dominate the pair; for a directory, which has no body, its path.
pub open spec fn judged_text(kind: ResultKind, name: Seq<char>, body: Seq<char>) -> Seq<char> {
    match kind {
        ResultKind::File => name + "\n"@ + chars::first_chars(body, 2000),
        ResultKind::Dir => name,
    }
}

/// Builds the text a cross-encoder judges.
pub fn rerank_text(kind: ResultKind, name: &str, body: &Option<String>) -> (r: String)
    ensures
        r@ == judged_text(
            kind,
            name@,
            match body {
                Some(b) => b@,
                None => Seq::<char>::empty(),
            },
        ),
{
    let mut s = name.to_owned();
    match kind {
        ResultKind::File => {
            s.append("\n");
            match body {
                Some(b) => {
                    s.append(chars::take_chars(b.as_str(), 2000).as_str());
                },
                None => {},
            }
            proof {
                let b = match body {
                    Some(b) => b@,
                    None => Seq::<char>::empty(),
                };
                assert(s@ =~= name@ + "\n"@ + chars::first_chars(b, 2000));
            }
        },
        ResultKind::Dir => {},
    }
    s
}

/// Where the last entry for `key` stands, if there is one.
pub open spec fn last_entry<T>(entries: Seq<(Key, T)>, key: Key) -> Option<int>
    decreases entries.len(),
{
    if entries.len() == 0 {
        None
    } else if entries.last().0 == key {
        Some(entries.len() - 1)
    } else {
        last_entry(entries.drop_last(), key)
    }
}

fn find_entry<T>(entries: &Vec<(Key, T)>, key: Key) -> (r: Option<usize>)
    ensures
        match r {
            Some(i) => i < entries@.len() && last_entry(entries@, key) == Some(i as int),
            None => last_entry(entries@, key) is None,
        },
{
    let mut n: usize = entries.len();
    proof {
        assert(entries@.take(n as int) =~= entries@);
    }
    while n > 0
        invariant
            n <= entries@.len(),
            last_entry(entries@, key) == last_entry(entries@.take(n as int), key),
        decreases n,
    {
        proof {
            assert(entries@.take(n as int).drop_last() =~= entries@.take(n - 1));
            assert(entries@.take(n as int).last() == entries@[n - 1]);
        }
        if same_key(entries[n - 1].0, key) {
            return Some(n - 1);
        }
        n -= 1;
    }
    None
}

/// The text of `key`, or nothing where it has none.
pub open spec fn text_for(texts: Seq<(Key, String)>, key: Key) -> Seq<char> {
    match last_entry(texts, key) {
        Some(i) => texts[i].1@,
        None => Seq::<char>::empty(),
    }
}

/// One document per pool entry, in pool order.
pub fn documents(pool: &Vec<Key>, texts: &Vec<(Key, String)>) -> (r: Vec<String>)
    ensures
        text::views(r@) == pool@.map_values(|k: Key| text_for(texts@, k)),
{
    let ghost want = pool@.map_values(|k: Key| text_for(texts@, k));
    let mut out: Vec<String> = Vec::new();
    let mut i: usize = 0;
    proof {
        assert(text::views(out@) =~= want.take(0));
    }
    while i < pool.len()
        invariant
            want == pool@.map_values(|k: Key| text_for(texts@, k)),
            i <= pool@.len(),
            text::views(out@) == want.take(i as int),
        decreases pool@.len() - i,
    {
        let d = match find_entry(texts, pool[i]) {
            Some(j) => texts[j].1.as_str().to_owned(),
            None => String::new(),
        };
        proof {
            text::lemma_views_push(out@, d);
            assert(want.take(i + 1) =~= want.take(i as int).push(d@));
        }
        out.push(d);
        i += 1;
    }
    proof {
        assert(want.take(want.len() as int) =~= want);
    }
    out
}

// ------------------------------------------------------------------ results

/// Display metadata for one result.
pub struct Meta {
    pub path: String,
    pub snippet: String,
    pub file_count: Option<i64>,
}

#[derive(Debug, Clone)]
pub struct SearchResult {
    pub kind: ResultKind,
    pub path: String,
    /// Fused score; single-precision bits.
    pub score: u32,
    pub snippet: String,
    /// Rank in the dense arm counted from 1, if it appeared there.
    pub dense_rank: Option<usize>,
    /// Raw cosine similarity from the dense arm; single-precision bits. The fused score is a rank
    /// statistic and says nothing about how similar the result actually is.
    pub cosine: Option<u32>,
    /// Rank in the lexical arm counted from 1, if it appeared there.
    pub lexical_rank: Option<usize>,
    /// Raw cross-encoder score, when reranking ran; single-precision bits.
    pub rerank: Option<u32>,
    /// For a directory result, how many indexed files it holds. `None` for files.
    pub file_count: Option<i64>,
}

impl SearchResult {
    /// Directories tagged, files bare.
    pub fn display(&self) -> (r: String)
        ensures
            r@ == match self.kind {
                ResultKind::Dir => "directory:"@ + self.path@,
                ResultKind::File => self.path@,
            },
    {
        match self.kind {
            ResultKind::Dir => {
                let mut s = "directory:".to_owned();
                s.append(self.path.as_str());
                s
            },
            ResultKind::File => self.path.as_str().to_owned(),
        }
    }
}

/// What is known of results by key: positions, similarities and scores.
pub struct Standings {
    pub dense: Vec<(Key, usize)>,
    pub lexical: Vec<(Key, usize)>,
    pub cosines: Vec<(Key, u32)>,
    pub scores: Vec<(Key, u32)>,
    pub rerank: Vec<(Key, u32)>,
}

/// `r` is the result for `key`, with the metadata `m`.
pub open spec fn shows(r: SearchResult, key: Key, m: Meta, s: &Standings) -> bool {
    &&& r.kind == key.0
    &&& r.path@ == m.path@
    &&& r.snippet@ == m.snippet@
    &&& r.file_count == m.file_count
    &&& r.score == match ranking::last_value(s.scores@, key) {
        Some(x) => x,
        None => 0,
    }
    &&& r.dense_rank == ranking::last_value(s.dense@, key)
    &&& r.cosine == ranking::last_value(s.cosines@, key)
    &&& r.lexical_rank == ranking::last_value(s.lexical@, key)
    &&& r.rerank == ranking::last_value(s.rerank@, key)
}

/// `r` is the result for `key`, with the last metadata that `meta` has for it.
pub open spec fn resolved(r: SearchResult, key: Key, meta: Seq<(Key, Meta)>, s: &Standings) -> bool {
    match last_entry(meta, key) {
        Some(i) => shows(r, key, meta[i].1, s),
        None => false,
    }
}

/// The keys that still have metadata, in order.
pub open spec fn resolvable(keys: Seq<Key>, meta: Seq<(Key, Meta)>) -> Seq<Key>
    decreases keys.len(),
{
    if keys.len() == 0 {
        seq![]
    } else {
        let before = resolvable(keys.drop_last(), meta);
        if last_entry(meta, keys.last()) is Some {
            before.push(keys.last())
        } else {
            before
        }
    }
}

/// Assembles the results in key order. A key without metadata was deleted between ranking and
/// resolution; it is skipped rather than shown with a path that is no longer in the index.
pub fn assemble(keys: &Vec<Key>, meta: &Vec<(Key, Meta)>, s: &Standings) -> (r: Vec<SearchResult>)
    ensures
        r@.len() == resolvable(keys@, meta@).len(),
        forall|j: int|
            0 <= j < r@.len() ==> resolved(
                #[trigger] r@[j],
                resolvable(keys@, meta@)[j],
                meta@,
                s,
            ),
{
    let mut out: Vec<SearchResult> = Vec::new();
    let mut i: usize = 0;
    while i < keys.len()
        invariant
            i <= keys@.len(),
            out@.len() == resolvable(keys@.take(i as int), meta@).len(),
            forall|j: int|
                0 <= j < out@.len() ==> resolved(
                    #[trigger] out@[j],
                    resolvable(keys@.take(i as int), meta@)[j],
                    meta@,
                    s,
                ),
        decreases keys@.len() - i,
    {
        let key = keys[i];
        proof {
            assert(keys@.take(i + 1).drop_last() =~= keys@.take(i as int));
            assert(keys@.take(i + 1).last() == key);
        }
        if let Some(p) = find_entry(meta, key) {
            let m = &meta[p].1;
            let score: u32 = match ranking::value_of(&s.scores, key) {
                Some(x) => x,
                None => 0,
            };
            let one = SearchResult {
                kind: key.0,
                path: m.path.as_str().to_owned(),
                score,
                snippet: m.snippet.as_str().to_owned(),
                dense_rank: ranking::value_of(&s.dense, key),
                cosine: ranking::value_of(&s.cosines, key),
                lexical_rank: ranking::value_of(&s.lexical, key),
                rerank: ranking::value_of(&s.rerank, key),
                file_count: m.file_count,
            };
            proof {
                assert(resolved(one, key, meta@, s));
            }
            out.push(one);
        }
        i += 1;
    }
    proof {
        assert(keys@.take(keys@.len() as int) =~= keys@);
    }
    out
}

/// Why a hybrid search would silently return full-text-only results: the vector index is missing,
/// or it opened and holds nothing. An index that does not open (`rows` is `None`) is not reported
/// here, since the dense arm fails loudly with the real cause.
pub fn store_gap(present: bool, rows: Option<usize>) -> (r: Option<String>)
    ensures
        match r {
            Some(s) => if !present {
                s@ == "no vector index found"@
            } else {
                rows == Some(0usize) && s@
                    == "the vector index is empty (indexing was likely interrupted)"@
            },
            None => present && rows != Some(0usize),
        },
{
    if !present {
        return Some("no vector index found".to_owned());
    }
    match rows {
        Some(n) => {
            if n == 0 {
                return Some(
                    "the vector index is empty (indexing was likely interrupted)".to_owned(),
                );
            }
            None
        },
        None => None,
    }
}

/// A path with the home directory replaced by `~`.
pub open spec fn tilded(p: Seq<char>, home: Option<String>) -> Seq<char> {
    match home {
        Some(h) => if h@.len() > 0 && chars::begins_with(p, h@) {
            "~"@ + p.skip(h@.len() as int)
        } else {
            p
        },
        None => p,
    }
}

/// Shortens a path for display by replacing the home directory with `~`.
pub fn tilde(p: &str, home: &Option<String>) -> (r: String)
    ensures
        r@ == tilded(p@, *home),
{
    match home {
        Some(h) => {
            if !h.as_str().is_empty() && chars::starts_with(p, h.as_str()) {
                let cs = text::chars_of(p);
                let hs = text::chars_of(h.as_str());
                let mut s = "~".to_owned();
                let rest = text::from_chars(&cs[hs.len()..cs.len()]);
                s.append(rest.as_str());
                proof {
                    assert(rest@ =~= p@.skip(h@.len() as int));
                }
                return s;
            }
            p.to_owned()
        },
        None => p.to_owned(),
    }
}

// ------------------------------------------------------------------ laws

/// Every emitted term is quoted: no operator of the full-text syntax survives from the input. The
/// term is a quotation mark, the word, a quotation mark, and at most a trailing asterisk.
pub proof fn every_term_is_a_quoted_word(words: Seq<Seq<char>>, i: int)
    requires
        0 <= i < words.len(),
    ensures
        ({
            let t = fts_terms(words)[i];
            let w = chars::lower(words[i]);
            let star = i + 1 == words.len() && w.len() >= 2;
            &&& t.len() == w.len() + 2 + if star {
                1int
            } else {
                0
            }
            &&& t[0] == '"'
            &&& t.subrange(1, 1 + w.len() as int) == w
            &&& t[1 + w.len() as int] == '"'
            &&& star ==> t.last() == '*'
        }),
{
    reveal_strlit("\"");
    reveal_strlit("\"*");
    let t = fts_terms(words)[i];
    let w = chars::lower(words[i]);
    assert(t.subrange(1, 1 + w.len() as int) =~= w);
}

/// Words hold letters and digits only, so no separator or operator is part of one.
pub proof fn words_are_alphanumeric(s: Seq<char>, i: int, j: int)
    requires
        0 <= i < words_of(s).len(),
        0 <= j < words_of(s)[i].len(),
    ensures
        chars::alphanumeric(words_of(s)[i][j]),
{
    lemma_runs_alphanumeric(s);
    let (done, cur) = word_runs(s);
    if i < done.len() {
        assert(words_of(s)[i] == done[i]);
        assert(chars::alphanumeric(done[i][j]));
    } else {
        assert(chars::alphanumeric(cur[j]));
    }
}

/// Letters and digits lengthen the word that a text ends in.
proof fn lemma_word_appended(s: Seq<char>, w: Seq<char>)
    requires
        forall|j: int| 0 <= j < w.len() ==> chars::alphanumeric(#[trigger] w[j]),
    ensures
        word_runs(s + w) == (word_runs(s).0, word_runs(s).1 + w),
    decreases w.len(),
{
    if w.len() == 0 {
        assert(s + w =~= s);
        assert(word_runs(s).1 + w =~= word_runs(s).1);
    } else {
        lemma_word_appended(s, w.drop_last());
        assert((s + w).drop_last() =~= s + w.drop_last());
        assert((word_runs(s).1 + w.drop_last()).push(w.last()) =~= word_runs(s).1 + w);
    }
}

/// A separator ends the word that a text ends in.
proof fn lemma_separator_appended(s: Seq<char>, sep: Seq<char>)
    requires
        sep.len() > 0,
        forall|j: int| 0 <= j < sep.len() ==> !chars::alphanumeric(#[trigger] sep[j]),
    ensures
        word_runs(s + sep) == (words_of(s), Seq::<char>::empty()),
    decreases sep.len(),
{
    assert((s + sep).drop_last() =~= s + sep.drop_last());
    if sep.len() == 1 {
        assert(s + sep.drop_last() =~= s);
    } else {
        lemma_separator_appended(s, sep.drop_last());
    }
}

/// Joining words by what is no part of a word keeps them.
proof fn lemma_words_of_joined(words: Seq<Seq<char>>, sep: Seq<char>)
    requires
        sep.len() > 0,
        forall|j: int| 0 <= j < sep.len() ==> !chars::alphanumeric(#[trigger] sep[j]),
        forall|i: int| 0 <= i < words.len() ==> (#[trigger] words[i]).len() > 0,
        forall|i: int, j: int|
            0 <= i < words.len() && 0 <= j < words[i].len() ==> chars::alphanumeric(
                #[trigger] words[i][j],
            ),
    ensures
        words_of(text::joined(words, sep)) == words,
    decreases words.len(),
{
    let none = Seq::<char>::empty();
    if words.len() == 0 {
        assert(words_of(none) =~= words);
    } else if words.len() == 1 {
        lemma_word_appended(none, words[0]);
        assert(none + words[0] =~= words[0]);
        assert(words_of(words[0]) =~= words);
    } else {
        let init = words.drop_last();
        let last = words.last();
        assert forall|i: int, j: int| 0 <= i < init.len() && 0 <= j < init[i].len() implies
            chars::alphanumeric(#[trigger] init[i][j]) by {
            assert(chars::alphanumeric(words[i][j]));
        }
        lemma_words_of_joined(init, sep);
        lemma_separator_appended(text::joined(init, sep), sep);
        assert forall|j: int| 0 <= j < last.len() implies chars::alphanumeric(
            #[trigger] last[j],
        ) by {
            assert(chars::alphanumeric(words[words.len() - 1][j]));
        }
        lemma_word_appended(text::joined(init, sep) + sep, last);
        assert(none + last =~= last);
        assert(init.push(last) =~= words);
    }
}

/// Only the words of an input matter, not what stands between them: the words of a query, joined
/// by spaces, ask for the same.
pub proof fn words_joined_by_spaces_ask_the_same(s: Seq<char>)
    ensures
        words_of(text::joined(words_of(s), " "@)) == words_of(s),
        fts_terms(words_of(text::joined(words_of(s), " "@))) == fts_terms(words_of(s)),
{
    reveal_strlit(" ");
    assert forall|i: int, j: int|
        0 <= i < words_of(s).len() && 0 <= j < words_of(s)[i].len() implies chars::alphanumeric(
        #[trigger] words_of(s)[i][j],
    ) by {
        words_are_alphanumeric(s, i, j);
    }
    lemma_runs_alphanumeric(s);
    lemma_words_of_joined(words_of(s), " "@);
}

proof fn lemma_runs_alphanumeric(s: Seq<char>)
    ensures
        forall|j: int| 0 <= j < word_runs(s).1.len() ==> chars::alphanumeric(#[trigger] word_runs(s).1[j]),
        forall|i: int, j: int|
            0 <= i < word_runs(s).0.len() && 0 <= j < word_runs(s).0[i].len()
                ==> chars::alphanumeric(#[trigger] word_runs(s).0[i][j]),
        forall|i: int| 0 <= i < word_runs(s).0.len() ==> (#[trigger] word_runs(s).0[i]).len() > 0,
    decreases s.len(),
{
    if s.len() > 0 {
        lemma_runs_alphanumeric(s.drop_last());
        let (d0, c0) = word_runs(s.drop_last());
        let (d1, c1) = word_runs(s);
        assert forall|j: int| 0 <= j < c1.len() implies chars::alphanumeric(#[trigger] c1[j]) by {
            if j < c0.len() {
                assert(chars::alphanumeric(c0[j]));
            }
        }
        assert forall|i: int, j: int| 0 <= i < d1.len() && 0 <= j < d1[i].len() implies chars::alphanumeric(
            #[trigger] d1[i][j],
        ) by {
            if i < d0.len() {
                assert(chars::alphanumeric(d0[i][j]));
            } else {
                assert(chars::alphanumeric(c0[j]));
            }
        }
    }
}

/// Dense evidence is relevant evidence: nothing below the floor takes part in fusion.
pub proof fn nothing_below_the_floor(kind: ResultKind, hits: Seq<Hit>, floor: u32, i: int)
    requires
        0 <= i < above_floor(kind, hits, floor).len(),
    ensures
        score::at_least(above_floor(kind, hits, floor)[i].1, floor),
    decreases hits.len(),
{
    if hits.len() > 0 {
        let before = above_floor(kind, hits.drop_last(), floor);
        if i < before.len() {
            nothing_below_the_floor(kind, hits.drop_last(), floor, i);
        }
    }
}

/// Every hit at or above the floor takes part, in the order of the hits, under its kind and row and
/// with its score; a floor or a score that is no number lets nothing through.
pub proof fn every_hit_at_the_floor_is_kept(kind: ResultKind, hits: Seq<Hit>, floor: u32)
    ensures
        above_floor(kind, hits, floor) == hits.filter(
            |h: Hit|
                !score::not_a_number(h.score) && !score::not_a_number(floor) && score::value(h.score)
                    >= score::value(floor),
        ).map_values(|h: Hit| ((kind, h.row as i64), h.score)),
    decreases hits.len(),
{
    reveal(Seq::filter);
    let p = |h: Hit|
        !score::not_a_number(h.score) && !score::not_a_number(floor) && score::value(h.score)
            >= score::value(floor);
    let f = |h: Hit| ((kind, h.row as i64), h.score);
    if hits.len() > 0 {
        every_hit_at_the_floor_is_kept(kind, hits.drop_last(), floor);
        let rest = hits.drop_last().filter(p);
        if p(hits.last()) {
            assert(rest.push(hits.last()).map_values(f) =~= rest.map_values(f).push(f(hits.last())));
        }
    } else {
        assert(above_floor(kind, hits, floor) =~= hits.filter(p).map_values(f));
    }
}

/// A hit that is at the floor or above is found again among what is kept, wherever it stands.
pub proof fn no_hit_at_the_floor_is_lost(kind: ResultKind, hits: Seq<Hit>, floor: u32, i: int)
    requires
        0 <= i < hits.len(),
        !score::not_a_number(hits[i].score),
        !score::not_a_number(floor),
        score::value(hits[i].score) >= score::value(floor),
    ensures
        above_floor(kind, hits, floor).contains(((kind, hits[i].row as i64), hits[i].score)),
    decreases hits.len(),
{
    let all = above_floor(kind, hits, floor);
    let before = above_floor(kind, hits.drop_last(), floor);
    let want = ((kind, hits[i].row as i64), hits[i].score);
    if i < hits.len() - 1 {
        no_hit_at_the_floor_is_lost(kind, hits.drop_last(), floor, i);
        let k = choose|k: int| 0 <= k < before.len() && before[k] == want;
        assert(all[k] == want);
    } else {
        assert(all[all.len() - 1] == want);
    }
}

/// The keys of rows are the rows, each under its kind.
pub proof fn every_row_has_its_key(kind: ResultKind, ids: Seq<i64>, i: int)
    requires
        0 <= i < ids.len(),
    ensures
        keyed(kind, ids).len() == ids.len(),
        keyed(kind, ids)[i].0 == kind,
        keyed(kind, ids)[i].1 == ids[i],
{
}

/// What a reranker reads of a file is its name, a line feed, and the first 2000 characters of its
/// body, or as many as there are; of a directory it is the path, and nothing of a body.
pub proof fn a_reranker_reads_name_and_head(name: Seq<char>, body: Seq<char>)
    ensures
        ({
            let t = judged_text(ResultKind::File, name, body);
            let n = if body.len() < 2000 {
                body.len()
            } else {
                2000
            };
            &&& t.len() == name.len() + 1 + n
            &&& forall|i: int| 0 <= i < name.len() ==> #[trigger] t[i] == name[i]
            &&& t[name.len() as int] == '\n'
            &&& forall|i: int| 0 <= i < n ==> t[name.len() + 1 + i] == #[trigger] body[i]
        }),
        judged_text(ResultKind::Dir, name, body) == name,
{
    reveal_strlit("\n");
}

/// Of several entries for a key the last one counts, and there is one exactly where the key occurs.
pub proof fn the_last_entry_counts<T>(entries: Seq<(Key, T)>, key: Key)
    ensures
        match last_entry(entries, key) {
            Some(i) => {
                &&& 0 <= i < entries.len()
                &&& entries[i].0 == key
                &&& forall|j: int| i < j < entries.len() ==> (#[trigger] entries[j]).0 != key
            },
            None => forall|j: int| 0 <= j < entries.len() ==> (#[trigger] entries[j]).0 != key,
        },
    decreases entries.len(),
{
    if entries.len() > 0 && entries.last().0 != key {
        the_last_entry_counts(entries.drop_last(), key);
        let init = entries.drop_last();
        assert forall|j: int| 0 <= j < entries.len() - 1 implies #[trigger] entries[j]
            == init[j] by {}
    }
}

/// The document of a candidate is the last text there is for it, and empty where there is none.
pub proof fn a_candidate_is_judged_by_its_own_text(texts: Seq<(Key, String)>, key: Key, i: int)
    requires
        0 <= i < texts.len(),
        texts[i].0 == key,
        forall|j: int| i < j < texts.len() ==> (#[trigger] texts[j]).0 != key,
    ensures
        text_for(texts, key) == texts[i].1@,
{
    the_last_entry_counts(texts, key);
}

/// A candidate without a text has an empty document.
pub proof fn a_candidate_without_text_has_none(texts: Seq<(Key, String)>, key: Key)
    requires
        forall|j: int| 0 <= j < texts.len() ==> (#[trigger] texts[j]).0 != key,
    ensures
        text_for(texts, key) == Seq::<char>::empty(),
{
    the_last_entry_counts(texts, key);
}

/// Every ranked key that the index still knows is shown, in rank order, and no other.
pub proof fn every_known_key_is_shown(keys: Seq<Key>, meta: Seq<(Key, Meta)>)
    ensures
        resolvable(keys, meta) == keys.filter(
            |k: Key| exists|j: int| 0 <= j < meta.len() && (#[trigger] meta[j]).0 == k,
        ),
    decreases keys.len(),
{
    reveal(Seq::filter);
    if keys.len() > 0 {
        every_known_key_is_shown(keys.drop_last(), meta);
        the_last_entry_counts(meta, keys.last());
    }
}

/// The ids of a kind are those of its keys, in order.
pub proof fn the_ids_of_a_kind_are_those_of_its_keys(keys: Seq<Key>, kind: ResultKind)
    ensures
        ids_of(keys, kind) == keys.filter(|k: Key| k.0 == kind).map_values(|k: Key| k.1),
    decreases keys.len(),
{
    reveal(Seq::filter);
    let p = |k: Key| k.0 == kind;
    let f = |k: Key| k.1;
    if keys.len() > 0 {
        the_ids_of_a_kind_are_those_of_its_keys(keys.drop_last(), kind);
        let rest = keys.drop_last().filter(p);
        assert(ids_of(keys.drop_last(), kind) == rest.map_values(f));
        if p(keys.last()) {
            assert(rest.push(keys.last()).map_values(f) =~= rest.map_values(f).push(keys.last().1));
            assert(ids_of(keys, kind) =~= ids_of(keys.drop_last(), kind).push(keys.last().1));
        } else {
            assert(ids_of(keys, kind) =~= ids_of(keys.drop_last(), kind));
        }
    } else {
        assert(ids_of(keys, kind) =~= keys.filter(p).map_values(f));
    }
}

/// Taking the scores off a list, or taking a fused list apart, keeps every entry in its place.
pub proof fn taking_a_list_apart_keeps_its_places(
    pairs: Seq<(Key, u32)>,
    fused: Seq<Fused>,
    i: int,
    j: int,
)
    requires
        0 <= i < pairs.len(),
        0 <= j < fused.len(),
    ensures
        keys_only(pairs).len() == pairs.len(),
        keys_only(pairs)[i] == pairs[i].0,
        fused_keys(fused).len() == fused.len(),
        fused_keys(fused)[j] == fused[j].key,
        fused_scores(fused).len() == fused.len(),
        fused_scores(fused)[j].0 == fused[j].key,
        fused_scores(fused)[j].1 == fused[j].score,
{
}

/// A path in the home directory is shown from `~` on: the rest is the path's own. Any other path is
/// shown as it is.
pub proof fn only_the_home_directory_is_abbreviated(p: Seq<char>, home: String)
    ensures
        ({
            let r = tilded(p, Some(home));
            if home@.len() > 0 && home@.len() <= p.len() && p.take(home@.len() as int) == home@ {
                &&& r.len() == p.len() - home@.len() + 1
                &&& r[0] == '~'
                &&& home@ + r.skip(1) == p
            } else {
                r == p
            }
        }),
        tilded(p, None) == p,
{
    reveal_strlit("~");
    let r = tilded(p, Some(home));
    if home@.len() > 0 && home@.len() <= p.len() && p.take(home@.len() as int) == home@ {
        assert(r.skip(1) =~= p.skip(home@.len() as int));
        assert(home@ + r.skip(1) =~= p);
    }
}

/// Letters and digits by themselves are one word.
pub proof fn a_run_of_letters_is_one_word(w: Seq<char>)
    requires
        w.len() > 0,
        forall|j: int| 0 <= j < w.len() ==> chars::alphanumeric(#[trigger] w[j]),
    ensures
        words_of(w) == seq![w],
{
    let none = Seq::<char>::empty();
    lemma_word_appended(none, w);
    assert(none + w =~= w);
    assert(words_of(w) =~= seq![w]);
}

/// What is neither letter nor digit parts the words, and is part of none: the words of a text are
/// those before it, then those after it.
pub proof fn a_separator_parts_the_words(a: Seq<char>, c: char, b: Seq<char>)
    requires
        !chars::alphanumeric(c),
    ensures
        words_of(a.push(c) + b) == words_of(a) + words_of(b),
        words_of(Seq::<char>::empty()) == Seq::<Seq<char>>::empty(),
{
    lemma_runs_after_separator(a, c, b);
    let (done, cur) = word_runs(b);
    assert(words_of(a.push(c) + b) =~= words_of(a) + words_of(b));
}

proof fn lemma_runs_after_separator(a: Seq<char>, c: char, b: Seq<char>)
    requires
        !chars::alphanumeric(c),
    ensures
        word_runs(a.push(c) + b) == (words_of(a) + word_runs(b).0, word_runs(b).1),
    decreases b.len(),
{
    let s = a.push(c) + b;
    if b.len() == 0 {
        assert(s =~= a.push(c));
        assert(s.drop_last() =~= a);
        assert(words_of(a) + word_runs(b).0 =~= words_of(a));
    } else {
        lemma_runs_after_separator(a, c, b.drop_last());
        assert(s.drop_last() =~= a.push(c) + b.drop_last());
        let before = word_runs(b.drop_last());
        if !chars::alphanumeric(b.last()) && before.1.len() > 0 {
            assert((words_of(a) + before.0).push(before.1) =~= words_of(a) + before.0.push(
                before.1,
            ));
        }
    }
}

/// There is one term for each word, in order.
pub proof fn every_word_becomes_a_term(words: Seq<Seq<char>>)
    ensures
        fts_terms(words).len() == words.len(),
{
}

/// A result carries what its metadata says and, under its own key, the last of each standing; one
/// that an arm did not find carries no rank of that arm.
pub proof fn a_result_carries_its_own_standings(
    r: SearchResult,
    key: Key,
    m: Meta,
    s: Standings,
    i: int,
)
    requires
        shows(r, key, m, &s),
    ensures
        r.kind == key.0 && r.path@ == m.path@ && r.snippet@ == m.snippet@ && r.file_count
            == m.file_count,
        0 <= i < s.rerank@.len() && s.rerank@[i].0 == key && (forall|j: int|
            i < j < s.rerank@.len() ==> s.rerank@[j].0 != key) ==> r.rerank == Some(s.rerank@[i].1),
        0 <= i < s.dense@.len() && s.dense@[i].0 == key && (forall|j: int|
            i < j < s.dense@.len() ==> s.dense@[j].0 != key) ==> r.dense_rank == Some(
            s.dense@[i].1,
        ),
        0 <= i < s.lexical@.len() && s.lexical@[i].0 == key && (forall|j: int|
            i < j < s.lexical@.len() ==> s.lexical@[j].0 != key) ==> r.lexical_rank == Some(
            s.lexical@[i].1,
        ),
        0 <= i < s.cosines@.len() && s.cosines@[i].0 == key && (forall|j: int|
            i < j < s.cosines@.len() ==> s.cosines@[j].0 != key) ==> r.cosine == Some(
            s.cosines@[i].1,
        ),
        0 <= i < s.scores@.len() && s.scores@[i].0 == key && (forall|j: int|
            i < j < s.scores@.len() ==> s.scores@[j].0 != key) ==> r.score == s.scores@[i].1,
        (forall|j: int| 0 <= j < s.rerank@.len() ==> s.rerank@[j].0 != key) ==> r.rerank is None,
        (forall|j: int| 0 <= j < s.dense@.len() ==> s.dense@[j].0 != key) ==> r.dense_rank is None,
        (forall|j: int| 0 <= j < s.lexical@.len() ==> s.lexical@[j].0 != key)
            ==> r.lexical_rank is None,
{
    lemma_last_of(s.rerank@, key, i);
    lemma_last_of(s.dense@, key, i);
    lemma_last_of(s.lexical@, key, i);
    lemma_last_of(s.cosines@, key, i);
    lemma_last_of(s.scores@, key, i);
}

proof fn lemma_last_of<T>(entries: Seq<(Key, T)>, key: Key, i: int)
    ensures
        0 <= i < entries.len() && entries[i].0 == key && (forall|j: int|
            i < j < entries.len() ==> entries[j].0 != key) ==> ranking::last_value(entries, key)
            == Some(entries[i].1),
        (forall|j: int| 0 <= j < entries.len() ==> entries[j].0 != key) ==> ranking::last_value(
            entries,
            key,
        ) is None,
    decreases entries.len(),
{
    if entries.len() > 0 {
        let init = entries.drop_last();
        let n = entries.len() - 1;
        lemma_last_of(init, key, i);
        assert forall|j: int| 0 <= j < n implies init[j] == entries[j] by {}
        assert(entries.last() == entries[n]);
        if forall|j: int| 0 <= j < entries.len() ==> entries[j].0 != key {
            assert forall|j: int| 0 <= j < init.len() implies init[j].0 != key by {
                assert(entries[j].0 != key);
            }
            assert(entries[n].0 != key);
        }
        if 0 <= i < entries.len() && entries[i].0 == key && (forall|j: int|
            i < j < entries.len() ==> entries[j].0 != key) {
            if i < n {
                assert(entries[n].0 != key);
                assert(init[i].0 == key);
                assert forall|j: int| i < j < init.len() implies init[j].0 != key by {
                    assert(entries[j].0 != key);
                }
            }
        }
    }
}

/// Nothing is searched for where the query is blank; each arm is asked unless the other alone was
/// asked for, and the dense one only where there is a model.
pub proof fn both_arms_are_asked_unless_one_is_named(req: Request, has_embedder: bool, p: Plan)
    requires
        call_ensures(Request::plan, (&req, has_embedder), p),
    ensures
        chars::trimmed(req.text@).len() == 0 ==> !p.dense && !p.lexical,
        chars::trimmed(req.text@).len() > 0 && req.mode == Mode::Hybrid ==> p.lexical && p.dense
            == has_embedder,
        req.mode == Mode::Lexical ==> !p.dense,
        req.mode == Mode::Dense ==> !p.lexical,
        chars::trimmed(req.text@).len() > 0 && req.mode == Mode::Lexical ==> p.lexical,
        chars::trimmed(req.text@).len() > 0 && req.mode == Mode::Dense ==> p.dense == has_embedder,
{
}

/// A full-text query asks for any of the words, and there is none without a word.
pub proof fn any_of_the_words_is_asked_for(
    input: &str,
    r: Option<String>,
    a: Seq<char>,
    b: Seq<char>,
)
    requires
        call_ensures(fts_query, (input,), r),
    ensures
        r is None <==> words_of(input@).len() == 0,
        words_of(input@) == seq![a] ==> r is Some && r->0@ == fts_term(chars::lower(a), true),
        words_of(input@) == seq![a, b] ==> r is Some && r->0@ == fts_term(chars::lower(a), false) + " OR "@
            + fts_term(chars::lower(b), true),
{
    let w = words_of(input@);
    reveal_with_fuel(text::joined, 3);
    if w == seq![a] {
        assert(fts_terms(w) =~= seq![fts_term(chars::lower(a), true)]);
    }
    if w == seq![a, b] {
        assert(fts_terms(w) =~= seq![fts_term(chars::lower(a), false), fts_term(chars::lower(b), true)]);
        assert(fts_terms(w).drop_last() =~= seq![fts_term(chars::lower(a), false)]);
    }
}

} // verus!
