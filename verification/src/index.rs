//! Building and refreshing the index: which roots to walk, what each file needs, which directories
//! get a row, and when a scan is due.
use crate::config;
use crate::config::{deepest_root, depth_of, Config, Profile, Refresh, Root};
use crate::db::{FileStat, NO_VEC};
use crate::extract;
use crate::extract::{Extracted, Kind};
use crate::lexical;
use crate::lexical::ByPath;
use crate::order;
use crate::order::{sort_by_order, sorted_positions, ByNumber, ByTwo, Order};
use crate::path;
use crate::text;
use crate::walk;
use crate::walk::{keep_outermost, Found};
use vstd::prelude::*;
use vstd::relations::*;

verus! {

/// Files prepared before each embed and write cycle. Bounds peak memory.
pub const BATCH: usize = 512;

/// Directory names handed to the embedder per forward pass during the rollup.
pub const EMBED_GROUP: usize = 512;

/// What a scan is asked to do.
#[derive(Debug, Clone)]
pub struct ScanOptions {
    /// Re-extract and re-embed regardless of the modification-time and content-hash caches.
    pub force: bool,
    /// Walk and report without writing.
    pub dry_run: bool,
    /// Restrict to one configured root.
    pub only_root: Option<String>,
    /// Compute and store vectors. False indexes metadata and full text only, which is useful
    /// before a model is available and for lexical search.
    pub embed: bool,
    /// Print a progress bar.
    pub progress: bool,
}

impl Default for ScanOptions {
    fn default() -> (r: Self)
        ensures
            r == (ScanOptions {
                force: false,
                dry_run: false,
                only_root: None,
                embed: false,
                progress: false,
            }),
    {
        ScanOptions { force: false, dry_run: false, only_root: None, embed: false, progress: false }
    }
}

/// What a scan did.
#[derive(Debug, Clone, Copy, PartialEq, Eq, Structural)]
pub struct ScanStats {
    pub seen: usize,
    pub added: usize,
    pub updated: usize,
    pub unchanged: usize,
    pub embedded: usize,
    pub deleted_files: usize,
    pub deleted_dirs: usize,
    pub dirs: usize,
    /// Entries the walker could not read, e.g. permission-denied directories.
    pub skipped: usize,
}

impl Default for ScanStats {
    fn default() -> (r: Self)
        ensures
            r == (ScanStats {
                seen: 0,
                added: 0,
                updated: 0,
                unchanged: 0,
                embedded: 0,
                deleted_files: 0,
                deleted_dirs: 0,
                dirs: 0,
                skipped: 0,
            }),
    {
        ScanStats {
            seen: 0,
            added: 0,
            updated: 0,
            unchanged: 0,
            embedded: 0,
            deleted_files: 0,
            deleted_dirs: 0,
            dirs: 0,
            skipped: 0,
        }
    }
}

// ------------------------------------------------------------------ roots to walk

/// The positions of the roots that a scan is asked for: all of them, or those that name one place.
pub open spec fn asked_for(paths: Seq<Seq<char>>, only: Option<Seq<char>>) -> Seq<usize>
    decreases paths.len(),
{
    if paths.len() == 0 {
        seq![]
    } else {
        let before = asked_for(paths.drop_last(), only);
        if match only {
            Some(o) => path::components(paths.last()) == path::components(o),
            None => true,
        } {
            before.push((paths.len() - 1) as usize)
        } else {
            before
        }
    }
}

/// Outer places first; of equally deep ones the one that is spelled shorter, then the earlier.
pub open spec fn outer_first(paths: Seq<Seq<char>>) -> spec_fn(usize, usize) -> bool {
    |a: usize, b: usize|
        {
            let p = paths[a as int];
            let q = paths[b as int];
            if config::depth(p) != config::depth(q) {
                config::depth(p) < config::depth(q)
            } else if config::spelled_len(p) != config::spelled_len(q) {
                config::spelled_len(p) < config::spelled_len(q)
            } else {
                a <= b
            }
        }
}

/// The roots to walk: those asked for, outermost first, but none inside another. A nested root
/// still contributes its profile through `Config::profile_for`, so dropping it here changes nothing
/// except the duplicated work.
pub open spec fn walked_roots(paths: Seq<Seq<char>>, only: Option<Seq<char>>) -> Seq<usize> {
    walk::outermost(paths, asked_for(paths, only).sort_by(outer_first(paths)))
}

/// No root to walk.
pub struct NoRoots {
    pub message: String,
}

/// Why there is no root to walk.
pub open spec fn no_roots_message(only: Option<Seq<char>>) -> Seq<char> {
    "no roots configured"@ + (match only {
        Some(o) => " matching "@ + o,
        None => Seq::<char>::empty(),
    }) + ". Run `wom init` first."@
}

/// The text of an optional string.
pub open spec fn text_of(s: Option<String>) -> Option<Seq<char>> {
    match s {
        Some(s) => Some(s@),
        None => None,
    }
}

fn find_asked_for(paths: &Vec<String>, only: &Option<String>) -> (r: Vec<usize>)
    ensures
        r@ == asked_for(text::views(paths@), text_of(*only)),
        forall|i: int| 0 <= i < r@.len() ==> (#[trigger] r@[i]) < paths@.len(),
{
    let ghost ps = text::views(paths@);
    let ghost o = text_of(*only);
    let mut out: Vec<usize> = Vec::new();
    let mut i: usize = 0;
    while i < paths.len()
        invariant
            ps == text::views(paths@),
            ps.len() == paths@.len(),
            o == text_of(*only),
            i <= paths@.len(),
            out@ == asked_for(ps.take(i as int), o),
            forall|k: int| 0 <= k < out@.len() ==> (#[trigger] out@[k]) < i,
        decreases paths@.len() - i,
    {
        proof {
            assert(ps.take(i + 1).drop_last() =~= ps.take(i as int));
            assert(ps.take(i + 1).last() == paths@[i as int]@);
        }
        let wanted = match only {
            Some(r) => path::same_path(paths[i].as_str(), r.as_str()),
            None => true,
        };
        if wanted {
            out.push(i);
        }
        i += 1;
    }
    proof {
        assert(ps.take(ps.len() as int) =~= ps);
    }
    out
}

fn spelled_lengths(paths: &Vec<String>) -> (r: ByNumber)
    ensures
        forall|i: usize|
            i < paths@.len() ==> #[trigger] r.key(i) == config::spelled_len(paths@[i as int]@),
{
    let mut out: Vec<usize> = Vec::new();
    let mut i: usize = 0;
    while i < paths.len()
        invariant
            i <= paths@.len(),
            out@.len() == i,
            forall|k: int| 0 <= k < i ==> #[trigger] out@[k] == config::spelled_len(paths@[k]@),
        decreases paths@.len() - i,
    {
        out.push(paths[i].as_str().as_bytes().len());
        i += 1;
    }
    ByNumber { keys: out, down: false }
}

fn depths(paths: &Vec<String>) -> (r: ByNumber)
    ensures
        forall|i: usize|
            i < paths@.len() ==> #[trigger] r.key(i) == config::depth(paths@[i as int]@),
{
    let mut out: Vec<usize> = Vec::new();
    let mut i: usize = 0;
    while i < paths.len()
        invariant
            i <= paths@.len(),
            out@.len() == i,
            forall|k: int| 0 <= k < i ==> #[trigger] out@[k] == config::depth(paths@[k]@),
        decreases paths@.len() - i,
    {
        out.push(depth_of(paths[i].as_str()));
        i += 1;
    }
    ByNumber { keys: out, down: false }
}

/// The roots to walk, as positions in the configured ones.
pub fn walk_roots(roots: &Vec<Root>, only: &Option<String>) -> (r: Result<Vec<usize>, NoRoots>)
    ensures
        ({
            let w = walked_roots(config::root_paths(roots@), text_of(*only));
            match r {
                Ok(v) => v@ == w && w.len() > 0,
                Err(e) => w.len() == 0 && e.message@ == no_roots_message(text_of(*only)),
            }
        }),
        match r {
            Ok(v) => forall|i: int| 0 <= i < v@.len() ==> (#[trigger] v@[i]) < roots@.len(),
            Err(_) => true,
        },
{
    let mut paths: Vec<String> = Vec::new();
    let ghost ps = config::root_paths(roots@);
    let mut i: usize = 0;
    proof {
        assert(text::views(paths@) =~= ps.take(0));
    }
    while i < roots.len()
        invariant
            ps == config::root_paths(roots@),
            ps.len() == roots@.len(),
            i <= roots@.len(),
            text::views(paths@) == ps.take(i as int),
        decreases roots@.len() - i,
    {
        let s = roots[i].path.as_str().to_owned();
        proof {
            text::lemma_views_push(paths@, s);
            assert(ps.take(i + 1) =~= ps.take(i as int).push(s@));
        }
        paths.push(s);
        i += 1;
    }
    proof {
        assert(ps.take(ps.len() as int) =~= ps);
        assert(text::views(paths@).len() == paths@.len());
    }
    let asked = find_asked_for(&paths, only);
    let o = ByTwo { first: depths(&paths), second: spelled_lengths(&paths) };
    let sorted = sort_by_order(&o, &asked);
    proof {
        let le = outer_first(ps);
        asked@.to_multiset_ensures();
        sorted@.to_multiset_ensures();
        assert forall|k: int| 0 <= k < sorted@.len() implies (#[trigger] sorted@[k])
            < paths@.len() by {
            assert(sorted@.contains(sorted@[k]));
            assert(sorted@.to_multiset().count(sorted@[k]) > 0);
            assert(asked@.contains(sorted@[k]));
        }
        assert forall|a: usize| a < ps.len() implies #[trigger] ps[a as int]
            == paths@[a as int]@ by {
            assert(text::views(paths@)[a as int] == paths@[a as int]@);
        }
        assert(sorted_by(sorted@, le)) by {
            assert forall|a: int, b: int| 0 <= a < b < sorted@.len() implies #[trigger] le(
                sorted@[a],
                sorted@[b],
            ) by {
                let x = sorted@[a];
                let y = sorted@[b];
                assert(order::by_order(&o)(x, y));
                assert(o.first.key(x) == config::depth(ps[x as int]));
                assert(o.first.key(y) == config::depth(ps[y as int]));
                assert(o.second.key(x) == config::spelled_len(ps[x as int]));
                assert(o.second.key(y) == config::spelled_len(ps[y as int]));
            }
        }
        assert(total_ordering(le));
        asked@.lemma_sort_by_ensures(le);
        vstd::seq_lib::lemma_sorted_unique(sorted@, asked@.sort_by(le), le);
    }
    let kept = keep_outermost(&paths, &sorted);
    if kept.len() == 0 {
        let mut m = "no roots configured".to_owned();
        match only {
            Some(r) => {
                m.append(" matching ");
                m.append(r.as_str());
            },
            None => {},
        }
        m.append(". Run `wom init` first.");
        proof {
            assert(m@ =~= no_roots_message(text_of(*only)));
        }
        return Err(NoRoots { message: m });
    }
    Ok(kept)
}

/// Every configured root lies within one that is walked.
pub proof fn every_root_is_walked(paths: Seq<Seq<char>>, i: int)
    requires
        0 <= i < paths.len() <= usize::MAX,
    ensures
        walk::covered(paths, walked_roots(paths, None), paths[i]),
{
    let asked = asked_for(paths, None);
    lemma_all_asked_for(paths, i);
    let le = outer_first(paths);
    assert(total_ordering(le));
    asked.lemma_sort_by_ensures(le);
    let sorted = asked.sort_by(le);
    asked.to_multiset_ensures();
    sorted.to_multiset_ensures();
    assert(sorted.contains(i as usize)) by {
        assert(asked.to_multiset().count(i as usize) > 0);
    }
    let a = choose|a: int| 0 <= a < sorted.len() && sorted[a] == i as usize;
    walk::lemma_outermost_covers(paths, sorted);
    assert(walk::covered(paths, walked_roots(paths, None), paths[sorted[a] as int]));
}

proof fn lemma_all_asked_for(paths: Seq<Seq<char>>, i: int)
    requires
        0 <= i < paths.len() <= usize::MAX,
    ensures
        asked_for(paths, None).contains(i as usize),
    decreases paths.len(),
{
    let before = asked_for(paths.drop_last(), None);
    let all = asked_for(paths, None);
    if i < paths.len() - 1 {
        lemma_all_asked_for(paths.drop_last(), i);
        let k = choose|k: int| 0 <= k < before.len() && before[k] == i as usize;
        assert(all[k] == i as usize);
    } else {
        assert(all[before.len() as int] == i as usize);
    }
}

/// No subtree is walked twice, however the roots are spelled.
pub proof fn no_subtree_is_walked_twice(
    paths: Seq<Seq<char>>,
    only: Option<Seq<char>>,
    i: int,
    j: int,
)
    requires
        paths.len() <= usize::MAX,
        0 <= i < walked_roots(paths, only).len(),
        0 <= j < walked_roots(paths, only).len(),
        i != j,
    ensures
        !path::within(
            paths[walked_roots(paths, only)[i] as int],
            paths[walked_roots(paths, only)[j] as int],
        ),
{
    let asked = asked_for(paths, only);
    let le = outer_first(paths);
    let kept = walked_roots(paths, only);
    assert(total_ordering(le));
    asked.lemma_sort_by_ensures(le);
    let sorted = asked.sort_by(le);
    walk::lemma_outermost_order(paths, sorted, le);
    walk::lemma_outermost_covers(paths, sorted);
    asked.to_multiset_ensures();
    sorted.to_multiset_ensures();
    lemma_asked_for_bounds(paths, only);
    assert forall|k: int| 0 <= k < kept.len() implies (#[trigger] kept[k]) < paths.len() by {
        assert(sorted.contains(kept[k]));
        assert(sorted.to_multiset().count(kept[k]) > 0);
        assert(asked.contains(kept[k]));
    }
    let p = paths[kept[i] as int];
    let q = paths[kept[j] as int];
    if i < j && path::within(p, q) {
        assert(le(kept[i], kept[j]));
        assert(!path::within(q, p));
        let a = path::components(p);
        let b = path::components(q);
        if a.len() == b.len() {
            assert(a.take(b.len() as int) =~= a);
            assert(b.take(a.len() as int) =~= b);
        }
    }
}

proof fn lemma_asked_for_bounds(paths: Seq<Seq<char>>, only: Option<Seq<char>>)
    requires
        paths.len() <= usize::MAX,
    ensures
        forall|k: int|
            0 <= k < asked_for(paths, only).len() ==> (#[trigger] asked_for(paths, only)[k])
                < paths.len(),
    decreases paths.len(),
{
    if paths.len() > 0 {
        lemma_asked_for_bounds(paths.drop_last(), only);
        let before = asked_for(paths.drop_last(), only);
        let all = asked_for(paths, only);
        assert forall|k: int| 0 <= k < all.len() implies (#[trigger] all[k]) < paths.len() by {
            if k < before.len() {
                assert(all[k] == before[k]);
            }
        }
    }
}

// ------------------------------------------------------------------ files

/// What one file needs, after extraction and change detection.
#[derive(Debug, Clone)]
pub struct Prepared {
    pub path: String,
    pub dir: String,
    pub size: u64,
    pub mtime_ns: i64,
    pub name_tokens: String,
    pub body: String,
    pub snippet: String,
    pub kind: Kind,
    pub hash: Vec<u8>,
    /// Text handed to the model. Empty when nothing needs embedding.
    pub embed_text: String,
    /// Existing row id, if the file was already known.
    pub existing_id: Option<i64>,
    pub needs_embed: bool,
    pub unchanged: bool,
}

impl Prepared {
    /// Only a file that has a row can be unchanged.
    pub open spec fn wf(&self) -> bool {
        self.unchanged ==> self.existing_id is Some
    }
}

/// The directory a file counts to: its parent, or else the root being walked.
pub open spec fn directory_of(p: Seq<char>, root: Seq<char>) -> Seq<char> {
    match path::parent_of(p) {
        Some(d) => d,
        None => root,
    }
}

fn find_directory(p: &str, root: &str) -> (r: String)
    ensures
        r@ == directory_of(p@, root@),
{
    match path::parent(p) {
        Some(d) => d,
        None => root.to_owned(),
    }
}

/// Whether a file can be skipped without opening it: it was indexed before, its modification time
/// and size are what they were, it has its vector where one is wanted, and nothing forces it.
pub open spec fn can_skip(prev: Option<FileStat>, size: u64, mtime_ns: i64, opts: ScanOptions) -> bool {
    match prev {
        Some(p) => {
            &&& p.mtime_ns == mtime_ns
            &&& p.size == size as i64
            &&& p.vec_row != NO_VEC || !opts.embed
            &&& !opts.force
        },
        None => false,
    }
}

/// The row id of a file that was indexed before.
pub open spec fn id_of(prev: Option<FileStat>) -> Option<i64> {
    match prev {
        Some(p) => Some(p.id),
        None => None,
    }
}

/// The text of a file that is handed to the model, given the body that was extracted.
pub open spec fn whole_text(found: Found, root: Seq<char>, body: Seq<char>) -> Seq<char> {
    extract::embedded_text(found.path@, root, extract::token_text(found.path@, root), body)
}

/// Whether `p` is what a scan makes of a file: skipped where it can be, else prepared from the body
/// that was extracted.
pub open spec fn scanned(
    p: Prepared,
    found: Found,
    root: Seq<char>,
    body: Seq<char>,
    prev: Option<FileStat>,
    opts: ScanOptions,
) -> bool {
    let whole = whole_text(found, root, body);
    &&& p.size == found.size
    &&& p.mtime_ns == found.mtime_ns
    &&& p.existing_id == id_of(prev)
    &&& p.unchanged == can_skip(prev, found.size, found.mtime_ns, opts)
    &&& p.unchanged ==> !p.needs_embed
    &&& !p.unchanged ==> {
        &&& p.hash@ == extract::hash_of(whole)
        &&& p.needs_embed == must_embed(prev, p.hash@, opts)
        &&& p.embed_text@ == if p.needs_embed {
            whole
        } else {
            Seq::<char>::empty()
        }
    }
}

/// The cheap gate: a file that needs nothing, if it can be skipped without opening it. This is what
/// makes a refresh over many files take seconds.
pub fn recall(found: &Found, root: &str, prev: &Option<FileStat>, opts: &ScanOptions) -> (r: Option<
    Prepared,
>)
    ensures
        r is Some == can_skip(*prev, found.size, found.mtime_ns, *opts),
        match r {
            Some(p) => {
                &&& p.wf()
                &&& forall|body: Seq<char>| #[trigger]
                    scanned(p, *found, root@, body, *prev, *opts)
                &&& p.path@ == found.path@
                &&& p.dir@ == directory_of(found.path@, root@)
                &&& p.size == found.size
                &&& p.mtime_ns == found.mtime_ns
                &&& p.existing_id == id_of(*prev)
                &&& p.unchanged
                &&& !p.needs_embed
                &&& p.kind == Kind::NameOnly
                &&& p.name_tokens@.len() == 0
                &&& p.body@.len() == 0
                &&& p.snippet@.len() == 0
                &&& p.hash@.len() == 0
                &&& p.embed_text@.len() == 0
            },
            None => true,
        },
{
    let skip = match prev {
        Some(p) => p.mtime_ns == found.mtime_ns && p.size == found.size as i64 && (p.vec_row
            != NO_VEC || !opts.embed) && !opts.force,
        None => false,
    };
    if !skip {
        return None;
    }
    Some(
        Prepared {
            path: found.path.as_str().to_owned(),
            dir: find_directory(found.path.as_str(), root),
            size: found.size,
            mtime_ns: found.mtime_ns,
            name_tokens: String::new(),
            body: String::new(),
            snippet: String::new(),
            kind: Kind::NameOnly,
            hash: Vec::new(),
            embed_text: String::new(),
            existing_id: match prev {
                Some(p) => Some(p.id),
                None => None,
            },
            needs_embed: false,
            unchanged: true,
        },
    )
}

/// The profile for a file: that of the most specific configured root, or else of the root being
/// walked.
pub fn profile_of(cfg: &Config, p: &str, root_profile: Profile) -> (r: Profile)
    ensures
        r == match config::deepest(config::root_paths(cfg.roots@), p@) {
            Some(i) => cfg.roots@[i].profile,
            None => root_profile,
        },
{
    match cfg.profile_for(p) {
        Some(q) => q,
        None => root_profile,
    }
}

/// Whether the text of a file is what it was when it was last indexed.
pub open spec fn same_text(prev: Option<FileStat>, hash: Seq<u8>) -> bool {
    match prev {
        Some(p) => match p.content_hash {
            Some(h) => h@ == hash,
            None => false,
        },
        None => false,
    }
}

/// Whether a file that could not be skipped must be embedded: vectors are wanted, and it is forced,
/// or its text changed, or it has no vector yet.
pub open spec fn must_embed(prev: Option<FileStat>, hash: Seq<u8>, opts: ScanOptions) -> bool {
    opts.embed && (opts.force || !same_text(prev, hash) || match prev {
        Some(p) => p.vec_row == NO_VEC,
        None => false,
    })
}

fn same_bytes(a: &Vec<u8>, b: &Vec<u8>) -> (r: bool)
    ensures
        r == (a@ == b@),
{
    if a.len() != b.len() {
        return false;
    }
    let mut i: usize = 0;
    while i < a.len()
        invariant
            a@.len() == b@.len(),
            i <= a@.len(),
            forall|k: int| 0 <= k < i ==> a@[k] == b@[k],
        decreases a@.len() - i,
    {
        if a[i] != b[i] {
            return false;
        }
        i += 1;
    }
    proof {
        assert(a@ =~= b@);
    }
    true
}

/// What an extracted file needs. The second gate: a file that was touched but whose indexable text
/// is byte-identical still skips the expensive step.
pub fn prepare(
    found: &Found,
    root: &str,
    prev: &Option<FileStat>,
    ex: Extracted,
    opts: &ScanOptions,
) -> (r: Prepared)
    ensures
        ({
            let tokens = extract::token_text(found.path@, root@);
            let whole = extract::embedded_text(found.path@, root@, tokens, ex.body@);
            let hash = extract::hash_of(whole);
            let embed = must_embed(*prev, hash, *opts);
            &&& r.wf()
            &&& !can_skip(*prev, found.size, found.mtime_ns, *opts) ==> scanned(
                r,
                *found,
                root@,
                ex.body@,
                *prev,
                *opts,
            )
            &&& r.path@ == found.path@
            &&& r.dir@ == directory_of(found.path@, root@)
            &&& r.size == found.size
            &&& r.mtime_ns == found.mtime_ns
            &&& r.name_tokens@ == tokens
            &&& r.body@ == ex.body@
            &&& r.snippet@ == ex.snippet@
            &&& r.kind == ex.kind
            &&& r.hash@ == hash
            &&& r.needs_embed == embed
            &&& r.embed_text@ == if embed {
                whole
            } else {
                Seq::<char>::empty()
            }
            &&& r.existing_id == id_of(*prev)
            &&& !r.unchanged
        }),
{
    let p = found.path.as_str();
    let name_tokens = extract::name_tokens(p, root);
    let embed_text = extract::embed_text(p, root, name_tokens.as_str(), ex.body.as_str());
    let hash = extract::content_hash(embed_text.as_str());
    let text_same = match prev {
        Some(q) => match &q.content_hash {
            Some(h) => same_bytes(h, &hash),
            None => false,
        },
        None => false,
    };
    let no_vector = match prev {
        Some(q) => q.vec_row == NO_VEC,
        None => false,
    };
    let needs_embed = opts.embed && (opts.force || !text_same || no_vector);
    let dir = find_directory(p, root);
    let kept = if needs_embed {
        embed_text
    } else {
        String::new()
    };
    proof {
        assert(!needs_embed ==> kept@ =~= Seq::<char>::empty());
    }
    Prepared {
        path: p.to_owned(),
        dir,
        size: found.size,
        mtime_ns: found.mtime_ns,
        name_tokens,
        body: ex.body,
        snippet: ex.snippet,
        kind: ex.kind,
        hash,
        embed_text: kept,
        existing_id: match prev {
            Some(q) => Some(q.id),
            None => None,
        },
        needs_embed,
        unchanged: false,
    }
}

/// What becomes of a file's row.
#[derive(Debug, Clone, Copy, PartialEq, Eq, Structural)]
pub enum RowChange {
    /// Only mark it as seen.
    Touch { id: i64 },
    /// Write its new state over the old.
    Update { id: i64 },
    /// Give it a row.
    Insert,
}

impl Prepared {
    /// What becomes of the file's row.
    pub open spec fn change_spec(&self) -> RowChange {
        match self.existing_id {
            Some(id) => if self.unchanged {
                RowChange::Touch { id }
            } else {
                RowChange::Update { id }
            },
            None => RowChange::Insert,
        }
    }

    /// What becomes of the file's row.
    pub fn change(&self) -> (r: RowChange)
        requires
            self.wf(),
        ensures
            r == self.change_spec(),
    {
        match self.existing_id {
            Some(id) => if self.unchanged {
                RowChange::Touch { id }
            } else {
                RowChange::Update { id }
            },
            None => RowChange::Insert,
        }
    }

    /// Whether the file goes to the model.
    pub open spec fn goes_to_model(&self) -> bool {
        self.needs_embed && self.embed_text@.len() > 0
    }
}

/// The counts after one more file, by what becomes of its row.
pub open spec fn counted(s: ScanStats, change: RowChange) -> ScanStats {
    let t = ScanStats { seen: (s.seen + 1) as usize, ..s };
    match change {
        RowChange::Touch { .. } => ScanStats { unchanged: (s.unchanged + 1) as usize, ..t },
        RowChange::Update { .. } => ScanStats { updated: (s.updated + 1) as usize, ..t },
        RowChange::Insert => ScanStats { added: (s.added + 1) as usize, ..t },
    }
}

/// The counts after more files.
pub open spec fn counted_all(s: ScanStats, prepared: Seq<Prepared>) -> ScanStats
    decreases prepared.len(),
{
    if prepared.len() == 0 {
        s
    } else {
        counted(counted_all(s, prepared.drop_last()), prepared.last().change_spec())
    }
}

impl ScanStats {
    /// Every file that was seen was counted once: as new, as changed or as unchanged.
    pub open spec fn balanced(&self) -> bool {
        self.added + self.updated + self.unchanged == self.seen
    }

    /// Counts one file by what becomes of its row. A dry run counts the same way.
    pub fn count(&mut self, change: RowChange)
        requires
            old(self).balanced(),
            old(self).seen < usize::MAX,
        ensures
            final(self).balanced(),
            *final(self) == counted(*old(self), change),
    {
        self.seen = self.seen + 1;
        match change {
            RowChange::Touch { .. } => {
                self.unchanged = self.unchanged + 1;
            },
            RowChange::Update { .. } => {
                self.updated = self.updated + 1;
            },
            RowChange::Insert => {
                self.added = self.added + 1;
            },
        }
    }

    /// Counts a batch of files.
    pub fn count_all(&mut self, prepared: &Vec<Prepared>)
        requires
            old(self).balanced(),
            old(self).seen + prepared@.len() <= usize::MAX,
            forall|i: int| 0 <= i < prepared@.len() ==> (#[trigger] prepared@[i]).wf(),
        ensures
            final(self).balanced(),
            final(self).seen == old(self).seen + prepared@.len(),
            *final(self) == counted_all(*old(self), prepared@),
    {
        let ghost before = *self;
        let mut i: usize = 0;
        while i < prepared.len()
            invariant
                i <= prepared@.len(),
                before.seen + prepared@.len() <= usize::MAX,
                forall|i: int| 0 <= i < prepared@.len() ==> (#[trigger] prepared@[i]).wf(),
                self.balanced(),
                self.seen == before.seen + i,
                *self == counted_all(before, prepared@.take(i as int)),
            decreases prepared@.len() - i,
        {
            proof {
                assert(prepared@.take(i + 1).drop_last() =~= prepared@.take(i as int));
                assert(prepared@.take(i + 1).last() == prepared@[i as int]);
            }
            self.count(prepared[i].change());
            i += 1;
        }
        proof {
            assert(prepared@.take(prepared@.len() as int) =~= prepared@);
        }
    }
}

/// Counting touches nothing but the four counts of files: it embeds nothing and deletes nothing.
pub proof fn counting_only_counts(s: ScanStats, prepared: Seq<Prepared>)
    ensures
        ({
            let t = counted_all(s, prepared);
            &&& t.embedded == s.embedded
            &&& t.deleted_files == s.deleted_files
            &&& t.deleted_dirs == s.deleted_dirs
            &&& t.dirs == s.dirs
            &&& t.skipped == s.skipped
        }),
    decreases prepared.len(),
{
    if prepared.len() > 0 {
        counting_only_counts(s, prepared.drop_last());
    }
}

/// Whether `row` is what a scan leaves of a file: a file that was unchanged keeps its row as it
/// was; any other has the size, the time and the text that were found, and, if it went to the
/// model, its vector at its own id.
pub open spec fn leaves_row(row: FileStat, prev: Option<FileStat>, p: Prepared) -> bool {
    if p.unchanged {
        prev == Some(row)
    } else {
        &&& row.mtime_ns == p.mtime_ns
        &&& row.size == p.size as i64
        &&& row.content_hash is Some && row.content_hash->0@ == p.hash@
        &&& row.vec_row == if p.goes_to_model() {
            row.id
        } else {
            match prev {
                Some(q) => q.vec_row,
                None => NO_VEC,
            }
        }
    }
}

/// A rescan opens no file that is as it was: after a scan with vectors, the row that it left lets
/// the next one, unless forced, skip the file by its time and size alone.
pub proof fn a_rescan_skips_what_did_not_change(
    found: Found,
    root: Seq<char>,
    body: Seq<char>,
    prev: Option<FileStat>,
    p: Prepared,
    row: FileStat,
    opts: ScanOptions,
    next: ScanOptions,
)
    requires
        opts.embed,
        !next.force,
        scanned(p, found, root, body, prev, opts),
        leaves_row(row, prev, p),
        row.id != NO_VEC,
    ensures
        can_skip(Some(row), found.size, found.mtime_ns, next),
{
    reveal_strlit("\n");
    assert(whole_text(found, root, body).len() > 0);
    if !p.unchanged && !p.goes_to_model() {
        assert(!p.needs_embed);
    }
}

/// A rescan with nothing changed does no work: where every file is skipped, all are unchanged, none
/// is new or changed, and none goes to the model.
pub proof fn an_unchanged_tree_is_no_work(s: ScanStats, prepared: Seq<Prepared>)
    requires
        s.unchanged + prepared.len() <= usize::MAX,
        s.seen + prepared.len() <= usize::MAX,
        forall|i: int|
            0 <= i < prepared.len() ==> (#[trigger] prepared[i]).wf() && prepared[i].unchanged
                && !prepared[i].needs_embed,
    ensures
        counted_all(s, prepared) == (ScanStats {
            seen: (s.seen + prepared.len()) as usize,
            unchanged: (s.unchanged + prepared.len()) as usize,
            ..s
        }),
        model_bound(prepared).len() == 0,
    decreases prepared.len(),
{
    if prepared.len() > 0 {
        let init = prepared.drop_last();
        assert forall|i: int| 0 <= i < init.len() implies (#[trigger] init[i]).wf()
            && init[i].unchanged && !init[i].needs_embed by {
            assert(prepared[i] == init[i]);
        }
        assert(prepared[prepared.len() - 1] == prepared.last());
        an_unchanged_tree_is_no_work(s, init);
    }
}

/// The positions of the files that go to the model.
pub open spec fn model_bound(prepared: Seq<Prepared>) -> Seq<usize>
    decreases prepared.len(),
{
    if prepared.len() == 0 {
        seq![]
    } else {
        let before = model_bound(prepared.drop_last());
        if prepared.last().goes_to_model() {
            before.push((prepared.len() - 1) as usize)
        } else {
            before
        }
    }
}

/// The positions of the files that go to the model. The whole batch goes at once: the embedder
/// sorts by token length, and it can only do that across everything it is given.
pub fn to_embed(prepared: &Vec<Prepared>) -> (r: Vec<usize>)
    ensures
        r@ == model_bound(prepared@),
        forall|i: int| 0 <= i < r@.len() ==> (#[trigger] r@[i]) < prepared@.len(),
{
    let mut out: Vec<usize> = Vec::new();
    let mut i: usize = 0;
    while i < prepared.len()
        invariant
            i <= prepared@.len(),
            out@ == model_bound(prepared@.take(i as int)),
            forall|k: int| 0 <= k < out@.len() ==> (#[trigger] out@[k]) < i,
        decreases prepared@.len() - i,
    {
        proof {
            assert(prepared@.take(i + 1).drop_last() =~= prepared@.take(i as int));
            assert(prepared@.take(i + 1).last() == prepared@[i as int]);
        }
        if prepared[i].needs_embed && prepared[i].embed_text.as_str().as_bytes().len() > 0 {
            proof {
                lemma_bytes_present(prepared@[i as int].embed_text@);
            }
            out.push(i);
        } else {
            proof {
                lemma_bytes_present(prepared@[i as int].embed_text@);
            }
        }
        i += 1;
    }
    proof {
        assert(prepared@.take(prepared@.len() as int) =~= prepared@);
    }
    out
}

/// A text is empty exactly where its encoding is.
proof fn lemma_bytes_present(s: Seq<char>)
    ensures
        (vstd::utf8::encode_utf8(s).len() > 0) == (s.len() > 0),
{
    vstd::utf8::encode_utf8_decode_utf8(s);
    if s.len() == 0 {
        assert(s =~= Seq::<char>::empty());
        assert(vstd::utf8::encode_utf8(Seq::<char>::empty()).len() == 0);
    } else {
        assert(vstd::utf8::encode_utf8(s) != Seq::<u8>::empty()) by {
            assert(vstd::utf8::decode_utf8(Seq::<u8>::empty()) =~= Seq::<char>::empty());
        }
    }
}

/// The row ids of the files that got a vector, in the order of the vectors. A vector stands at the
/// row that is its file's id, which keeps the mapping trivial.
pub fn vector_rows(ids: &Vec<i64>, todo: &Vec<usize>, vectors: usize) -> (r: Vec<i64>)
    requires
        forall|i: int| 0 <= i < todo@.len() ==> (#[trigger] todo@[i]) < ids@.len(),
    ensures
        r@.len() == if todo@.len() < vectors {
            todo@.len() as int
        } else {
            vectors as int
        },
        forall|i: int| 0 <= i < r@.len() ==> #[trigger] r@[i] == ids@[todo@[i] as int],
{
    let mut out: Vec<i64> = Vec::new();
    let mut i: usize = 0;
    while i < todo.len() && i < vectors
        invariant
            forall|i: int| 0 <= i < todo@.len() ==> (#[trigger] todo@[i]) < ids@.len(),
            i <= todo@.len(),
            i <= vectors,
            out@.len() == i,
            forall|k: int| 0 <= k < i ==> #[trigger] out@[k] == ids@[todo@[k] as int],
        decreases todo@.len() - i,
    {
        out.push(ids[todo[i]]);
        i += 1;
    }
    out
}

/// A file whose text is what it was, and which has its vector, is not embedded again.
pub proof fn same_text_is_not_embedded_again(prev: FileStat, hash: Seq<u8>, opts: ScanOptions)
    requires
        same_text(Some(prev), hash),
        prev.vec_row != NO_VEC,
        !opts.force,
    ensures
        !must_embed(Some(prev), hash, opts),
{
}

/// A forced scan with vectors skips no file and embeds every file.
pub proof fn force_embeds_everything(
    prev: Option<FileStat>,
    size: u64,
    mtime_ns: i64,
    hash: Seq<u8>,
    opts: ScanOptions,
)
    requires
        opts.force,
        opts.embed,
    ensures
        !can_skip(prev, size, mtime_ns, opts),
        must_embed(prev, hash, opts),
{
}

/// A scan without vectors embeds nothing.
pub proof fn nothing_is_embedded_unasked(prev: Option<FileStat>, hash: Seq<u8>, opts: ScanOptions)
    requires
        !opts.embed,
    ensures
        !must_embed(prev, hash, opts),
{
}

/// After a scan with vectors every file that was indexed before has one: it has it already, or it
/// is embedded now.
pub proof fn every_file_gets_a_vector(
    prev: FileStat,
    size: u64,
    mtime_ns: i64,
    hash: Seq<u8>,
    opts: ScanOptions,
)
    requires
        opts.embed,
    ensures
        can_skip(Some(prev), size, mtime_ns, opts) ==> prev.vec_row != NO_VEC,
        !must_embed(Some(prev), hash, opts) ==> prev.vec_row != NO_VEC,
{
}

// ------------------------------------------------------------------ directories

/// The `n`-th directory above `d`.
pub open spec fn above(d: Seq<char>, n: nat) -> Seq<char>
    decreases n,
{
    if n == 0 {
        d
    } else {
        match path::parent_of(above(d, (n - 1) as nat)) {
            Some(q) => q,
            None => above(d, (n - 1) as nat),
        }
    }
}

/// How many directories lie above `d` up to `root`, or up to where there is no parent.
pub open spec fn height(d: Seq<char>, root: Seq<char>) -> int {
    let h = path::components(d).len() - path::components(root).len();
    if h < path::names(d).len() {
        h
    } else {
        path::names(d).len() as int
    }
}

/// Whether `p` is `dirs[i]` or a directory between it and its root.
pub open spec fn between(
    dirs: Seq<Seq<char>>,
    roots: Seq<Seq<char>>,
    i: int,
    n: nat,
    p: Seq<char>,
) -> bool {
    match config::deepest(roots, dirs[i]) {
        Some(r) => n <= height(dirs[i], roots[r]) && p == above(dirs[i], n),
        None => false,
    }
}

/// Whether `p` gets a row: it holds indexed files, or lies between such a directory and its root.
pub open spec fn gets_row(dirs: Seq<Seq<char>>, roots: Seq<Seq<char>>, p: Seq<char>) -> bool {
    exists|i: int, n: nat| 0 <= i < dirs.len() && #[trigger] between(dirs, roots, i, n, p)
}

/// Going up drops the last components.
pub proof fn lemma_above(d: Seq<char>, n: nat)
    requires
        n <= path::names(d).len(),
    ensures
        path::components(above(d, n)) == path::components(d).take(
            path::components(d).len() - n,
        ),
        path::names(above(d, n)).len() == path::names(d).len() - n,
        path::components(d).len() >= path::names(d).len(),
    decreases n,
{
    let c = path::components(d);
    if n == 0 {
        assert(c.take(c.len() as int) =~= c);
    } else {
        let m = (n - 1) as nat;
        lemma_above(d, m);
        path::lemma_parent(above(d, m));
        assert(c.take(c.len() - m).drop_last() =~= c.take(c.len() - n));
    }
}

/// No row is created above a root: every directory between `d` and `root` lies within `root`.
pub proof fn rows_stop_at_the_root(d: Seq<char>, root: Seq<char>, n: nat)
    requires
        path::within(d, root),
        n <= height(d, root),
    ensures
        path::within(above(d, n), root),
        path::within(d, above(d, n)),
{
    lemma_above(d, n);
    let c = path::components(d);
    let r = path::components(root);
    let a = path::components(above(d, n));
    assert(a.take(r.len() as int) =~= c.take(r.len() as int));
    assert(c.take(a.len() as int) =~= a);
}

/// Collects `d` and the directories between it and its root.
fn climb(d: &str, roots: &Vec<String>, out: &mut Vec<String>)
    ensures
        ({
            let rs = text::views(roots@);
            match config::deepest(rs, d@) {
                Some(r) => {
                    let h = height(d@, rs[r]);
                    &&& h >= 0
                    &&& text::views(final(out)@) == text::views(old(out)@) + Seq::new(
                        (h + 1) as nat,
                        |n: int| above(d@, n as nat),
                    )
                },
                None => final(out)@ == old(out)@,
            }
        }),
{
    let root = match deepest_root(roots, d) {
        Some(r) => r,
        None => {
            return ;
        },
    };
    let ghost head = text::views(out@);
    let ghost h = height(d@, root@);
    let ghost n: nat = 0;
    let mut cur = d.to_owned();
    proof {
        config::lemma_deepest(text::views(roots@), d@);
        assert(path::within(d@, root@));
        assert(h >= 0);
        assert(head =~= head + Seq::new(n, |n: int| above(d@, n as nat)));
    }
    loop
        invariant_except_break
            text::views(out@) == head + Seq::new(n, |n: int| above(d@, n as nat)),
            cur@ == above(d@, n),
        invariant
            h == height(d@, root@),
            path::within(d@, root@),
            n <= h,
        ensures
            text::views(out@) == head + Seq::new((h + 1) as nat, |n: int| above(d@, n as nat)),
        decreases h - n,
    {
        let s = cur.as_str().to_owned();
        proof {
            text::lemma_views_push(out@, s);
            assert((head + Seq::new(n, |n: int| above(d@, n as nat))).push(s@) =~= head + Seq::new(
                n + 1,
                |n: int| above(d@, n as nat),
            ));
            lemma_above(d@, n);
            path::lemma_parent(cur@);
            rows_stop_at_the_root(d@, root@, n);
        }
        out.push(s);
        if path::same_path(cur.as_str(), root.as_str()) {
            proof {
                assert(n == path::components(d@).len() - path::components(root@).len());
            }
            break ;
        }
        match path::parent(cur.as_str()) {
            None => {
                break ;
            },
            Some(p) => {
                proof {
                    let a = path::components(cur@);
                    let r = path::components(root@);
                    if a.len() == r.len() {
                        assert(a.take(r.len() as int) =~= a);
                    }
                    assert(above(d@, n + 1) == p@);
                    n = n + 1;
                }
                cur = p;
            },
        }
    }
}

/// Whether one of `paths` names the place that `p` names.
pub open spec fn names_place(paths: Seq<Seq<char>>, p: Seq<char>) -> bool {
    exists|k: int| 0 <= k < paths.len() && #[trigger] path::same_place(paths[k], p)
}

/// The directories that get a row: those that hold indexed files, and those between them and their
/// root, each once. Intermediate ones get a row even when they hold no files themselves; ancestors
/// above the root are not part of the index.
pub fn wanted_dirs(dirs: &Vec<String>, roots: &Vec<String>) -> (r: Vec<String>)
    ensures
        ({
            let ds = text::views(dirs@);
            let rs = text::views(roots@);
            let out = text::views(r@);
            &&& forall|k: int| 0 <= k < out.len() ==> gets_row(ds, rs, #[trigger] out[k])
            &&& forall|p: Seq<char>| #[trigger] gets_row(ds, rs, p) ==> names_place(out, p)
            &&& forall|j: int, k: int|
                0 <= j < k < out.len() ==> !#[trigger] path::same_place(out[j], out[k])
        }),
{
    let ghost ds = text::views(dirs@);
    let ghost rs = text::views(roots@);
    let mut all: Vec<String> = Vec::new();
    let mut i: usize = 0;
    while i < dirs.len()
        invariant
            ds == text::views(dirs@),
            ds.len() == dirs@.len(),
            rs == text::views(roots@),
            i <= dirs@.len(),
            forall|k: int|
                0 <= k < all@.len() ==> gets_row(ds, rs, #[trigger] text::views(all@)[k]),
            forall|j: int, n: nat, p: Seq<char>|
                0 <= j < i && #[trigger] between(ds, rs, j, n, p) ==> text::views(all@).contains(p),
        decreases dirs@.len() - i,
    {
        let ghost before = text::views(all@);
        climb(dirs[i].as_str(), roots, &mut all);
        proof {
            let d = ds[i as int];
            let after = text::views(all@);
            match config::deepest(rs, d) {
                Some(r) => {
                    let h = height(d, rs[r]);
                    let more = Seq::new((h + 1) as nat, |n: int| above(d, n as nat));
                    assert forall|k: int| 0 <= k < after.len() implies gets_row(
                        ds,
                        rs,
                        #[trigger] after[k],
                    ) by {
                        if k < before.len() {
                            assert(after[k] == before[k]);
                        } else {
                            let n = (k - before.len()) as nat;
                            assert(after[k] == more[n as int]);
                            assert(between(ds, rs, i as int, n, after[k]));
                        }
                    }
                    assert forall|j: int, n: nat, p: Seq<char>|
                        0 <= j <= i && #[trigger] between(ds, rs, j, n, p) implies after.contains(
                        p,
                    ) by {
                        if j < i {
                            assert(before.contains(p));
                            let k = choose|k: int| 0 <= k < before.len() && before[k] == p;
                            assert(after[k] == p);
                        } else {
                            assert(after[(before.len() + n) as int] == p);
                        }
                    }
                },
                None => {
                    assert forall|j: int, n: nat, p: Seq<char>|
                        0 <= j <= i && #[trigger] between(ds, rs, j, n, p) implies after.contains(
                        p,
                    ) by {
                        assert(j < i);
                    }
                },
            }
        }
        i += 1;
    }
    let r = distinct_paths(&all);
    proof {
        let full = text::views(all@);
        let out = text::views(r@);
        assert forall|k: int| 0 <= k < out.len() implies gets_row(ds, rs, #[trigger] out[k]) by {
            assert(full.contains(out[k]));
        }
        assert forall|p: Seq<char>| #[trigger] gets_row(ds, rs, p) implies names_place(out, p) by {
            let (j, n) = choose|j: int, n: nat|
                0 <= j < ds.len() && #[trigger] between(ds, rs, j, n, p);
            assert(full.contains(p));
            let m = choose|m: int| 0 <= m < full.len() && full[m] == p;
            assert(names_place(out, full[m]));
        }
    }
    r
}

/// Where in `keys` a run of equal ones begins.
spec fn run_starts<K>(keys: Seq<K>) -> Seq<int>
    decreases keys.len(),
{
    if keys.len() == 0 {
        seq![]
    } else {
        let before = run_starts(keys.drop_last());
        let last = keys.len() - 1;
        if last == 0 || keys[last] != keys[last - 1] {
            before.push(last)
        } else {
            before
        }
    }
}

/// Whether equal keys stand together.
#[verifier::opaque]
spec fn grouped<K>(keys: Seq<K>) -> bool {
    forall|a: int, b: int, c: int|
        0 <= a <= b <= c < keys.len() && #[trigger] keys[a] == #[trigger] keys[c] ==> #[trigger] keys[b]
            == keys[c]
}

/// Runs begin within the keys.
proof fn lemma_run_starts<K>(keys: Seq<K>)
    ensures
        forall|k: int|
            0 <= k < run_starts(keys).len() ==> 0 <= #[trigger] run_starts(keys)[k] < keys.len(),
        keys.len() > 0 ==> run_starts(keys).len() > 0 && keys[run_starts(keys).last()] == keys.last(),
    decreases keys.len(),
{
    if keys.len() > 0 {
        let init = keys.drop_last();
        let before = run_starts(init);
        let all = run_starts(keys);
        lemma_run_starts(init);
        assert forall|k: int| 0 <= k < all.len() implies 0 <= #[trigger] all[k] < keys.len() by {
            if k < before.len() {
                assert(all[k] == before[k]);
            }
        }
        if all == before {
            assert(init.last() == keys[keys.len() - 2]);
        }
    }
}

/// Every key has a run, which begins with it.
proof fn lemma_run_of<K>(keys: Seq<K>, a: int) -> (k: int)
    requires
        0 <= a < keys.len(),
    ensures
        0 <= k < run_starts(keys).len(),
        keys[run_starts(keys)[k]] == keys[a],
    decreases keys.len(),
{
    lemma_run_starts(keys);
    if a == keys.len() - 1 {
        run_starts(keys).len() - 1
    } else {
        let init = keys.drop_last();
        let k = lemma_run_of(init, a);
        lemma_run_starts(init);
        assert(run_starts(keys)[k] == run_starts(init)[k]);
        assert(init[a] == keys[a]);
        k
    }
}

/// Where equal keys stand together, each has one run.
proof fn lemma_runs_differ<K>(keys: Seq<K>, j: int, k: int)
    requires
        grouped(keys),
        0 <= j < k < run_starts(keys).len(),
    ensures
        keys[run_starts(keys)[j]] != keys[run_starts(keys)[k]],
    decreases keys.len(),
{
    let init = keys.drop_last();
    let before = run_starts(init);
    let all = run_starts(keys);
    let last = keys.len() - 1;
    lemma_run_starts(init);
    assert(all[j] == before[j]);
    assert(0 <= before[j] < init.len());
    if k < before.len() {
        assert(all[k] == before[k]);
        assert(grouped(init)) by {
            reveal(grouped);
            assert forall|a: int, b: int, c: int|
                0 <= a <= b <= c < init.len() && #[trigger] init[a] == #[trigger] init[
                    c
                ] implies #[trigger] init[b] == init[c] by {
                assert(keys[a] == keys[c] && keys[b] == keys[b]);
            }
        }
        lemma_runs_differ(init, j, k);
    } else if keys[all[j]] == keys[last] {
        reveal(grouped);
        assert(keys[last - 1] == keys[last]);
    }
}

/// The paths that name different places, one spelling of each.
fn distinct_paths(paths: &Vec<String>) -> (r: Vec<String>)
    ensures
        ({
            let all = text::views(paths@);
            let out = text::views(r@);
            &&& forall|k: int| 0 <= k < out.len() ==> all.contains(#[trigger] out[k])
            &&& forall|m: int| 0 <= m < all.len() ==> names_place(out, #[trigger] all[m])
            &&& forall|j: int, k: int|
                0 <= j < k < out.len() ==> !#[trigger] path::same_place(out[j], out[k])
        }),
{
    let o = ByPath::new(paths);
    let n: usize = paths.len();
    let order = sorted_positions(&o, n);
    let ghost all = text::views(paths@);
    let ghost keys = Seq::new(n as nat, |a: int| path::components(paths@[order@[a] as int]@));
    let mut out: Vec<String> = Vec::new();
    let mut i: usize = 0;
    while i < n
        invariant
            n == paths@.len(),
            order@.len() == n,
            forall|i: int| 0 <= i < n ==> (#[trigger] order@[i]) < n,
            keys.len() == n,
            forall|a: int|
                0 <= a < n ==> #[trigger] keys[a] == path::components(paths@[order@[a] as int]@),
            i <= n,
            run_starts(keys.take(i as int)).len() == out@.len(),
            forall|k: int|
                0 <= k < out@.len() ==> #[trigger] text::views(out@)[k]
                    == paths@[order@[run_starts(keys.take(i as int))[k]] as int]@,
        decreases n - i,
    {
        let m: usize = order[i];
        let fresh = i == 0 || !path::same_path(paths[order[i - 1]].as_str(), paths[m].as_str());
        let ghost starts = run_starts(keys.take(i as int));
        proof {
            assert(keys.take(i + 1).drop_last() =~= keys.take(i as int));
            assert(keys.take(i + 1)[i as int] == keys[i as int]);
            if i > 0 {
                assert(keys.take(i + 1)[i - 1] == keys[i - 1]);
            }
        }
        if fresh {
            let s = paths[m].as_str().to_owned();
            proof {
                text::lemma_views_push(out@, s);
                assert(run_starts(keys.take(i + 1)) == starts.push(i as int));
            }
            out.push(s);
        } else {
            proof {
                assert(run_starts(keys.take(i + 1)) == starts);
            }
        }
        i += 1;
    }
    proof {
        assert(keys.take(n as int) =~= keys);
        let starts = run_starts(keys);
        let views = text::views(out@);
        lemma_run_starts(keys);
        lemma_sorted_is_grouped(&o, paths@, order@, keys);
        assert forall|k: int| 0 <= k < views.len() implies #[trigger] views[k]
            == all[order@[starts[k]] as int] && path::components(views[k]) == keys[starts[k]] by {
            assert(0 <= starts[k] < n);
        }
        assert forall|k: int| 0 <= k < views.len() implies all.contains(#[trigger] views[k]) by {
            assert(0 <= starts[k] < n);
            assert(all[order@[starts[k]] as int] == views[k]);
        }
        assert forall|m: int| 0 <= m < all.len() implies names_place(views, #[trigger] all[m]) by {
            assert(order@.contains(m as usize));
            let a = choose|a: int| 0 <= a < order@.len() && order@[a] == m as usize;
            assert(keys[a] == path::components(all[m]));
            let k = lemma_run_of(keys, a);
            assert(path::same_place(views[k], all[m]));
        }
        assert forall|j: int, k: int|
            0 <= j < k < views.len() implies !#[trigger] path::same_place(views[j], views[k]) by {
            lemma_runs_differ(keys, j, k);
        }
    }
    out
}

/// In the order of paths, spellings of one place stand together.
proof fn lemma_sorted_is_grouped(
    o: &ByPath,
    paths: Seq<String>,
    order: Seq<usize>,
    keys: Seq<Seq<Seq<char>>>,
)
    requires
        sorted_by(order, order::by_order(o)),
        keys.len() == order.len(),
        forall|i: int| 0 <= i < order.len() ==> (#[trigger] order[i]) < paths.len(),
        forall|i: usize| i < paths.len() ==> #[trigger] o.key(i) == lexical::path_key(paths[i as int]@),
        forall|a: int|
            0 <= a < keys.len() ==> #[trigger] keys[a] == path::components(paths[order[a] as int]@),
    ensures
        grouped(keys),
{
    let rel = order::by_order(o);
    let le = lexical::lists_order();
    lexical::lemma_orders();
    reveal(grouped);
    assert forall|a: int, b: int, c: int|
        0 <= a <= b <= c < keys.len() && #[trigger] keys[a] == #[trigger] keys[
            c
        ] implies #[trigger] keys[b] == keys[c] by {
        let px = paths[order[a] as int]@;
        let py = paths[order[b] as int]@;
        let pz = paths[order[c] as int]@;
        lexical::lemma_path_key(px, pz);
        lexical::lemma_path_key(py, pz);
        let x = o.key(order[a]);
        let y = o.key(order[b]);
        let z = o.key(order[c]);
        assert(x == z);
        assert(le(y, y));
        if a < b {
            assert(rel(order[a], order[b]));
            assert(o.before(order[a], order[b]));
        }
        assert(le(x, y));
        if b < c {
            assert(rel(order[b], order[c]));
            assert(o.before(order[b], order[c]));
        }
        assert(le(y, z));
        assert(le(z, y));
    }
}

// ------------------------------------------------------------------ links

/// What `dir_id` answered for the directory `p`; nothing is asked where there is none.
pub open spec fn answered<F: Fn(String) -> Option<i64>>(
    dir_id: &F,
    p: Option<Seq<char>>,
    id: Option<i64>,
) -> bool {
    match p {
        None => id is None,
        Some(d) => exists|s: String| s@ == d && #[trigger] call_ensures(dir_id, (s,), id),
    }
}

/// Each row with the directory that was found for it, without the rows that have none.
pub open spec fn link_pairs(rows: Seq<(i64, String)>, found: Seq<Option<i64>>) -> Seq<(i64, i64)>
    decreases rows.len(),
{
    if rows.len() == 0 {
        seq![]
    } else {
        let before = link_pairs(rows.drop_last(), found);
        match found[rows.len() - 1] {
            Some(d) => before.push((rows.last().0, d)),
            None => before,
        }
    }
}

/// Whether `r` links each row to the row of the directory that holds its path.
pub open spec fn links_rows<F: Fn(String) -> Option<i64>>(
    rows: Seq<(i64, String)>,
    dir_id: &F,
    r: Seq<(i64, i64)>,
) -> bool {
    exists|found: Seq<Option<i64>>|
        {
            &&& found.len() == rows.len()
            &&& forall|i: int|
                0 <= i < rows.len() ==> answered(
                    dir_id,
                    path::parent_of(rows[i].1@),
                    #[trigger] found[i],
                )
            &&& r == #[trigger] link_pairs(rows, found)
        }
}

/// Links rows, files or directories, to the directory that holds them: pairs of a row and its
/// directory. `dir_id` says which row a directory has; a row whose directory has none stays
/// without a link.
pub fn links<F: Fn(String) -> Option<i64>>(rows: &Vec<(i64, String)>, dir_id: &F) -> (r: Vec<
    (i64, i64),
>)
    requires
        forall|s: String| call_requires(dir_id, (s,)),
    ensures
        links_rows(rows@, dir_id, r@),
{
    let mut out: Vec<(i64, i64)> = Vec::new();
    let ghost mut found: Seq<Option<i64>> = seq![];
    let mut i: usize = 0;
    while i < rows.len()
        invariant
            forall|s: String| call_requires(dir_id, (s,)),
            i <= rows@.len(),
            found.len() == i,
            forall|k: int|
                0 <= k < i ==> answered(dir_id, path::parent_of(rows@[k].1@), #[trigger] found[k]),
            out@ == link_pairs(rows@.take(i as int), found),
        decreases rows@.len() - i,
    {
        let id: Option<i64> = match path::parent(rows[i].1.as_str()) {
            Some(d) => dir_id(d),
            None => None,
        };
        let ghost before = found;
        proof {
            found = found.push(id);
            assert(rows@.take(i + 1).drop_last() =~= rows@.take(i as int));
            assert(before =~= found.take(before.len() as int));
            lemma_pairs_so_far(rows@.take(i as int), before, found);
        }
        if let Some(d) = id {
            out.push((rows[i].0, d));
        }
        i += 1;
    }
    proof {
        assert(rows@.take(rows@.len() as int) =~= rows@);
        assert(links_rows(rows@, dir_id, out@));
    }
    out
}

/// What was found for later rows does not matter for earlier ones.
proof fn lemma_pairs_so_far(rows: Seq<(i64, String)>, a: Seq<Option<i64>>, b: Seq<Option<i64>>)
    requires
        rows.len() <= a.len() <= b.len(),
        a == b.take(a.len() as int),
    ensures
        link_pairs(rows, a) == link_pairs(rows, b),
    decreases rows.len(),
{
    if rows.len() > 0 {
        lemma_pairs_so_far(rows.drop_last(), a, b);
        assert(a[rows.len() - 1] == b[rows.len() - 1]);
    }
}

// ------------------------------------------------------------------ scheduling

/// Whether a rescan is due, and why. Returned rather than acted on so the caller decides between a
/// foreground scan and a detached one.
#[derive(Debug, Clone, Copy, PartialEq, Eq, Structural)]
pub enum Due {
    /// Never scanned; there is no index to serve a query from.
    Never,
    /// The configured interval has elapsed.
    Elapsed,
    /// Not yet due.
    No,
}

/// How long ago a scan was. A timestamp in the future, after the clock moved backwards, counts as
/// just scanned.
pub open spec fn age(last: i64, now: i64) -> int {
    if now > last {
        now - last
    } else {
        0
    }
}

/// Decides whether the schedule calls for a scan.
pub fn is_due(refresh: Refresh, last_scan_at: Option<i64>, now: i64) -> (r: Due)
    ensures
        r == match last_scan_at {
            None => Due::Never,
            Some(last) => match refresh.interval() {
                None => Due::No,
                Some(interval) => if age(last, now) >= interval {
                    Due::Elapsed
                } else {
                    Due::No
                },
            },
        },
{
    match last_scan_at {
        None => Due::Never,
        Some(last) => match refresh.interval_secs() {
            None => Due::No,
            Some(interval) => {
                let age: i128 = if now > last {
                    now as i128 - last as i128
                } else {
                    0
                };
                if age >= interval as i128 {
                    Due::Elapsed
                } else {
                    Due::No
                }
            },
        },
    }
}

/// A clock that moved backwards does not make a scan overdue: with a timestamp in the future, only
/// a schedule that scans on every run calls for one.
pub proof fn a_backwards_clock_forces_no_scan(refresh: Refresh, last: i64, now: i64)
    requires
        now <= last,
    ensures
        match refresh.interval() {
            Some(interval) => (age(last, now) >= interval) == (refresh == Refresh::EveryRun),
            None => refresh == Refresh::Manual,
        },
{
}

/// What a root is called in a progress line: its last component, or all of it where it has none.
pub fn short_root(p: &str) -> (r: String)
    ensures
        r@ == match path::file_name_of(p@) {
            Some(n) => n,
            None => p@,
        },
{
    match path::file_name(p) {
        Some(n) => n,
        None => p.to_owned(),
    }
}

/// What to tell the user of settings that undo each other: coordinates are read from media, so
/// asking for them without media finds none.
pub fn settings_notice(media: bool, geo: bool) -> (r: Option<&'static str>)
    ensures
        match r {
            Some(s) => geo && !media && s@
                == "extract.geo is on but extract.media is off; no media is read, so no GPS data will be found"@,
            None => !geo || media,
        },
{
    if geo && !media {
        Some("extract.geo is on but extract.media is off; no media is read, so no GPS data will be found")
    } else {
        None
    }
}

// ------------------------------------------------------------------ more laws

/// A scan is asked for every root, or for every root that names one place; in the order in which
/// they are configured.
pub proof fn every_root_asked_for_is_taken(
    paths: Seq<Seq<char>>,
    only: Option<Seq<char>>,
    i: int,
    j: int,
)
    requires
        paths.len() <= usize::MAX,
        0 <= i < paths.len(),
    ensures
        only is None ==> asked_for(paths, only).contains(i as usize),
        only is Some ==> (asked_for(paths, only).contains(i as usize) <==> path::components(paths[i])
            == path::components(only->0)),
        0 < j < asked_for(paths, only).len() ==> asked_for(paths, only)[j - 1] < asked_for(
            paths,
            only,
        )[j],
    decreases paths.len(),
{
    let init = paths.drop_last();
    let before = asked_for(init, only);
    let all = asked_for(paths, only);
    let last = (paths.len() - 1) as usize;
    lemma_asked_for_bounds(init, only);
    if i < init.len() {
        every_root_asked_for_is_taken(init, only, i, j);
        assert(init[i] == paths[i]);
        if before.contains(i as usize) {
            let k = choose|k: int| 0 <= k < before.len() && before[k] == i as usize;
            assert(all[k] == i as usize);
        }
        if all.contains(i as usize) {
            let k = choose|k: int| 0 <= k < all.len() && all[k] == i as usize;
            if k < before.len() {
                assert(before[k] == i as usize);
            }
        }
    } else {
        if all.len() > before.len() {
            assert(all[before.len() as int] == last);
        }
        if all.contains(last) && all.len() == before.len() {
            let k = choose|k: int| 0 <= k < all.len() && all[k] == last;
            assert(before[k] < init.len());
        }
        if init.len() > 0 {
            every_root_asked_for_is_taken(init, only, 0, j);
        }
    }
    if 0 < j < all.len() {
        if j < before.len() {
            assert(all[j] == before[j] && all[j - 1] == before[j - 1]);
        } else {
            assert(all[j - 1] == before[j - 1]);
        }
    }
}

/// A file is left unopened exactly where it is known, neither its time nor its size has changed, it
/// has its vector if vectors are wanted, and the scan is not forced.
pub proof fn a_file_is_skipped_only_when_nothing_changed(
    prev: FileStat,
    size: u64,
    mtime_ns: i64,
    opts: ScanOptions,
)
    ensures
        !can_skip(None, size, mtime_ns, opts),
        prev.mtime_ns != mtime_ns ==> !can_skip(Some(prev), size, mtime_ns, opts),
        prev.size != size as i64 ==> !can_skip(Some(prev), size, mtime_ns, opts),
        opts.force ==> !can_skip(Some(prev), size, mtime_ns, opts),
        opts.embed && prev.vec_row == -1 ==> !can_skip(Some(prev), size, mtime_ns, opts),
        prev.mtime_ns == mtime_ns && prev.size == size as i64 && !opts.force && (!opts.embed
            || prev.vec_row != -1) ==> can_skip(Some(prev), size, mtime_ns, opts),
{
}

/// Where vectors are wanted, a file goes to the model exactly where it is new, its text is not the
/// one that was recorded, it has no vector, or the scan is forced.
pub proof fn a_changed_file_is_embedded(prev: FileStat, hash: Seq<u8>, opts: ScanOptions)
    requires
        opts.embed,
    ensures
        must_embed(None, hash, opts),
        prev.content_hash is None ==> must_embed(Some(prev), hash, opts),
        prev.content_hash is Some && prev.content_hash->0@ != hash ==> must_embed(
            Some(prev),
            hash,
            opts,
        ),
        prev.vec_row == -1 ==> must_embed(Some(prev), hash, opts),
        opts.force ==> must_embed(Some(prev), hash, opts),
        !opts.force && prev.vec_row != -1 && prev.content_hash is Some && prev.content_hash->0@
            == hash ==> !must_embed(Some(prev), hash, opts),
{
}

/// A new file gets a row, a known one that changed has its row rewritten, and one that did not is
/// only marked as seen; and each counts as what it is, once.
pub proof fn every_file_is_counted_as_what_it_is(p: Prepared, s: ScanStats)
    requires
        p.wf(),
        s.balanced(),
        s.seen < usize::MAX,
    ensures
        p.existing_id is None <==> p.change_spec() == RowChange::Insert,
        p.existing_id is Some && p.unchanged ==> p.change_spec() == (RowChange::Touch {
            id: p.existing_id->0,
        }),
        p.existing_id is Some && !p.unchanged ==> p.change_spec() == (RowChange::Update {
            id: p.existing_id->0,
        }),
        ({
            let t = counted(s, p.change_spec());
            &&& t.seen == s.seen + 1
            &&& t.added == s.added + if p.existing_id is None {
                1int
            } else {
                0
            }
            &&& t.unchanged == s.unchanged + if p.unchanged {
                1int
            } else {
                0
            }
            &&& t.updated == s.updated + if p.existing_id is Some && !p.unchanged {
                1int
            } else {
                0
            }
        }),
{
}

/// Exactly the files that need a vector and have a text go to the model, in order.
pub proof fn exactly_the_files_that_need_it_go_to_the_model(prepared: Seq<Prepared>, i: int, j: int)
    requires
        prepared.len() <= usize::MAX,
        0 <= i < prepared.len(),
    ensures
        model_bound(prepared).contains(i as usize) <==> prepared[i].needs_embed
            && prepared[i].embed_text@.len() > 0,
        0 < j < model_bound(prepared).len() ==> model_bound(prepared)[j - 1] < model_bound(
            prepared,
        )[j],
    decreases prepared.len(),
{
    let init = prepared.drop_last();
    let before = model_bound(init);
    let all = model_bound(prepared);
    let last = (prepared.len() - 1) as usize;
    lemma_model_bound(init);
    if i < init.len() {
        exactly_the_files_that_need_it_go_to_the_model(init, i, j);
        if before.contains(i as usize) {
            let k = choose|k: int| 0 <= k < before.len() && before[k] == i as usize;
            assert(all[k] == i as usize);
        }
        if all.contains(i as usize) {
            let k = choose|k: int| 0 <= k < all.len() && all[k] == i as usize;
            if k < before.len() {
                assert(before[k] == i as usize);
            }
        }
    } else {
        if all.len() > before.len() {
            assert(all[before.len() as int] == last);
        }
        if all.contains(last) && all.len() == before.len() {
            let k = choose|k: int| 0 <= k < all.len() && all[k] == last;
            assert(before[k] < init.len());
        }
        if init.len() > 0 {
            exactly_the_files_that_need_it_go_to_the_model(init, 0, j);
        }
    }
    if 0 < j < all.len() {
        if j < before.len() {
            assert(all[j] == before[j] && all[j - 1] == before[j - 1]);
        } else {
            assert(all[j - 1] == before[j - 1]);
        }
    }
}

proof fn lemma_model_bound(prepared: Seq<Prepared>)
    requires
        prepared.len() <= usize::MAX,
    ensures
        forall|k: int|
            0 <= k < model_bound(prepared).len() ==> (#[trigger] model_bound(prepared)[k])
                < prepared.len(),
    decreases prepared.len(),
{
    if prepared.len() > 0 {
        let before = model_bound(prepared.drop_last());
        let all = model_bound(prepared);
        lemma_model_bound(prepared.drop_last());
        assert forall|k: int| 0 <= k < all.len() implies (#[trigger] all[k]) < prepared.len() by {
            if k < before.len() {
                assert(all[k] == before[k]);
            }
        }
    }
}

/// Every directory with indexed files gets a row, and so does each that contains it, up to its
/// root: for every number of components from those of the root on.
pub proof fn every_directory_up_to_the_root_gets_a_row(
    dirs: Seq<Seq<char>>,
    roots: Seq<Seq<char>>,
    i: int,
    n: nat,
) -> (p: Seq<char>)
    requires
        0 <= i < dirs.len(),
        config::deepest(roots, dirs[i]) is Some,
        path::components(roots[config::deepest(roots, dirs[i])->0]).len() <= n,
        path::components(dirs[i]).len() - path::names(dirs[i]).len() <= n,
        n <= path::components(dirs[i]).len(),
    ensures
        gets_row(dirs, roots, p),
        path::components(p) == path::components(dirs[i]).take(n as int),
        gets_row(dirs, roots, dirs[i]),
{
    let d = dirs[i];
    let c = path::components(d).len() as int;
    let k = (c - n) as nat;
    config::lemma_deepest(roots, d);
    lemma_above(d, k);
    let p = above(d, k);
    assert(between(dirs, roots, i, k, p));
    assert(between(dirs, roots, i, 0, d));
    p
}

/// A file counts to the directory that holds it.
pub proof fn a_file_counts_to_its_directory(p: Seq<char>, root: Seq<char>)
    requires
        path::names(p).len() > 0,
    ensures
        path::components(directory_of(p, root)) == path::components(p).drop_last(),
{
    path::lemma_parent(p);
}

/// Every row whose directory was found is linked to it, in order, and no other row is.
pub proof fn every_row_is_linked_to_its_directory(
    rows: Seq<(i64, String)>,
    found: Seq<Option<i64>>,
    i: int,
    pair: (i64, i64),
)
    requires
        found.len() == rows.len(),
    ensures
        0 <= i < rows.len() && found[i] is Some ==> link_pairs(rows, found).contains(
            (rows[i].0, found[i]->0),
        ),
        link_pairs(rows, found).contains(pair) ==> exists|k: int|
            0 <= k < rows.len() && (#[trigger] rows[k]).0 == pair.0 && found[k] == Some(pair.1),
        link_pairs(rows, found).len() <= rows.len(),
    decreases rows.len(),
{
    if rows.len() > 0 {
        let init = rows.drop_last();
        let less = found.drop_last();
        lemma_links_agree(init, found, less);
        every_row_is_linked_to_its_directory(init, less, i, pair);
        let before = link_pairs(init, found);
        let all = link_pairs(rows, found);
        let last = rows.len() - 1;
        if 0 <= i < rows.len() && found[i] is Some {
            let want = (rows[i].0, found[i]->0);
            if i < last {
                assert(before.contains(want));
                let k = choose|k: int| 0 <= k < before.len() && before[k] == want;
                assert(all[k] == want);
            } else {
                assert(all[before.len() as int] == want);
            }
        }
        if all.contains(pair) {
            let k = choose|k: int| 0 <= k < all.len() && all[k] == pair;
            if k < before.len() {
                assert(before[k] == pair);
                assert(before.contains(pair));
                let q = choose|q: int|
                    0 <= q < init.len() && (#[trigger] init[q]).0 == pair.0 && less[q] == Some(
                        pair.1,
                    );
                assert(rows[q].0 == pair.0 && found[q] == Some(pair.1));
            } else {
                assert(rows[last].0 == pair.0 && found[last] == Some(pair.1));
            }
        }
    }
}

proof fn lemma_links_agree(rows: Seq<(i64, String)>, a: Seq<Option<i64>>, b: Seq<Option<i64>>)
    requires
        rows.len() <= a.len(),
        rows.len() <= b.len(),
        forall|i: int| 0 <= i < rows.len() ==> a[i] == b[i],
    ensures
        link_pairs(rows, a) == link_pairs(rows, b),
    decreases rows.len(),
{
    if rows.len() > 0 {
        lemma_links_agree(rows.drop_last(), a, b);
    }
}

/// A scan is due by the time since the last one: at once on every run, after a day, after a week,
/// or never by itself.
pub proof fn schedules_go_by_the_time_since_the_last_scan(last: i64, now: i64)
    ensures
        Refresh::EveryRun.interval() == Some(0u64),
        Refresh::Daily.interval() == Some(86_400u64),
        Refresh::Weekly.interval() == Some(604_800u64),
        Refresh::Manual.interval() is None,
        now >= last ==> age(last, now) == now - last,
        now < last ==> age(last, now) == 0,
{
}

/// A row is linked by asking for the directory itself, and not linked where there is none.
pub proof fn the_directory_itself_is_asked_for<F: Fn(String) -> Option<i64>>(
    dir_id: &F,
    d: Seq<char>,
    id: Option<i64>,
)
    ensures
        answered(dir_id, None, id) ==> id is None,
        answered(dir_id, Some(d), id) && (forall|s: String, x: Option<i64>|
            s@ == d && #[trigger] call_ensures(dir_id, (s,), x) ==> x is Some) ==> id is Some,
        answered(dir_id, Some(d), id) && (forall|s: String, x: Option<i64>|
            s@ == d && #[trigger] call_ensures(dir_id, (s,), x) ==> x is None) ==> id is None,
{
}

/// A first scan is always due; after it none is where scans are manual, and otherwise one is when
/// as much time has passed as the schedule says.
pub proof fn a_scan_is_due_when_its_time_has_come(
    refresh: Refresh,
    last_scan_at: Option<i64>,
    now: i64,
    r: Due,
)
    requires
        call_ensures(is_due, (refresh, last_scan_at, now), r),
    ensures
        r == Due::Never <==> last_scan_at is None,
        last_scan_at matches Some(last) ==> {
            &&& refresh == Refresh::Manual ==> r == Due::No
            &&& refresh == Refresh::EveryRun ==> r == Due::Elapsed
            &&& refresh == Refresh::Daily ==> (r == Due::Elapsed <==> now - last >= 86_400)
            &&& refresh == Refresh::Weekly ==> (r == Due::Elapsed <==> now - last >= 604_800)
        },
{
}

/// Each vector goes to the row of the file that it was made for.
pub proof fn each_vector_goes_to_its_row(
    ids: Vec<i64>,
    todo: Vec<usize>,
    vectors: usize,
    r: Vec<i64>,
    i: int,
)
    requires
        call_ensures(vector_rows, (&ids, &todo, vectors), r),
        0 <= i < todo@.len(),
        i < vectors,
    ensures
        i < r@.len(),
        r@[i] == ids@[todo@[i] as int],
        r@.len() <= vectors,
        r@.len() <= todo@.len(),
{
}

/// Files are written 512 at a time, and embedded 512 at a time.
pub proof fn work_is_done_in_batches()
    ensures
        BATCH == 512,
        EMBED_GROUP == 512,
{
}

/// What is embedded of a changed file is all of its text: the path, its words, and the whole body;
/// and its digest is that of the same text.
pub proof fn all_of_a_changed_file_is_embedded(
    p: Prepared,
    found: Found,
    root: Seq<char>,
    body: Seq<char>,
    prev: Option<FileStat>,
    opts: ScanOptions,
)
    requires
        scanned(p, found, root, body, prev, opts),
        !p.unchanged,
    ensures
        ({
            let whole = extract::embedded_text(
                found.path@,
                root,
                extract::token_text(found.path@, root),
                body,
            );
            &&& p.hash@ == extract::hash_of(whole)
            &&& p.needs_embed ==> p.embed_text@ == whole
            &&& !p.needs_embed ==> p.embed_text@.len() == 0
        }),
        p.size == found.size,
        p.mtime_ns == found.mtime_ns,
{
}

} // verus!
