//! The text of the statements whose shape depends on the request, and what is bound to them.
use crate::chars;
use crate::db;
use crate::fusion::ResultKind;
use crate::text;
use vstd::prelude::*;

verus! {

/// The tables. Extracted body text lives only in `files_fts`, whose `rowid` is the id of the file;
/// `dirs_fts` does the same for directories, so a query can match one by name. Both are ordinary
/// full-text tables, which support a plain delete by `rowid` and so cannot fall out of step; their
/// tokenizer takes `_`, `-` and `.` for separators.
pub const SCHEMA: &'static str = "CREATE TABLE meta (
  k TEXT PRIMARY KEY,
  v TEXT NOT NULL
);

CREATE TABLE dirs (
  id         INTEGER PRIMARY KEY,
  path       TEXT UNIQUE NOT NULL,
  parent_id  INTEGER REFERENCES dirs(id) ON DELETE SET NULL,
  file_count INTEGER NOT NULL DEFAULT 0,
  vec_row    INTEGER NOT NULL DEFAULT -1,
  seen_scan  INTEGER NOT NULL DEFAULT 0
);
CREATE INDEX dirs_parent ON dirs(parent_id);
CREATE INDEX dirs_seen   ON dirs(seen_scan);

CREATE TABLE files (
  id             INTEGER PRIMARY KEY,
  path           TEXT UNIQUE NOT NULL,
  parent_dir_id  INTEGER REFERENCES dirs(id) ON DELETE SET NULL,
  mtime_ns       INTEGER NOT NULL,
  size           INTEGER NOT NULL,
  content_hash   BLOB,
  extract_kind   TEXT NOT NULL DEFAULT 'name-only',
  snippet        TEXT NOT NULL DEFAULT '',
  vec_row        INTEGER NOT NULL DEFAULT -1,
  embedded_model TEXT,
  seen_scan      INTEGER NOT NULL DEFAULT 0
);
CREATE INDEX files_parent  ON files(parent_dir_id);
CREATE INDEX files_seen    ON files(seen_scan);
CREATE INDEX files_vec_row ON files(vec_row);

CREATE VIRTUAL TABLE files_fts USING fts5(
  path, name, body,
  tokenize=\"unicode61 remove_diacritics 2\",
  prefix=\"2 3 4\"
);

CREATE VIRTUAL TABLE dirs_fts USING fts5(
  path, name,
  tokenize=\"unicode61 remove_diacritics 2\",
  prefix=\"2 3 4\"
);
";

/// Reads a stored pair.
pub const GET_META: &'static str = "SELECT v FROM meta WHERE k = ?1";

/// Stores a pair.
pub const SET_META: &'static str = "INSERT INTO meta(k, v) VALUES (?1, ?2) ON CONFLICT(k) DO UPDATE SET v = excluded.v";

/// What change detection needs of every file in a path range.
pub const FILE_STATS: &'static str = "SELECT id, path, mtime_ns, size, content_hash, vec_row FROM files WHERE path >= ?1 AND path < ?2";

/// Marks a file as seen.
pub const TOUCH_FILE: &'static str = "UPDATE files SET seen_scan = ?1 WHERE id = ?2";

/// Writes the new state of a file over the old.
pub const UPDATE_FILE: &'static str = "UPDATE files SET mtime_ns=?1, size=?2, content_hash=?3, extract_kind=?4, snippet=?5, seen_scan=?6 WHERE id=?7";

/// Gives a file a row.
pub const INSERT_FILE: &'static str = "INSERT INTO files (path, mtime_ns, size, content_hash, extract_kind, snippet, seen_scan) VALUES (?1,?2,?3,?4,?5,?6,?7)";

/// Records which vector is a file's.
pub const SET_FILE_VECTOR: &'static str = "UPDATE files SET vec_row = ?1 WHERE id = ?2";

/// Gives a directory a row, or marks it as seen.
pub const UPSERT_DIR: &'static str = "INSERT INTO dirs(path, seen_scan) VALUES (?1, ?2) ON CONFLICT(path) DO UPDATE SET seen_scan = excluded.seen_scan";

/// Removes a file's full-text row. Together with the insertion it replaces one, since the full-text
/// index has no upsert.
pub const DELETE_FILE_TEXT: &'static str = "DELETE FROM files_fts WHERE rowid = ?1";

/// Adds a file's full-text row.
pub const INSERT_FILE_TEXT: &'static str = "INSERT INTO files_fts(rowid, path, name, body) VALUES (?1,?2,?3,?4)";

/// Removes a directory's full-text row.
pub const DELETE_DIR_TEXT: &'static str = "DELETE FROM dirs_fts WHERE rowid = ?1";

/// Adds a directory's full-text row.
pub const INSERT_DIR_TEXT: &'static str = "INSERT INTO dirs_fts(rowid, path, name) VALUES (?1,?2,?3)";

/// Counts full-text rows without a file.
pub const TEXT_ORPHANS: &'static str = "SELECT COUNT(*) FROM files_fts WHERE rowid NOT IN (SELECT id FROM files)";

/// Counts files without a full-text row.
pub const TEXT_MISSING: &'static str = "SELECT COUNT(*) FROM files WHERE id NOT IN (SELECT rowid FROM files_fts)";

/// Candidates drawn from each retrieval arm before fusion. Larger than the final limit so fusion
/// has room to reorder, and cheap because both arms are fast.
pub const CANDIDATES: usize = 200;

/// The table backing each result kind.
pub open spec fn table_name(kind: ResultKind) -> Seq<char> {
    match kind {
        ResultKind::File => "files"@,
        ResultKind::Dir => "dirs"@,
    }
}

/// The table backing each result kind.
pub fn table_of(kind: ResultKind) -> (r: &'static str)
    ensures
        r@ == table_name(kind),
{
    match kind {
        ResultKind::File => "files",
        ResultKind::Dir => "dirs",
    }
}

/// `n` question marks with commas between them.
pub open spec fn question_marks(n: nat) -> Seq<char> {
    text::joined(Seq::new(n, |i: int| "?"@), ","@)
}

/// `n` question marks with commas between them, for an `IN` list.
pub fn placeholders(n: usize) -> (r: String)
    ensures
        r@ == question_marks(n as nat),
{
    let mut parts: Vec<String> = Vec::new();
    let mut i: usize = 0;
    while i < n
        invariant
            i <= n,
            text::views(parts@) == Seq::new(i as nat, |k: int| "?"@),
        decreases n - i,
    {
        let q = "?".to_owned();
        proof {
            text::lemma_views_push(parts@, q);
        }
        parts.push(q);
        i += 1;
        proof {
            assert(text::views(parts@) =~= Seq::new(i as nat, |k: int| "?"@));
        }
    }
    text::join(&parts, ",")
}

/// One clause of a range predicate: `(col >= ?lo AND col < ?lo+1)`.
pub open spec fn range_clause(col: Seq<char>, lo: int) -> Seq<char> {
    "("@ + col + " >= ?"@ + text::decimal(lo as nat) + " AND "@ + col + " < ?"@ + text::decimal(
        (lo + 1) as nat,
    ) + ")"@
}

/// A disjunction of `n` range clauses, numbered from `start`.
pub open spec fn range_predicate(n: nat, start: int, col: Seq<char>) -> Seq<char> {
    text::joined(Seq::new(n, |i: int| range_clause(col, start + i * 2)), " OR "@)
}

/// Builds a disjunction of `n` path ranges, with placeholders numbered from `start`.
pub fn prefix_predicate(n: usize, start: usize, col: &str) -> (r: String)
    requires
        start + 2 * n <= u64::MAX,
    ensures
        r@ == range_predicate(n as nat, start as int, col@),
{
    let mut parts: Vec<String> = Vec::new();
    let mut i: usize = 0;
    let ghost want = Seq::new(n as nat, |k: int| range_clause(col@, start + k * 2));
    while i < n
        invariant
            start + 2 * n <= u64::MAX,
            want == Seq::new(n as nat, |k: int| range_clause(col@, start + k * 2)),
            i <= n,
            text::views(parts@) == want.take(i as int),
        decreases n - i,
    {
        let lo: u64 = start as u64 + i as u64 * 2;
        let mut s = "(".to_owned();
        s.append(col);
        s.append(" >= ?");
        s.append(text::dec(lo).as_str());
        s.append(" AND ");
        s.append(col);
        s.append(" < ?");
        s.append(text::dec(lo + 1).as_str());
        s.append(")");
        proof {
            assert(s@ =~= range_clause(col@, start + i * 2));
            text::lemma_views_push(parts@, s);
        }
        parts.push(s);
        i += 1;
        proof {
            assert(text::views(parts@) =~= want.take(i as int));
        }
    }
    proof {
        assert(want.take(n as int) =~= want);
    }
    text::join(&parts, " OR ")
}

/// The bounds of each prefix, lower then upper, one pair after the other.
pub open spec fn bounds_of(prefixes: Seq<Seq<char>>) -> Seq<Seq<char>>
    decreases prefixes.len(),
{
    if prefixes.len() == 0 {
        seq![]
    } else {
        bounds_of(prefixes.drop_last()).push(prefixes.last()).push(db::upper_bound(prefixes.last()))
    }
}

/// Appends the bounds of each prefix to `binds`.
fn push_bounds(prefixes: &Vec<String>, binds: &mut Vec<String>)
    ensures
        text::views(final(binds)@) == text::views(old(binds)@) + bounds_of(text::views(prefixes@)),
{
    let ghost start = text::views(binds@);
    let mut i: usize = 0;
    proof {
        assert(text::views(prefixes@.take(0)) =~= Seq::<Seq<char>>::empty());
        assert(start =~= start + bounds_of(text::views(prefixes@.take(0))));
    }
    while i < prefixes.len()
        invariant
            i <= prefixes@.len(),
            text::views(binds@) == start + bounds_of(text::views(prefixes@.take(i as int))),
        decreases prefixes@.len() - i,
    {
        let (lo, hi) = db::prefix_range(prefixes[i].as_str());
        let ghost before = text::views(binds@);
        binds.push(lo);
        binds.push(hi);
        proof {
            let next = text::views(prefixes@.take(i + 1));
            assert(next.drop_last() =~= text::views(prefixes@.take(i as int)));
            assert(next.last() == prefixes@[i as int]@);
            assert(text::views(binds@) =~= before.push(lo@).push(hi@));
            assert(text::views(binds@) =~= start + bounds_of(next));
        }
        i += 1;
    }
    proof {
        assert(prefixes@.take(prefixes@.len() as int) =~= prefixes@);
    }
}

/// The statements of a scoped garbage collection and what is bound to each of them. The full-text
/// rows go first: they hang on no foreign key.
pub struct ScopedGc {
    pub files_fts: String,
    pub dirs_fts: String,
    pub files: String,
    pub dirs: String,
    pub binds: Vec<String>,
}

/// Deletes the full-text rows of what a scan did not see.
pub open spec fn gc_fts_sql(kind: ResultKind, n: nat) -> Seq<char> {
    "DELETE FROM "@ + table_name(kind) + "_fts WHERE rowid IN (SELECT id FROM "@ + table_name(kind)
        + " WHERE seen_scan != ?1 AND ("@ + range_predicate(n, 2, "path"@) + "))"@
}

/// Deletes what a scan did not see.
pub open spec fn gc_sql(kind: ResultKind, n: nat) -> Seq<char> {
    "DELETE FROM "@ + table_name(kind) + " WHERE seen_scan != ?1 AND ("@ + range_predicate(
        n,
        2,
        "path"@,
    ) + ")"@
}

fn gc_fts_text(kind: ResultKind, pred: &str, Ghost(n): Ghost<nat>) -> (r: String)
    requires
        pred@ == range_predicate(n, 2, "path"@),
    ensures
        r@ == gc_fts_sql(kind, n),
{
    let mut s = "DELETE FROM ".to_owned();
    s.append(table_of(kind));
    s.append("_fts WHERE rowid IN (SELECT id FROM ");
    s.append(table_of(kind));
    s.append(" WHERE seen_scan != ?1 AND (");
    s.append(pred);
    s.append("))");
    proof {
        assert(s@ =~= gc_fts_sql(kind, n));
    }
    s
}

fn gc_text(kind: ResultKind, pred: &str, Ghost(n): Ghost<nat>) -> (r: String)
    requires
        pred@ == range_predicate(n, 2, "path"@),
    ensures
        r@ == gc_sql(kind, n),
{
    let mut s = "DELETE FROM ".to_owned();
    s.append(table_of(kind));
    s.append(" WHERE seen_scan != ?1 AND (");
    s.append(pred);
    s.append(")");
    proof {
        assert(s@ =~= gc_sql(kind, n));
    }
    s
}

/// Whether `g` deletes what generation `scan_gen` did not observe under `prefixes`.
pub open spec fn collects_under(g: ScopedGc, prefixes: Seq<Seq<char>>, scan_gen: i64) -> bool {
    &&& g.files_fts@ == gc_fts_sql(ResultKind::File, prefixes.len())
    &&& g.dirs_fts@ == gc_fts_sql(ResultKind::Dir, prefixes.len())
    &&& g.files@ == gc_sql(ResultKind::File, prefixes.len())
    &&& g.dirs@ == gc_sql(ResultKind::Dir, prefixes.len())
    &&& text::views(g.binds@) == seq![text::signed_decimal(scan_gen as int)] + bounds_of(prefixes)
}

/// Whether `g` deletes all that generation `scan_gen` did not observe.
pub open spec fn collects_all(g: ScopedGc, scan_gen: i64) -> bool {
    &&& g.files_fts@
        == "DELETE FROM files_fts WHERE rowid IN (SELECT id FROM files WHERE seen_scan != ?1)"@
    &&& g.dirs_fts@
        == "DELETE FROM dirs_fts WHERE rowid IN (SELECT id FROM dirs WHERE seen_scan != ?1)"@
    &&& g.files@ == "DELETE FROM files WHERE seen_scan != ?1"@
    &&& g.dirs@ == "DELETE FROM dirs WHERE seen_scan != ?1"@
    &&& text::views(g.binds@) == seq![text::signed_decimal(scan_gen as int)]
}

/// Deletes only rows under `prefixes` that generation `scan_gen` did not observe; other roots are
/// untouched. With no prefix there is nothing to run.
pub fn gc_under(prefixes: &Vec<String>, scan_gen: i64) -> (r: Option<ScopedGc>)
    requires
        2 + 2 * prefixes@.len() <= u64::MAX,
    ensures
        r is None <==> prefixes@.len() == 0,
        r matches Some(g) ==> collects_under(g, text::views(prefixes@), scan_gen),
{
    if prefixes.len() == 0 {
        return None;
    }
    let pred = prefix_predicate(prefixes.len(), 2, "path");
    let ghost n = prefixes@.len();
    let mut binds: Vec<String> = Vec::new();
    binds.push(text::dec_signed(scan_gen));
    proof {
        assert(text::views(binds@) =~= seq![text::signed_decimal(scan_gen as int)]);
    }
    push_bounds(prefixes, &mut binds);
    Some(
        ScopedGc {
            files_fts: gc_fts_text(ResultKind::File, pred.as_str(), Ghost(n)),
            dirs_fts: gc_fts_text(ResultKind::Dir, pred.as_str(), Ghost(n)),
            files: gc_text(ResultKind::File, pred.as_str(), Ghost(n)),
            dirs: gc_text(ResultKind::Dir, pred.as_str(), Ghost(n)),
            binds,
        },
    )
}

/// What a scan collects: under the walked roots where it was limited to one of them, else
/// everything it did not observe. A limited scan that collected everywhere would delete every other
/// root.
pub fn collection(limited: bool, prefixes: &Vec<String>, scan_gen: i64) -> (r: Option<ScopedGc>)
    requires
        2 + 2 * prefixes@.len() <= u64::MAX,
    ensures
        !limited ==> r is Some && collects_all(r->0, scan_gen),
        limited ==> (r is None <==> prefixes@.len() == 0),
        limited && r is Some ==> collects_under(r->0, text::views(prefixes@), scan_gen),
{
    if limited {
        gc_under(prefixes, scan_gen)
    } else {
        Some(gc_all(scan_gen))
    }
}

/// Deletes every row that generation `scan_gen` did not observe.
pub fn gc_all(scan_gen: i64) -> (r: ScopedGc)
    ensures
        collects_all(r, scan_gen),
{
    let mut binds: Vec<String> = Vec::new();
    binds.push(text::dec_signed(scan_gen));
    proof {
        assert(text::views(binds@) =~= seq![text::signed_decimal(scan_gen as int)]);
    }
    ScopedGc {
        files_fts: "DELETE FROM files_fts WHERE rowid IN (SELECT id FROM files WHERE seen_scan != ?1)".to_owned(),
        dirs_fts: "DELETE FROM dirs_fts WHERE rowid IN (SELECT id FROM dirs WHERE seen_scan != ?1)".to_owned(),
        files: "DELETE FROM files WHERE seen_scan != ?1".to_owned(),
        dirs: "DELETE FROM dirs WHERE seen_scan != ?1".to_owned(),
        binds,
    }
}

/// A statement and what is bound to it.
pub struct Statement {
    pub sql: String,
    pub binds: Vec<String>,
}

/// Whether `q` lists the vector rows of all that generation `scan_gen` did not observe.
pub open spec fn lists_unseen(q: Statement, kind: ResultKind, scan_gen: i64) -> bool {
    &&& q.sql@ == "SELECT vec_row FROM "@ + table_name(kind)
        + " WHERE seen_scan != ?1 AND vec_row != ?2"@
    &&& text::views(q.binds@) == seq![
        text::signed_decimal(scan_gen as int),
        text::signed_decimal(db::NO_VEC as int),
    ]
}

/// Whether `q` lists the vector rows of what generation `scan_gen` did not observe under
/// `prefixes`.
pub open spec fn lists_unseen_under(
    q: Statement,
    kind: ResultKind,
    prefixes: Seq<Seq<char>>,
    scan_gen: i64,
) -> bool {
    &&& q.sql@ == "SELECT vec_row FROM "@ + table_name(kind)
        + " WHERE seen_scan != ?1 AND vec_row != ?2 AND ("@ + range_predicate(
        prefixes.len(),
        3,
        "path"@,
    ) + ")"@
    &&& text::views(q.binds@) == seq![
        text::signed_decimal(scan_gen as int),
        text::signed_decimal(db::NO_VEC as int),
    ] + bounds_of(prefixes)
}

/// Vector rows of everything a scan did not observe.
pub fn vec_rows_not_seen(kind: ResultKind, scan_gen: i64) -> (r: Statement)
    ensures
        lists_unseen(r, kind, scan_gen),
{
    let mut s = "SELECT vec_row FROM ".to_owned();
    s.append(table_of(kind));
    s.append(" WHERE seen_scan != ?1 AND vec_row != ?2");
    let mut binds: Vec<String> = Vec::new();
    binds.push(text::dec_signed(scan_gen));
    binds.push(text::dec_signed(db::NO_VEC));
    proof {
        assert(text::views(binds@) =~= seq![
            text::signed_decimal(scan_gen as int),
            text::signed_decimal(db::NO_VEC as int),
        ]);
    }
    Statement { sql: s, binds }
}

/// Vector rows under `prefixes` that a scan did not observe, so that a single-root refresh zeroes
/// only its own deletions.
pub fn vec_rows_not_seen_under(kind: ResultKind, prefixes: &Vec<String>, scan_gen: i64) -> (r:
    Option<Statement>)
    requires
        3 + 2 * prefixes@.len() <= u64::MAX,
    ensures
        r is None <==> prefixes@.len() == 0,
        r matches Some(q) ==> lists_unseen_under(q, kind, text::views(prefixes@), scan_gen),
{
    if prefixes.len() == 0 {
        return None;
    }
    let pred = prefix_predicate(prefixes.len(), 3, "path");
    let mut s = "SELECT vec_row FROM ".to_owned();
    s.append(table_of(kind));
    s.append(" WHERE seen_scan != ?1 AND vec_row != ?2 AND (");
    s.append(pred.as_str());
    s.append(")");
    let mut binds: Vec<String> = Vec::new();
    binds.push(text::dec_signed(scan_gen));
    binds.push(text::dec_signed(db::NO_VEC));
    proof {
        assert(text::views(binds@) =~= seq![
            text::signed_decimal(scan_gen as int),
            text::signed_decimal(db::NO_VEC as int),
        ]);
    }
    push_bounds(prefixes, &mut binds);
    Some(Statement { sql: s, binds })
}

/// The vectors that a scan zeroes before their rows go: those of exactly the rows that `collection`
/// deletes. A stale vector would keep matching queries for a file that no longer exists.
pub fn doomed_vectors(kind: ResultKind, limited: bool, prefixes: &Vec<String>, scan_gen: i64) -> (r:
    Option<Statement>)
    requires
        3 + 2 * prefixes@.len() <= u64::MAX,
    ensures
        !limited ==> r is Some && lists_unseen(r->0, kind, scan_gen),
        limited ==> (r is None <==> prefixes@.len() == 0),
        limited && r is Some ==> lists_unseen_under(
            r->0,
            kind,
            text::views(prefixes@),
            scan_gen,
        ),
{
    if limited {
        vec_rows_not_seen_under(kind, prefixes, scan_gen)
    } else {
        Some(vec_rows_not_seen(kind, scan_gen))
    }
}

// ------------------------------------------------------------------ retrieval

/// The full-text table of a kind, its columns weighted so that a hit in the name means far more
/// than one buried in the body.
pub open spec fn bm25(kind: ResultKind) -> Seq<char> {
    match kind {
        ResultKind::File => "bm25(files_fts, 1.0, 3.0, 1.0)"@,
        ResultKind::Dir => "bm25(dirs_fts, 1.0, 3.0)"@,
    }
}

fn bm25_text(kind: ResultKind) -> (r: &'static str)
    ensures
        r@ == bm25(kind),
{
    match kind {
        ResultKind::File => "bm25(files_fts, 1.0, 3.0, 1.0)",
        ResultKind::Dir => "bm25(dirs_fts, 1.0, 3.0)",
    }
}

/// One scope entry: the subtree range plus the scope directory itself, three parameters from `at`.
pub open spec fn scope_clause(at: int) -> Seq<char> {
    "(t.path >= ?"@ + text::decimal(at as nat) + " AND t.path < ?"@ + text::decimal((at + 1) as nat)
        + " OR t.path = ?"@ + text::decimal((at + 2) as nat) + ")"@
}

/// The scope restriction: nothing without a scope, else a disjunction of its entries.
pub open spec fn scope_filter(n: nat) -> Seq<char> {
    if n == 0 {
        seq![]
    } else {
        " AND ("@ + text::joined(Seq::new(n, |i: int| scope_clause(2 + i * 3)), " OR "@) + ")"@
    }
}

/// The statement behind a lexical arm: matches ranked best first, within the scope.
pub open spec fn lexical_sql(kind: ResultKind, n: nat) -> Seq<char> {
    "SELECT t.id FROM "@ + table_name(kind) + "_fts JOIN "@ + table_name(kind) + " t ON t.id = "@
        + table_name(kind) + "_fts.rowid WHERE "@ + table_name(kind) + "_fts MATCH ?1"@
        + scope_filter(n) + " ORDER BY "@ + bm25(kind) + " LIMIT ?"@ + text::decimal(2 + n * 3)
}

/// What is bound for each scope directory: the range of its inside, then the directory itself.
pub open spec fn scope_binds(scope: Seq<Seq<char>>) -> Seq<Seq<char>>
    decreases scope.len(),
{
    if scope.len() == 0 {
        seq![]
    } else {
        let bare = chars::strip_end(scope.last(), '/');
        scope_binds(scope.drop_last()).push(bare.push('/')).push(bare.push('0')).push(bare)
    }
}

/// The statement of a lexical arm and the texts bound to it; the row limit is bound last, as a
/// number.
pub fn lexical_arm(kind: ResultKind, match_expr: &str, scope: &Vec<String>) -> (r: Statement)
    requires
        4 + 3 * scope@.len() <= u64::MAX,
    ensures
        r.sql@ == lexical_sql(kind, scope@.len()),
        text::views(r.binds@) == seq![match_expr@] + scope_binds(text::views(scope@)),
{
    let table = table_of(kind);
    let n: usize = scope.len();
    let mut sql = "SELECT t.id FROM ".to_owned();
    sql.append(table);
    sql.append("_fts JOIN ");
    sql.append(table);
    sql.append(" t ON t.id = ");
    sql.append(table);
    sql.append("_fts.rowid WHERE ");
    sql.append(table);
    sql.append("_fts MATCH ?1");
    let ghost head = sql@;
    let ghost want = Seq::new(n as nat, |i: int| scope_clause(2 + i * 3));
    let mut parts: Vec<String> = Vec::new();
    let mut binds: Vec<String> = Vec::new();
    binds.push(match_expr.to_owned());
    let mut i: usize = 0;
    proof {
        assert(text::views(scope@.take(0)) =~= Seq::<Seq<char>>::empty());
        assert(text::views(binds@) =~= seq![match_expr@] + scope_binds(
            text::views(scope@.take(0)),
        ));
        assert(text::views(parts@) =~= want.take(0));
    }
    while i < n
        invariant
            n == scope@.len(),
            4 + 3 * n <= u64::MAX,
            want == Seq::new(n as nat, |i: int| scope_clause(2 + i * 3)),
            i <= n,
            text::views(parts@) == want.take(i as int),
            text::views(binds@) == seq![match_expr@] + scope_binds(
                text::views(scope@.take(i as int)),
            ),
        decreases n - i,
    {
        let at: u64 = 2 + i as u64 * 3;
        let mut s = "(t.path >= ?".to_owned();
        s.append(text::dec(at).as_str());
        s.append(" AND t.path < ?");
        s.append(text::dec(at + 1).as_str());
        s.append(" OR t.path = ?");
        s.append(text::dec(at + 2).as_str());
        s.append(")");
        proof {
            assert(s@ =~= scope_clause(2 + i * 3));
            text::lemma_views_push(parts@, s);
        }
        parts.push(s);
        let (lo, hi) = db::dir_prefix_range(scope[i].as_str());
        let bare = chars::trim_end_char(scope[i].as_str(), '/');
        let ghost before = text::views(binds@);
        binds.push(lo);
        binds.push(hi);
        binds.push(bare);
        proof {
            let next = text::views(scope@.take(i + 1));
            assert(next.drop_last() =~= text::views(scope@.take(i as int)));
            assert(next.last() == scope@[i as int]@);
            assert(text::views(binds@) =~= before.push(lo@).push(hi@).push(bare@));
            assert(text::views(binds@) =~= seq![match_expr@] + scope_binds(next));
            assert(text::views(parts@) =~= want.take(i + 1));
        }
        i += 1;
    }
    proof {
        assert(scope@.take(scope@.len() as int) =~= scope@);
        assert(want.take(n as int) =~= want);
    }
    if n > 0 {
        sql.append(" AND (");
        sql.append(text::join(&parts, " OR ").as_str());
        sql.append(")");
    }
    proof {
        assert(sql@ =~= head + scope_filter(n as nat));
    }
    sql.append(" ORDER BY ");
    sql.append(bm25_text(kind));
    sql.append(" LIMIT ?");
    sql.append(text::dec(2 + n as u64 * 3).as_str());
    proof {
        assert(sql@ =~= lexical_sql(kind, n as nat));
    }
    Statement { sql, binds }
}

/// The statement that lists the vector rows in one scope directory.
pub fn scope_rows(kind: ResultKind) -> (r: String)
    ensures
        r@ == "SELECT vec_row FROM "@ + table_name(kind) + " WHERE vec_row != "@
            + text::signed_decimal(db::NO_VEC as int)
            + " AND ((path >= ?1 AND path < ?2) OR path = ?3)"@,
{
    let mut s = "SELECT vec_row FROM ".to_owned();
    s.append(table_of(kind));
    s.append(" WHERE vec_row != ");
    s.append(text::dec_signed(db::NO_VEC).as_str());
    s.append(" AND ((path >= ?1 AND path < ?2) OR path = ?3)");
    s
}

/// What is bound to `scope_rows` for `dir`: its inside, and for directories the directory itself,
/// so that a scoped search can return the directory it was scoped to. A file never is one.
pub fn scope_row_binds(kind: ResultKind, dir: &str) -> (r: (String, String, String))
    ensures
        r.0@ == db::inside(dir@),
        r.1@ == chars::strip_end(dir@, '/').push('0'),
        r.2@ == match kind {
            ResultKind::Dir => chars::strip_end(dir@, '/'),
            ResultKind::File => Seq::<char>::empty(),
        },
{
    let (lo, hi) = db::dir_prefix_range(dir);
    let own = match kind {
        ResultKind::Dir => chars::trim_end_char(dir, '/'),
        ResultKind::File => String::new(),
    };
    (lo, hi, own)
}

/// A mask of `rows` entries, set exactly where one of `found` says.
pub fn allow_rows(rows: usize, found: &Vec<i64>) -> (r: Vec<bool>)
    ensures
        r@.len() == rows,
        forall|i: int| 0 <= i < rows ==> (#[trigger] r@[i] <==> found@.contains(i as i64) && i
            <= i64::MAX),
{
    let mut allow: Vec<bool> = Vec::new();
    let mut i: usize = 0;
    while i < rows
        invariant
            i <= rows,
            allow@.len() == i,
            forall|k: int| 0 <= k < i ==> !(#[trigger] allow@[k]),
        decreases rows - i,
    {
        allow.push(false);
        i += 1;
    }
    let mut j: usize = 0;
    while j < found.len()
        invariant
            j <= found@.len(),
            allow@.len() == rows,
            forall|k: int|
                0 <= k < rows ==> (#[trigger] allow@[k] <==> found@.take(j as int).contains(
                    k as i64,
                ) && k <= i64::MAX),
        decreases found@.len() - j,
    {
        let row: i64 = found[j];
        let ghost before = allow@;
        if row >= 0 && (row as u64) < rows as u64 {
            allow.set(row as usize, true);
        }
        proof {
            let done = found@.take(j as int);
            let next = found@.take(j + 1);
            assert(next =~= done.push(row));
            assert forall|k: int| 0 <= k < rows implies (#[trigger] allow@[k] <==> next.contains(
                k as i64,
            ) && k <= i64::MAX) by {
                assert(before[k] <==> done.contains(k as i64) && k <= i64::MAX);
                if done.contains(k as i64) {
                    let p = choose|p: int| 0 <= p < done.len() && done[p] == k as i64;
                    assert(next[p] == k as i64);
                }
                if next.contains(k as i64) && k <= i64::MAX {
                    let p = choose|p: int| 0 <= p < next.len() && next[p] == k as i64;
                    if p < done.len() {
                        assert(done[p] == k as i64);
                    } else {
                        assert(row == k);
                    }
                }
                if row == k {
                    assert(next[j as int] == k as i64);
                }
            }
        }
        j += 1;
    }
    proof {
        assert(found@.take(found@.len() as int) =~= found@);
    }
    allow
}

/// The statement that fetches the texts a reranker judges.
pub fn rerank_sql(kind: ResultKind, n: usize) -> (r: String)
    ensures
        r@ == match kind {
            ResultKind::File => "SELECT rowid, name, body FROM files_fts WHERE rowid IN ("@,
            ResultKind::Dir => "SELECT id, path, '' FROM dirs WHERE id IN ("@,
        } + question_marks(n as nat) + ")"@,
{
    let mut s = match kind {
        ResultKind::File => "SELECT rowid, name, body FROM files_fts WHERE rowid IN (".to_owned(),
        ResultKind::Dir => "SELECT id, path, '' FROM dirs WHERE id IN (".to_owned(),
    };
    s.append(placeholders(n).as_str());
    s.append(")");
    s
}

/// The statement that fetches what is shown of results.
pub fn meta_sql(kind: ResultKind, n: usize) -> (r: String)
    ensures
        r@ == match kind {
            ResultKind::File => "SELECT id, path, snippet FROM files WHERE id IN ("@,
            ResultKind::Dir => "SELECT id, path, file_count FROM dirs WHERE id IN ("@,
        } + question_marks(n as nat) + ")"@,
{
    let mut s = match kind {
        ResultKind::File => "SELECT id, path, snippet FROM files WHERE id IN (".to_owned(),
        ResultKind::Dir => "SELECT id, path, file_count FROM dirs WHERE id IN (".to_owned(),
    };
    s.append(placeholders(n).as_str());
    s.append(")");
    s
}

/// The statement that finds the parent directories of files: the file, its directory, and where the
/// directory is.
pub fn parents_sql(n: usize) -> (r: String)
    ensures
        r@ == "SELECT f.id, d.id, d.path FROM files f JOIN dirs d ON d.id = f.parent_dir_id WHERE f.id IN ("@
            + question_marks(n as nat) + ")"@,
{
    let mut s =
        "SELECT f.id, d.id, d.path FROM files f JOIN dirs d ON d.id = f.parent_dir_id WHERE f.id IN (".to_owned();
    s.append(placeholders(n).as_str());
    s.append(")");
    s
}

// ------------------------------------------------------------------ laws

/// Scoped garbage collection spares other roots: a path outside every collected directory is in
/// none of the ranges that are bound.
pub proof fn scoped_collection_spares_other_roots(dirs: Seq<Seq<char>>, path: Seq<char>, i: int)
    requires
        0 <= i < dirs.len(),
        forall|k: int|
            0 <= k < dirs.len() ==> !chars::begins_with(path, db::inside(#[trigger] dirs[k])),
    ensures
        !db::in_range(
            path,
            db::inside(dirs[i]),
            chars::strip_end(dirs[i], '/').push('0'),
        ),
{
    db::range_is_the_subtree(dirs[i], path);
}

/// The lexical arm of files, word for word: its matches are listed by ascending bm25, which is best
/// first, the name weighing three times, and the limit follows directly.
pub proof fn the_lexical_arm_of_files_lists_the_best_first(n: nat)
    ensures
        lexical_sql(ResultKind::File, n)
            == "SELECT t.id FROM files_fts JOIN files t ON t.id = files_fts.rowid WHERE files_fts MATCH ?1"@
            + scope_filter(n) + " ORDER BY bm25(files_fts, 1.0, 3.0, 1.0) LIMIT ?"@ + text::decimal(
            2 + n * 3,
        ),
{
    reveal_strlit("SELECT t.id FROM ");
    reveal_strlit("files");
    reveal_strlit("_fts JOIN ");
    reveal_strlit(" t ON t.id = ");
    reveal_strlit("_fts.rowid WHERE ");
    reveal_strlit("_fts MATCH ?1");
    reveal_strlit(" ORDER BY ");
    reveal_strlit("bm25(files_fts, 1.0, 3.0, 1.0)");
    reveal_strlit(" LIMIT ?");
    let head = "SELECT t.id FROM "@ + "files"@ + "_fts JOIN "@ + "files"@ + " t ON t.id = "@
        + "files"@ + "_fts.rowid WHERE "@ + "files"@ + "_fts MATCH ?1"@;
    assert(head
        == "SELECT t.id FROM files_fts JOIN files t ON t.id = files_fts.rowid WHERE files_fts MATCH ?1"@)
        by {
        reveal_strlit(
            "SELECT t.id FROM files_fts JOIN files t ON t.id = files_fts.rowid WHERE files_fts MATCH ?1",
        );
        assert(head
            =~= "SELECT t.id FROM files_fts JOIN files t ON t.id = files_fts.rowid WHERE files_fts MATCH ?1"@);
    }
    let order = " ORDER BY "@ + "bm25(files_fts, 1.0, 3.0, 1.0)"@ + " LIMIT ?"@;
    assert(order == " ORDER BY bm25(files_fts, 1.0, 3.0, 1.0) LIMIT ?"@) by {
        reveal_strlit(" ORDER BY bm25(files_fts, 1.0, 3.0, 1.0) LIMIT ?");
        assert(order =~= " ORDER BY bm25(files_fts, 1.0, 3.0, 1.0) LIMIT ?"@);
    }
    assert(lexical_sql(ResultKind::File, n) =~= head + scope_filter(n) + order + text::decimal(
        2 + n * 3,
    ));
}

/// The lexical arm of directories, word for word: best first by ascending bm25, the name weighing
/// three times.
pub proof fn the_lexical_arm_of_directories_lists_the_best_first(n: nat)
    ensures
        lexical_sql(ResultKind::Dir, n)
            == "SELECT t.id FROM dirs_fts JOIN dirs t ON t.id = dirs_fts.rowid WHERE dirs_fts MATCH ?1"@
            + scope_filter(n) + " ORDER BY bm25(dirs_fts, 1.0, 3.0) LIMIT ?"@ + text::decimal(
            2 + n * 3,
        ),
{
    reveal_strlit("SELECT t.id FROM ");
    reveal_strlit("dirs");
    reveal_strlit("_fts JOIN ");
    reveal_strlit(" t ON t.id = ");
    reveal_strlit("_fts.rowid WHERE ");
    reveal_strlit("_fts MATCH ?1");
    reveal_strlit(" ORDER BY ");
    reveal_strlit("bm25(dirs_fts, 1.0, 3.0)");
    reveal_strlit(" LIMIT ?");
    let head = "SELECT t.id FROM "@ + "dirs"@ + "_fts JOIN "@ + "dirs"@ + " t ON t.id = "@ + "dirs"@
        + "_fts.rowid WHERE "@ + "dirs"@ + "_fts MATCH ?1"@;
    assert(head
        == "SELECT t.id FROM dirs_fts JOIN dirs t ON t.id = dirs_fts.rowid WHERE dirs_fts MATCH ?1"@)
        by {
        reveal_strlit(
            "SELECT t.id FROM dirs_fts JOIN dirs t ON t.id = dirs_fts.rowid WHERE dirs_fts MATCH ?1",
        );
        assert(head
            =~= "SELECT t.id FROM dirs_fts JOIN dirs t ON t.id = dirs_fts.rowid WHERE dirs_fts MATCH ?1"@);
    }
    let order = " ORDER BY "@ + "bm25(dirs_fts, 1.0, 3.0)"@ + " LIMIT ?"@;
    assert(order == " ORDER BY bm25(dirs_fts, 1.0, 3.0) LIMIT ?"@) by {
        reveal_strlit(" ORDER BY bm25(dirs_fts, 1.0, 3.0) LIMIT ?");
        assert(order =~= " ORDER BY bm25(dirs_fts, 1.0, 3.0) LIMIT ?"@);
    }
    assert(lexical_sql(ResultKind::Dir, n) =~= head + scope_filter(n) + order + text::decimal(
        2 + n * 3,
    ));
}

/// Without a scope there is no restriction; with one, each of its directories admits what lies in
/// a range of paths and the directory itself, by the three parameters that are its own.
pub proof fn a_scope_admits_each_of_its_directories(n: nat)
    ensures
        scope_filter(0) == Seq::<char>::empty(),
        n > 0 ==> scope_filter(n) == " AND ("@ + text::joined(
            Seq::new(
                n,
                |i: int|
                    "(t.path >= ?"@ + text::decimal((2 + 3 * i) as nat) + " AND t.path < ?"@
                        + text::decimal((3 + 3 * i) as nat) + " OR t.path = ?"@ + text::decimal(
                        (4 + 3 * i) as nat,
                    ) + ")"@,
            ),
            " OR "@,
        ) + ")"@,
{
    let want = Seq::new(
        n,
        |i: int|
            "(t.path >= ?"@ + text::decimal((2 + 3 * i) as nat) + " AND t.path < ?"@
                + text::decimal((3 + 3 * i) as nat) + " OR t.path = ?"@ + text::decimal(
                (4 + 3 * i) as nat,
            ) + ")"@,
    );
    assert(want =~= Seq::new(n, |i: int| scope_clause(2 + i * 3)));
}

/// What is bound to the parameters of a scope directory, three by three: its path with a slash, its
/// path with the character after the slash, and its path, all without the slashes at its end. What
/// lies in that range is exactly what lies in the directory.
pub proof fn a_scope_is_bound_directory_by_directory(scope: Seq<Seq<char>>, i: int, path: Seq<char>)
    requires
        0 <= i < scope.len(),
    ensures
        scope_binds(scope).len() == 3 * scope.len(),
        scope_binds(scope)[3 * i] == scope_binds(scope)[3 * i + 2].push('/'),
        scope_binds(scope)[3 * i + 1] == scope_binds(scope)[3 * i + 2].push('0'),
        scope_binds(scope)[3 * i + 2] == chars::strip_end(scope[i], '/'),
        db::in_range(path, scope_binds(scope)[3 * i], scope_binds(scope)[3 * i + 1])
            == chars::begins_with(path, chars::strip_end(scope[i], '/').push('/')),
    decreases scope.len(),
{
    let init = scope.drop_last();
    lemma_scope_binds_len(init);
    lemma_scope_binds_len(scope);
    db::range_is_the_subtree(scope[i], path);
    if i < init.len() {
        a_scope_is_bound_directory_by_directory(init, i, path);
        let b = scope_binds(init);
        assert(scope_binds(scope)[3 * i] == b[3 * i]);
        assert(scope_binds(scope)[3 * i + 1] == b[3 * i + 1]);
        assert(scope_binds(scope)[3 * i + 2] == b[3 * i + 2]);
    }
}

proof fn lemma_scope_binds_len(scope: Seq<Seq<char>>)
    ensures
        scope_binds(scope).len() == 3 * scope.len(),
    decreases scope.len(),
{
    if scope.len() > 0 {
        lemma_scope_binds_len(scope.drop_last());
    }
}

/// What is bound for each prefix, two by two: the prefix, and where what begins with it ends. Where
/// there is such an end, what lies between the two is exactly what begins with the prefix.
pub proof fn prefixes_are_bound_one_by_one(prefixes: Seq<Seq<char>>, i: int, path: Seq<char>)
    requires
        0 <= i < prefixes.len(),
    ensures
        bounds_of(prefixes).len() == 2 * prefixes.len(),
        bounds_of(prefixes)[2 * i] == prefixes[i],
        db::raised(prefixes[i]) is Some ==> db::in_range(
            path,
            bounds_of(prefixes)[2 * i],
            bounds_of(prefixes)[2 * i + 1],
        ) == chars::begins_with(path, prefixes[i]),
    decreases prefixes.len(),
{
    let init = prefixes.drop_last();
    lemma_bounds_len(init);
    lemma_bounds_len(prefixes);
    if i < init.len() {
        prefixes_are_bound_one_by_one(init, i, path);
        let b = bounds_of(init);
        assert(bounds_of(prefixes)[2 * i] == b[2 * i]);
        assert(bounds_of(prefixes)[2 * i + 1] == b[2 * i + 1]);
    } else if db::raised(prefixes[i]) is Some {
        db::range_is_the_prefix(prefixes[i], path);
    }
}

proof fn lemma_bounds_len(prefixes: Seq<Seq<char>>)
    ensures
        bounds_of(prefixes).len() == 2 * prefixes.len(),
    decreases prefixes.len(),
{
    if prefixes.len() > 0 {
        lemma_bounds_len(prefixes.drop_last());
    }
}

/// A list of parameters is as many question marks as asked for, with commas between them.
pub proof fn parameters_alternate_with_commas(n: nat)
    ensures
        n == 0 ==> question_marks(n).len() == 0,
        n > 0 ==> question_marks(n).len() == 2 * n - 1,
        forall|i: int|
            0 <= i < question_marks(n).len() ==> #[trigger] question_marks(n)[i] == (if i % 2 == 0 {
                '?'
            } else {
                ','
            }),
    decreases n,
{
    reveal_strlit("?");
    reveal_strlit(",");
    if n > 1 {
        let m = (n - 1) as nat;
        parameters_alternate_with_commas(m);
        let all = Seq::new(n, |i: int| "?"@);
        assert(all.drop_last() =~= Seq::new(m, |i: int| "?"@));
    }
}

/// The ranges of a statement, one for each prefix, each by the two parameters that are its own: at
/// least the first, and below the second.
pub proof fn each_range_has_its_parameters(n: nat, start: nat, col: Seq<char>)
    ensures
        range_predicate(n, start as int, col) == text::joined(
            Seq::new(
                n,
                |i: int|
                    "("@ + col + " >= ?"@ + text::decimal((start + 2 * i) as nat) + " AND "@ + col
                        + " < ?"@ + text::decimal((start + 2 * i + 1) as nat) + ")"@,
            ),
            " OR "@,
        ),
{
    let want = Seq::new(
        n,
        |i: int|
            "("@ + col + " >= ?"@ + text::decimal((start + 2 * i) as nat) + " AND "@ + col + " < ?"@
                + text::decimal((start + 2 * i + 1) as nat) + ")"@,
    );
    assert(want =~= Seq::new(n, |i: int| range_clause(col, start + i * 2)));
}

/// A collection under prefixes deletes what the scan did not see, and only there: rows of files and
/// directories, and the full-text rows of the same.
pub proof fn a_scoped_collection_deletes_what_was_not_seen(
    g: ScopedGc,
    prefixes: Seq<Seq<char>>,
    scan_gen: i64,
)
    requires
        collects_under(g, prefixes, scan_gen),
    ensures
        g.files@ == "DELETE FROM files WHERE seen_scan != ?1 AND ("@ + range_predicate(
            prefixes.len(),
            2,
            "path"@,
        ) + ")"@,
        g.dirs@ == "DELETE FROM dirs WHERE seen_scan != ?1 AND ("@ + range_predicate(
            prefixes.len(),
            2,
            "path"@,
        ) + ")"@,
        g.files_fts@
            == "DELETE FROM files_fts WHERE rowid IN (SELECT id FROM files WHERE seen_scan != ?1 AND ("@
            + range_predicate(prefixes.len(), 2, "path"@) + "))"@,
        g.dirs_fts@
            == "DELETE FROM dirs_fts WHERE rowid IN (SELECT id FROM dirs WHERE seen_scan != ?1 AND ("@
            + range_predicate(prefixes.len(), 2, "path"@) + "))"@,
        g.binds@.len() == 1 + 2 * prefixes.len(),
        g.binds@[0]@ == text::signed_decimal(scan_gen as int),
{
    lemma_bounds_len(prefixes);
    assert(text::views(g.binds@).len() == g.binds@.len());
    assert(text::views(g.binds@)[0] == g.binds@[0]@);
    reveal_strlit("DELETE FROM ");
    reveal_strlit("files");
    reveal_strlit("dirs");
    reveal_strlit(" WHERE seen_scan != ?1 AND (");
    reveal_strlit("_fts WHERE rowid IN (SELECT id FROM ");
    let a = "DELETE FROM "@ + "files"@ + " WHERE seen_scan != ?1 AND ("@;
    let b = "DELETE FROM "@ + "dirs"@ + " WHERE seen_scan != ?1 AND ("@;
    let c = "DELETE FROM "@ + "files"@ + "_fts WHERE rowid IN (SELECT id FROM "@ + "files"@
        + " WHERE seen_scan != ?1 AND ("@;
    let d = "DELETE FROM "@ + "dirs"@ + "_fts WHERE rowid IN (SELECT id FROM "@ + "dirs"@
        + " WHERE seen_scan != ?1 AND ("@;
    assert(a =~= "DELETE FROM files WHERE seen_scan != ?1 AND ("@) by {
        reveal_strlit("DELETE FROM files WHERE seen_scan != ?1 AND (");
    }
    assert(b =~= "DELETE FROM dirs WHERE seen_scan != ?1 AND ("@) by {
        reveal_strlit("DELETE FROM dirs WHERE seen_scan != ?1 AND (");
    }
    assert(c
        =~= "DELETE FROM files_fts WHERE rowid IN (SELECT id FROM files WHERE seen_scan != ?1 AND ("@)
        by {
        reveal_strlit(
            "DELETE FROM files_fts WHERE rowid IN (SELECT id FROM files WHERE seen_scan != ?1 AND (",
        );
    }
    assert(d
        =~= "DELETE FROM dirs_fts WHERE rowid IN (SELECT id FROM dirs WHERE seen_scan != ?1 AND ("@)
        by {
        reveal_strlit(
            "DELETE FROM dirs_fts WHERE rowid IN (SELECT id FROM dirs WHERE seen_scan != ?1 AND (",
        );
    }
}

/// A full collection deletes everything that the scan did not see.
pub proof fn a_full_collection_deletes_what_was_not_seen(g: ScopedGc, scan_gen: i64)
    requires
        collects_all(g, scan_gen),
    ensures
        g.files@ == "DELETE FROM files WHERE seen_scan != ?1"@,
        g.dirs@ == "DELETE FROM dirs WHERE seen_scan != ?1"@,
        g.files_fts@
            == "DELETE FROM files_fts WHERE rowid IN (SELECT id FROM files WHERE seen_scan != ?1)"@,
        g.dirs_fts@
            == "DELETE FROM dirs_fts WHERE rowid IN (SELECT id FROM dirs WHERE seen_scan != ?1)"@,
        g.binds@.len() == 1,
        g.binds@[0]@ == text::signed_decimal(scan_gen as int),
{
    assert(text::views(g.binds@).len() == g.binds@.len());
    assert(text::views(g.binds@)[0] == g.binds@[0]@);
}

/// The vectors that go are those of rows that the scan did not see and that have one, in the table
/// of the kind; under prefixes, only there.
pub proof fn doomed_vectors_are_those_of_unseen_rows(
    all: Statement,
    some: Statement,
    kind: ResultKind,
    prefixes: Seq<Seq<char>>,
    scan_gen: i64,
)
    requires
        lists_unseen(all, kind, scan_gen),
        lists_unseen_under(some, kind, prefixes, scan_gen),
    ensures
        kind == ResultKind::File ==> {
            &&& all.sql@ == "SELECT vec_row FROM files WHERE seen_scan != ?1 AND vec_row != ?2"@
            &&& some.sql@
                == "SELECT vec_row FROM files WHERE seen_scan != ?1 AND vec_row != ?2 AND ("@
                + range_predicate(prefixes.len(), 3, "path"@) + ")"@
        },
        kind == ResultKind::Dir ==> {
            &&& all.sql@ == "SELECT vec_row FROM dirs WHERE seen_scan != ?1 AND vec_row != ?2"@
            &&& some.sql@ == "SELECT vec_row FROM dirs WHERE seen_scan != ?1 AND vec_row != ?2 AND ("@
                + range_predicate(prefixes.len(), 3, "path"@) + ")"@
        },
        all.binds@.len() == 2,
        all.binds@[0]@ == text::signed_decimal(scan_gen as int),
        all.binds@[1]@ == text::signed_decimal(-1),
        some.binds@.len() == 2 + 2 * prefixes.len(),
        some.binds@[0]@ == text::signed_decimal(scan_gen as int),
        some.binds@[1]@ == text::signed_decimal(-1),
{
    lemma_bounds_len(prefixes);
    assert(text::views(all.binds@).len() == all.binds@.len());
    assert(text::views(all.binds@)[0] == all.binds@[0]@);
    assert(text::views(all.binds@)[1] == all.binds@[1]@);
    assert(text::views(some.binds@).len() == some.binds@.len());
    assert(text::views(some.binds@)[0] == some.binds@[0]@);
    assert(text::views(some.binds@)[1] == some.binds@[1]@);
    reveal_strlit("SELECT vec_row FROM ");
    reveal_strlit("files");
    reveal_strlit("dirs");
    reveal_strlit(" WHERE seen_scan != ?1 AND vec_row != ?2");
    reveal_strlit(" WHERE seen_scan != ?1 AND vec_row != ?2 AND (");
    let a = "SELECT vec_row FROM "@ + table_name(kind) + " WHERE seen_scan != ?1 AND vec_row != ?2"@;
    let b = "SELECT vec_row FROM "@ + table_name(kind)
        + " WHERE seen_scan != ?1 AND vec_row != ?2 AND ("@;
    if kind == ResultKind::File {
        assert(a =~= "SELECT vec_row FROM files WHERE seen_scan != ?1 AND vec_row != ?2"@) by {
            reveal_strlit("SELECT vec_row FROM files WHERE seen_scan != ?1 AND vec_row != ?2");
        }
        assert(b =~= "SELECT vec_row FROM files WHERE seen_scan != ?1 AND vec_row != ?2 AND ("@) by {
            reveal_strlit("SELECT vec_row FROM files WHERE seen_scan != ?1 AND vec_row != ?2 AND (");
        }
    } else {
        assert(a =~= "SELECT vec_row FROM dirs WHERE seen_scan != ?1 AND vec_row != ?2"@) by {
            reveal_strlit("SELECT vec_row FROM dirs WHERE seen_scan != ?1 AND vec_row != ?2");
        }
        assert(b =~= "SELECT vec_row FROM dirs WHERE seen_scan != ?1 AND vec_row != ?2 AND ("@) by {
            reveal_strlit("SELECT vec_row FROM dirs WHERE seen_scan != ?1 AND vec_row != ?2 AND (");
        }
    }
}

/// A scope allows exactly the rows that were found, and the rows of a kind are found in its own
/// table.
pub proof fn exactly_the_found_rows_are_allowed(rows: usize, found: Vec<i64>, r: Vec<bool>, i: int)
    requires
        call_ensures(allow_rows, (rows, &found), r),
        0 <= i < rows,
        i <= i64::MAX,
    ensures
        r@.len() == rows,
        r@[i] <==> found@.contains(i as i64),
{
}

/// The rows within a scope: those of the kind's own table that hold a vector and lie at or below
/// the directory.
pub proof fn rows_in_scope_are_asked_for(f: String, d: String)
    requires
        call_ensures(scope_rows, (ResultKind::File,), f),
        call_ensures(scope_rows, (ResultKind::Dir,), d),
    ensures
        f@ == "SELECT vec_row FROM files WHERE vec_row != "@ + text::signed_decimal(
            db::NO_VEC as int,
        ) + " AND ((path >= ?1 AND path < ?2) OR path = ?3)"@,
        d@ == "SELECT vec_row FROM dirs WHERE vec_row != "@ + text::signed_decimal(
            db::NO_VEC as int,
        ) + " AND ((path >= ?1 AND path < ?2) OR path = ?3)"@,
{
    reveal_strlit("SELECT vec_row FROM ");
    reveal_strlit(" WHERE vec_row != ");
    reveal_strlit("files");
    reveal_strlit("dirs");
    reveal_strlit("SELECT vec_row FROM files WHERE vec_row != ");
    reveal_strlit("SELECT vec_row FROM dirs WHERE vec_row != ");
    assert("SELECT vec_row FROM "@ + "files"@ + " WHERE vec_row != "@
        =~= "SELECT vec_row FROM files WHERE vec_row != "@);
    assert("SELECT vec_row FROM "@ + "dirs"@ + " WHERE vec_row != "@
        =~= "SELECT vec_row FROM dirs WHERE vec_row != "@);
}

/// What is shown of a result, and what a reranker reads of it, is asked for by id, in the table of
/// its kind, one parameter to each.
pub proof fn results_are_asked_for_by_id(n: usize, a: String, b: String, c: String, d: String)
    requires
        call_ensures(meta_sql, (ResultKind::File, n), a),
        call_ensures(meta_sql, (ResultKind::Dir, n), b),
        call_ensures(rerank_sql, (ResultKind::File, n), c),
        call_ensures(rerank_sql, (ResultKind::Dir, n), d),
    ensures
        a@ == "SELECT id, path, snippet FROM files WHERE id IN ("@ + question_marks(n as nat) + ")"@,
        b@ == "SELECT id, path, file_count FROM dirs WHERE id IN ("@ + question_marks(n as nat)
            + ")"@,
        c@ == "SELECT rowid, name, body FROM files_fts WHERE rowid IN ("@ + question_marks(n as nat)
            + ")"@,
        d@ == "SELECT id, path, '' FROM dirs WHERE id IN ("@ + question_marks(n as nat) + ")"@,
{
}

/// The statements of the index, word for word.
pub proof fn the_statements_are_these()
    ensures
        GET_META@ == "SELECT v FROM meta WHERE k = ?1"@,
        SET_META@
            == "INSERT INTO meta(k, v) VALUES (?1, ?2) ON CONFLICT(k) DO UPDATE SET v = excluded.v"@,
        FILE_STATS@
            == "SELECT id, path, mtime_ns, size, content_hash, vec_row FROM files WHERE path >= ?1 AND path < ?2"@,
        TOUCH_FILE@ == "UPDATE files SET seen_scan = ?1 WHERE id = ?2"@,
        UPDATE_FILE@
            == "UPDATE files SET mtime_ns=?1, size=?2, content_hash=?3, extract_kind=?4, snippet=?5, seen_scan=?6 WHERE id=?7"@,
        INSERT_FILE@
            == "INSERT INTO files (path, mtime_ns, size, content_hash, extract_kind, snippet, seen_scan) VALUES (?1,?2,?3,?4,?5,?6,?7)"@,
        SET_FILE_VECTOR@ == "UPDATE files SET vec_row = ?1 WHERE id = ?2"@,
        UPSERT_DIR@
            == "INSERT INTO dirs(path, seen_scan) VALUES (?1, ?2) ON CONFLICT(path) DO UPDATE SET seen_scan = excluded.seen_scan"@,
        DELETE_FILE_TEXT@ == "DELETE FROM files_fts WHERE rowid = ?1"@,
        INSERT_FILE_TEXT@ == "INSERT INTO files_fts(rowid, path, name, body) VALUES (?1,?2,?3,?4)"@,
        DELETE_DIR_TEXT@ == "DELETE FROM dirs_fts WHERE rowid = ?1"@,
        INSERT_DIR_TEXT@ == "INSERT INTO dirs_fts(rowid, path, name) VALUES (?1,?2,?3)"@,
        TEXT_ORPHANS@
            == "SELECT COUNT(*) FROM files_fts WHERE rowid NOT IN (SELECT id FROM files)"@,
        TEXT_MISSING@
            == "SELECT COUNT(*) FROM files WHERE id NOT IN (SELECT rowid FROM files_fts)"@,
        CANDIDATES == 200,
{
}

} // verus!
