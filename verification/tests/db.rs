use rusqlite::{params_from_iter, Connection, OptionalExtension};
use wom::db::{
    dir_prefix_range, meta_i64, migration, next_scan_gen, path_str, prefix_range, root_gen_key,
    root_last_scan_key, Migration, NO_VEC, SCHEMA_VERSION,
};
use wom::fusion::ResultKind;
use wom::search::fts_query;
use wom::sql;

fn open() -> Connection {
    let conn = Connection::open_in_memory().unwrap();
    let tables: i64 = conn
        .query_row(
            "SELECT COUNT(*) FROM sqlite_master WHERE type='table' AND name='meta'",
            [],
            |r| r.get(0),
        )
        .unwrap();
    assert_eq!(migration(tables, "", &None), Migration::Create);
    conn.execute_batch(sql::SCHEMA).unwrap();
    set_meta(&conn, "schema_version", &SCHEMA_VERSION.to_string());
    set_meta(&conn, "scan_gen", "0");
    conn
}

fn set_meta(conn: &Connection, k: &str, v: &str) {
    conn.execute(sql::SET_META, [k, v]).unwrap();
}

fn get_meta(conn: &Connection, k: &str) -> Option<String> {
    conn.query_row(sql::GET_META, [k], |r| r.get(0)).optional().unwrap()
}

fn put_fts(conn: &Connection, id: i64, path: &str, name: &str, body: &str) {
    conn.execute(sql::DELETE_FILE_TEXT, [id]).unwrap();
    conn.execute(sql::INSERT_FILE_TEXT, (id, path, name, body)).unwrap();
}

fn insert_file(conn: &Connection, path: &str, scan_gen: i64, body: &str) -> i64 {
    conn.execute(
        "INSERT INTO files(path, mtime_ns, size, seen_scan) VALUES (?1, 1, 1, ?2)",
        (path, scan_gen),
    )
    .unwrap();
    let id = conn.last_insert_rowid();
    let name = wom::path::file_name(path).unwrap_or_default();
    put_fts(conn, id, path, &name, body);
    id
}

fn count_files(conn: &Connection) -> i64 {
    conn.query_row("SELECT COUNT(*) FROM files", [], |r| r.get(0)).unwrap()
}

fn paths(conn: &Connection) -> Vec<String> {
    let mut st = conn.prepare("SELECT path FROM files ORDER BY path").unwrap();
    let rows = st.query_map([], |r| r.get::<_, String>(0)).unwrap();
    rows.map(|r| r.unwrap()).collect()
}

fn fts_search(conn: &Connection, q: &str) -> Vec<String> {
    let mut st = conn
        .prepare("SELECT path FROM files_fts WHERE files_fts MATCH ?1 ORDER BY rank")
        .unwrap();
    let rows = st.query_map([q], |r| r.get::<_, String>(0)).unwrap();
    rows.map(|r| r.unwrap()).collect()
}

fn consistent(conn: &Connection) -> bool {
    let orphans: i64 = conn.query_row(sql::TEXT_ORPHANS, [], |r| r.get(0)).unwrap();
    let missing: i64 = conn.query_row(sql::TEXT_MISSING, [], |r| r.get(0)).unwrap();
    orphans == 0 && missing == 0
}

fn collect(conn: &Connection, g: &sql::ScopedGc) -> (usize, usize) {
    conn.execute(&g.files_fts, params_from_iter(g.binds.iter())).unwrap();
    conn.execute(&g.dirs_fts, params_from_iter(g.binds.iter())).unwrap();
    let f = conn.execute(&g.files, params_from_iter(g.binds.iter())).unwrap();
    let d = conn.execute(&g.dirs, params_from_iter(g.binds.iter())).unwrap();
    (f, d)
}

fn rows(conn: &Connection, q: &sql::Statement) -> Vec<i64> {
    let mut st = conn.prepare(&q.sql).unwrap();
    let it = st.query_map(params_from_iter(q.binds.iter()), |r| r.get::<_, i64>(0)).unwrap();
    it.map(|r| r.unwrap()).collect()
}

#[test]
fn migrate_creates_schema_and_version() {
    let db = open();
    assert_eq!(meta_i64(&get_meta(&db, "schema_version")), Some(SCHEMA_VERSION));
    assert_eq!(count_files(&db), 0);
    let fts: String = db
        .query_row("SELECT sql FROM sqlite_master WHERE name = 'files_fts'", [], |r| r.get(0))
        .unwrap();
    assert_eq!(migration(1, &fts, &get_meta(&db, "schema_version")), Migration::Ready);
}

#[test]
fn another_schema_is_refused_with_a_remedy() {
    let v = migration(1, "", &Some("1".to_string()));
    assert_eq!(v, Migration::Version { have: 1 });
    assert_eq!(
        v.refusal().unwrap(),
        "index schema is version 1, this build expects 2. Run `wom index --rebuild` to discard and rebuild the index."
    );
    assert_eq!(migration(1, "", &None), Migration::Version { have: 0 });
    let f = migration(1, "CREATE VIRTUAL TABLE files_fts USING fts5(content='files')", &None);
    assert_eq!(f, Migration::ForeignFullText);
    assert!(f.refusal().unwrap().contains("incompatible full-text schema"));
    assert!(Migration::Create.refusal().is_none());
    assert!(Migration::Ready.refusal().is_none());
}

#[test]
fn scan_gen_increments_monotonically() {
    let db = open();
    for want in 1..3i64 {
        let next = next_scan_gen(&get_meta(&db, "scan_gen"));
        assert_eq!(next, want);
        set_meta(&db, "scan_gen", &next.to_string());
    }
    assert_eq!(meta_i64(&get_meta(&db, "scan_gen")), Some(2));
    assert_eq!(next_scan_gen(&Some("nonsense".to_string())), 1);
}

#[test]
fn gc_removes_only_rows_from_older_generations() {
    let db = open();
    insert_file(&db, "/a/kept.txt", 7, "");
    insert_file(&db, "/a/stale.txt", 6, "");
    let (files, _dirs) = collect(&db, &sql::gc_all(7));
    assert_eq!(files, 1);
    assert_eq!(count_files(&db), 1);
    assert_eq!(paths(&db), vec!["/a/kept.txt"]);
}

#[test]
fn gc_keeps_the_full_text_index_consistent() {
    let db = open();
    insert_file(&db, "/a/kept.txt", 7, "sarajevo travel notes");
    insert_file(&db, "/a/stale.txt", 6, "sarajevo travel notes");

    assert_eq!(fts_search(&db, "sarajevo").len(), 2);
    collect(&db, &sql::gc_all(7));

    assert!(consistent(&db));
    assert_eq!(fts_search(&db, "sarajevo"), vec!["/a/kept.txt"]);
}

#[test]
fn put_fts_is_idempotent_and_updates_in_place() {
    let db = open();
    let id = insert_file(&db, "/a/n.txt", 1, "old text");
    put_fts(&db, id, "/a/n.txt", "n.txt", "new text");

    assert!(consistent(&db));
    assert!(fts_search(&db, "old").is_empty());
    assert_eq!(fts_search(&db, "new"), vec!["/a/n.txt"]);
}

#[test]
fn underscored_filenames_split_into_searchable_words() {
    let db = open();
    insert_file(&db, "/t/bosnia_croatia_trip_aug2024/x.pdf", 1, "");
    insert_file(&db, "/t/employment_docs/2024_W2.pdf", 1, "");
    insert_file(&db, "/t/bosnia_croatia_trip_aug2024/dubrovnik_to_sarajevo.pdf", 1, "");

    assert_eq!(fts_search(&db, "bosnia").len(), 2, "bosnia");
    assert_eq!(fts_search(&db, "sarajevo").len(), 1, "sarajevo");
    assert_eq!(fts_search(&db, "w2").len(), 1, "w2");
    assert_eq!(fts_search(&db, "employment").len(), 1, "employment");
}

#[test]
fn prefix_queries_work_for_incremental_typing() {
    let db = open();
    insert_file(&db, "/t/bosnia_trip/x.pdf", 1, "");
    assert_eq!(fts_search(&db, "bosn*").len(), 1);
    assert_eq!(fts_search(&db, &fts_query("bosn").unwrap()).len(), 1);
}

#[test]
fn no_input_is_a_full_text_syntax_error() {
    let db = open();
    insert_file(&db, "/t/bosnia_trip/x.pdf", 1, "");
    for input in ["C++", "a\"b", "NOT bosnia", "foo AND bar", "(x OR y)", "^start", "a*b", "col:x"] {
        fts_search(&db, &fts_query(input).expect(input));
    }
}

/// Mirror of the `path >= ?1 AND path < ?2` predicate the queries use, so the test checks
/// membership in the half-open range rather than one bound.
fn in_range(s: &str, range: &(String, String)) -> bool {
    s >= range.0.as_str() && s < range.1.as_str()
}

#[test]
fn prefix_range_bounds_a_directory_subtree() {
    let r = prefix_range("/home/n/projects/");
    assert!(in_range("/home/n/projects/a", &r));
    assert!(in_range("/home/n/projects/deep/nested/file.rs", &r));
    assert!(in_range("/home/n/projects/zzz", &r));

    // A sibling that merely shares the string prefix must be excluded. Note it falls below `lo`
    // rather than above `hi`, because '-' (0x2d) sorts before '/' (0x2f), which is exactly why the
    // trailing slash matters.
    assert!(!in_range("/home/n/projects-old/x", &r));
    assert!(!in_range("/home/n/Documents/a", &r));
    assert!(!in_range("/home/n/projectz/a", &r));
}

#[test]
fn prefix_range_handles_a_trailing_high_byte() {
    // 0xff cannot be incremented, so the bound is extended instead. The range must still contain
    // its own subtree.
    let p = "/tmp/\u{10ffff}/";
    let r = prefix_range(p);
    assert!(in_range(&format!("{p}child.txt"), &r));
}

#[test]
fn directory_ranges_ignore_trailing_slashes() {
    assert_eq!(dir_prefix_range("/a/b//"), ("/a/b/".to_string(), "/a/b0".to_string()));
    assert_eq!(dir_prefix_range("/"), ("/".to_string(), "0".to_string()));
    assert_eq!(path_str("/a/b"), "/a/b");
}

#[test]
fn file_stats_under_scopes_to_the_subtree() {
    let db = open();
    insert_file(&db, "/home/n/Documents/a.txt", 1, "");
    insert_file(&db, "/home/n/Downloads/b.txt", 1, "");
    let (lo, hi) = prefix_range("/home/n/Documents/");
    let mut st = db.prepare(sql::FILE_STATS).unwrap();
    let got: Vec<(String, i64)> = st
        .query_map([lo, hi], |r| Ok((r.get::<_, String>(1)?, r.get::<_, i64>(5)?)))
        .unwrap()
        .map(|r| r.unwrap())
        .collect();
    assert_eq!(got, vec![("/home/n/Documents/a.txt".to_string(), NO_VEC)]);
}

#[test]
fn scoped_gc_preserves_other_roots() {
    let db = open();
    insert_file(&db, "/a/kept.txt", 2, "");
    insert_file(&db, "/a/stale.txt", 1, "");
    insert_file(&db, "/b/untouched.txt", 1, "");
    let (f, _) = collect(&db, &sql::gc_under(&vec!["/a/".to_string()], 2).unwrap());
    assert_eq!(f, 1);
    assert_eq!(count_files(&db), 2);
    assert_eq!(paths(&db), vec!["/a/kept.txt", "/b/untouched.txt"]);
    assert!(consistent(&db));
}

#[test]
fn a_limited_scan_collects_only_where_it_walked() {
    let db = open();
    insert_file(&db, "/a/stale.txt", 1, "");
    insert_file(&db, "/a-old/x.txt", 1, "");
    insert_file(&db, "/b/x.txt", 1, "");
    let g = sql::collection(true, &vec!["/a/".to_string(), "/b/".to_string()], 2).unwrap();
    assert_eq!(collect(&db, &g), (2, 0));
    assert_eq!(paths(&db), vec!["/a-old/x.txt"]);
    assert!(sql::collection(true, &vec![], 2).is_none());
    let g = sql::collection(false, &vec![], 2).unwrap();
    assert_eq!(collect(&db, &g), (1, 0));
}

#[test]
fn scoped_vec_rows_only_cover_the_scanned_prefix() {
    let db = open();
    let a = insert_file(&db, "/a/x.txt", 1, "");
    let b = insert_file(&db, "/b/y.txt", 1, "");
    db.execute("UPDATE files SET vec_row = id WHERE id IN (?1, ?2)", [a, b]).unwrap();
    let q = sql::vec_rows_not_seen_under(ResultKind::File, &vec!["/a/".to_string()], 2).unwrap();
    assert_eq!(rows(&db, &q), vec![a]);
    assert_eq!(rows(&db, &sql::vec_rows_not_seen(ResultKind::File, 2)), vec![a, b]);
    assert!(sql::vec_rows_not_seen_under(ResultKind::Dir, &vec![], 2).is_none());
}

#[test]
fn root_gen_keys_round_trip() {
    let db = open();
    assert_eq!(meta_i64(&get_meta(&db, &root_gen_key("/a"))), None);
    set_meta(&db, &root_gen_key("/a"), "7");
    set_meta(&db, &root_last_scan_key("/a"), "123");
    assert_eq!(meta_i64(&get_meta(&db, &root_gen_key("/a"))), Some(7));
    assert_eq!(meta_i64(&get_meta(&db, "last_scan_at:/a")), Some(123));
}

fn limited_rows(conn: &Connection, q: &sql::Statement) -> Vec<i64> {
    let limit = sql::CANDIDATES as i64;
    let mut binds: Vec<&dyn rusqlite::ToSql> =
        q.binds.iter().map(|b| b as &dyn rusqlite::ToSql).collect();
    binds.push(&limit);
    let mut st = conn.prepare(&q.sql).unwrap();
    let it = st.query_map(binds.as_slice(), |r| r.get::<_, i64>(0)).unwrap();
    it.map(|r| r.unwrap()).collect()
}

#[test]
fn the_lexical_arm_searches_within_its_scope() {
    let db = open();
    let a = insert_file(&db, "/a/tax.txt", 1, "forms");
    insert_file(&db, "/b/tax.txt", 1, "forms");
    let all = sql::lexical_arm(ResultKind::File, "\"tax\"*", &vec![]);
    assert_eq!(limited_rows(&db, &all).len(), 2);
    let scoped = sql::lexical_arm(ResultKind::File, "\"tax\"*", &vec!["/a".to_string()]);
    assert_eq!(limited_rows(&db, &scoped), vec![a]);
}

#[test]
fn statements_over_many_ids_run() {
    let db = open();
    let a = insert_file(&db, "/a/x.txt", 1, "body text");
    let mut st = db.prepare(&sql::meta_sql(ResultKind::File, 2)).unwrap();
    let n = st.query_map([a, 99], |r| r.get::<_, i64>(0)).unwrap().count();
    assert_eq!(n, 1);
    let mut st = db.prepare(&sql::rerank_sql(ResultKind::File, 1)).unwrap();
    assert_eq!(st.query_map([a], |r| r.get::<_, i64>(0)).unwrap().count(), 1);
    db.prepare(&sql::rerank_sql(ResultKind::Dir, 3)).unwrap();
    db.prepare(&sql::meta_sql(ResultKind::Dir, 1)).unwrap();
    db.prepare(&sql::parents_sql(2)).unwrap();
    assert_eq!(sql::placeholders(3), "?,?,?");
    assert_eq!(sql::table_of(ResultKind::Dir), "dirs");
}

#[test]
fn a_scope_allows_only_its_own_rows() {
    let db = open();
    let a = insert_file(&db, "/a/x.txt", 1, "");
    let b = insert_file(&db, "/b/x.txt", 1, "");
    db.execute("UPDATE files SET vec_row = id", []).unwrap();
    let (lo, hi, no) = sql::scope_row_binds(ResultKind::File, "/a");
    let mut st = db.prepare(&sql::scope_rows(ResultKind::File)).unwrap();
    let found: Vec<i64> = st
        .query_map([lo, hi, no], |r| r.get::<_, i64>(0))
        .unwrap()
        .map(|r| r.unwrap())
        .collect();
    assert_eq!(found, vec![a]);
    let allow = sql::allow_rows(b as usize + 1, &found);
    assert!(allow[a as usize]);
    assert!(!allow[b as usize]);
    assert_eq!(allow.len(), b as usize + 1);
}

#[test]
fn a_limited_scan_dooms_only_its_own_vectors() {
    let db = open();
    let a = insert_file(&db, "/a/x.txt", 1, "one");
    let b = insert_file(&db, "/b/y.txt", 1, "two");
    for id in [a, b] {
        db.execute(sql::SET_FILE_VECTOR, [id, id]).unwrap();
    }
    let prefixes = vec!["/a/".to_string()];
    let limited = sql::doomed_vectors(ResultKind::File, true, &prefixes, 2).unwrap();
    assert_eq!(rows(&db, &limited), vec![a]);
    let all = sql::doomed_vectors(ResultKind::File, false, &prefixes, 2).unwrap();
    assert_eq!(rows(&db, &all), vec![a, b]);
    assert!(sql::doomed_vectors(ResultKind::File, true, &vec![], 2).is_none());
}

#[test]
fn prefix_range_is_exact_where_a_character_has_no_next_one() {
    let r = prefix_range("/tmp/\u{10ffff}");
    assert_eq!(r.1, "/tmp0");
    assert!(in_range("/tmp/\u{10ffff}", &r));
    assert!(in_range("/tmp/\u{10ffff}\u{10ffff}\u{10ffff}x", &r));
    assert!(!in_range("/tmp/\u{10fffe}", &r));
    // The surrogates are skipped.
    let r = prefix_range("/a\u{d7ff}");
    assert_eq!(r.1, "/a\u{e000}");
    assert!(in_range("/a\u{d7ff}\u{10ffff}", &r));
    assert!(!in_range("/a\u{e000}", &r));
    // Nothing comes after these; the bound is as far out as one more character reaches.
    assert_eq!(prefix_range("").1, "\u{10ffff}");
}
