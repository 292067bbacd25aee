use wom::config::{Config, Profile, Refresh, Root};
use wom::db::{FileStat, NO_VEC};
use wom::extract::{content_hash, embed_text, name_tokens, Extracted, Kind};
use wom::index::{
    is_due, links, prepare, profile_of, recall, settings_notice, short_root, to_embed, vector_rows,
    walk_roots, wanted_dirs, Due, RowChange, ScanOptions, ScanStats,
};
use wom::rollup::{dir_label, file_counts, is_answer, rollup_order, DirRow};
use wom::scan::{scan_plan, ScanStep};
use wom::walk::Found;

fn strings(v: &[&str]) -> Vec<String> {
    v.iter().map(|s| s.to_string()).collect()
}

fn roots(v: &[&str]) -> Vec<Root> {
    v.iter().map(|p| Root { path: p.to_string(), profile: Profile::Content }).collect()
}

fn opts(force: bool, embed: bool) -> ScanOptions {
    ScanOptions { force, embed, ..ScanOptions::default() }
}

fn found() -> Found {
    Found { path: "/r/docs/w2.txt".to_string(), size: 10, mtime_ns: 5 }
}

fn stat(hash: Option<Vec<u8>>, vec_row: i64) -> Option<FileStat> {
    Some(FileStat { id: 7, mtime_ns: 5, size: 10, content_hash: hash, vec_row })
}

fn extracted(body: &str) -> Extracted {
    Extracted { kind: Kind::Text, body: body.to_string(), snippet: body.to_string() }
}

fn hash_of(body: &str) -> Vec<u8> {
    let tokens = name_tokens("/r/docs/w2.txt", "/r");
    content_hash(&embed_text("/r/docs/w2.txt", "/r", &tokens, body))
}

#[test]
fn dir_rows_stop_at_the_root_and_do_not_climb_to_slash() {
    let dirs = strings(&["/home/n/Documents/tax/2024", "/home/n/Documents/notes"]);
    let mut got = wanted_dirs(&dirs, &strings(&["/home/n/Documents"]));
    got.sort();
    assert_eq!(
        got,
        vec![
            "/home/n/Documents",
            "/home/n/Documents/notes",
            "/home/n/Documents/tax",
            "/home/n/Documents/tax/2024",
        ],
        "ancestors above the root leaked into the index"
    );
}

#[test]
fn dir_parent_links_are_resolved() {
    let db = rusqlite::Connection::open_in_memory().unwrap();
    db.execute_batch(wom::sql::SCHEMA).unwrap();
    let want = wanted_dirs(&strings(&["/r/a/b"]), &strings(&["/r"]));
    let mut rows: Vec<(i64, String)> = Vec::new();
    for d in want {
        db.execute(wom::sql::UPSERT_DIR, (&d, 1)).unwrap();
        rows.push((db.last_insert_rowid(), d));
    }
    let id = |d: String| rows.iter().find(|r| r.1 == d).map(|r| r.0);
    for (row, parent) in links(&rows, &id) {
        db.execute("UPDATE dirs SET parent_id = ?1 WHERE id = ?2", [parent, row]).unwrap();
    }
    let parent_of_b: String = db
        .query_row(
            "SELECT p.path FROM dirs d JOIN dirs p ON p.id = d.parent_id WHERE d.path = '/r/a/b'",
            [],
            |r| r.get(0),
        )
        .unwrap();
    assert_eq!(parent_of_b, "/r/a");
}

#[test]
fn directories_outside_every_root_get_no_row() {
    assert!(wanted_dirs(&strings(&["/x/y"]), &strings(&["/r"])).is_empty());
    let mut got = wanted_dirs(&strings(&["/r/a", "/r/a", "/r/n/b"]), &strings(&["/r", "/r/n"]));
    got.sort();
    assert_eq!(got, vec!["/r", "/r/a", "/r/n", "/r/n/b"]);
}

#[test]
fn never_scanned_is_always_due() {
    for r in [
        Refresh::EveryRun,
        Refresh::Daily,
        Refresh::Weekly,
        Refresh::Manual,
    ] {
        assert_eq!(is_due(r, None, 1000), Due::Never, "{r:?}");
    }
}

#[test]
fn manual_refresh_is_never_due_once_scanned() {
    assert_eq!(is_due(Refresh::Manual, Some(0), i64::MAX / 2), Due::No);
}

#[test]
fn every_run_is_always_due_once_scanned() {
    assert_eq!(is_due(Refresh::EveryRun, Some(1000), 1000), Due::Elapsed);
}

#[test]
fn daily_and_weekly_respect_their_intervals() {
    let day = 24 * 60 * 60;
    assert_eq!(is_due(Refresh::Daily, Some(0), day - 1), Due::No);
    assert_eq!(is_due(Refresh::Daily, Some(0), day), Due::Elapsed);

    assert_eq!(is_due(Refresh::Weekly, Some(0), 6 * day), Due::No);
    assert_eq!(is_due(Refresh::Weekly, Some(0), 7 * day), Due::Elapsed);
}

#[test]
fn a_backwards_clock_does_not_force_a_scan() {
    // The last scan in the future, e.g. after a clock correction, counts as just now.
    assert_eq!(is_due(Refresh::Daily, Some(1_000_000), 1000), Due::No);
    assert_eq!(is_due(Refresh::EveryRun, Some(1_000_000), 1000), Due::Elapsed);
    assert_eq!(is_due(Refresh::Daily, Some(i64::MIN), i64::MAX), Due::Elapsed);
}

#[test]
fn nested_roots_are_walked_once() {
    let rs = roots(&["/a/b/c", "/a/b", "/x", "/a/bc"]);
    assert_eq!(walk_roots(&rs, &None).ok().unwrap(), vec![2, 1, 3]);
    assert_eq!(walk_roots(&rs, &Some("/a/b/c/".to_string())).ok().unwrap(), vec![0]);
}

#[test]
fn without_roots_there_is_nothing_to_walk() {
    let e = walk_roots(&roots(&[]), &None).err().unwrap();
    assert_eq!(e.message, "no roots configured. Run `wom init` first.");
    let e = walk_roots(&roots(&["/a"]), &Some("/b".to_string())).err().unwrap();
    assert_eq!(e.message, "no roots configured matching /b. Run `wom init` first.");
}

#[test]
fn an_unchanged_file_is_not_opened() {
    let p = recall(&found(), "/r", &stat(None, 7), &opts(false, true)).unwrap();
    assert!(p.unchanged && !p.needs_embed);
    assert_eq!(p.dir, "/r/docs");
    assert_eq!(p.change(), RowChange::Touch { id: 7 });
}

#[test]
fn what_changed_is_opened() {
    let unseen = &None;
    assert!(recall(&found(), "/r", unseen, &opts(false, false)).is_none());
    assert!(recall(&found(), "/r", &stat(None, 7), &opts(true, true)).is_none());
    assert!(recall(&found(), "/r", &stat(None, NO_VEC), &opts(false, true)).is_none());
    assert!(recall(&found(), "/r", &stat(None, NO_VEC), &opts(false, false)).is_some());
    let touched = Found { mtime_ns: 6, ..found() };
    assert!(recall(&touched, "/r", &stat(None, 7), &opts(false, true)).is_none());
    let grown = Found { size: 11, ..found() };
    assert!(recall(&grown, "/r", &stat(None, 7), &opts(false, true)).is_none());
}

#[test]
fn a_touched_file_with_the_same_text_is_not_embedded_again() {
    let prev = stat(Some(hash_of("wages")), 7);
    let p = prepare(&found(), "/r", &prev, extracted("wages"), &opts(false, true));
    assert!(!p.needs_embed);
    assert!(p.embed_text.is_empty());
    assert_eq!(p.hash, hash_of("wages"));
    assert_eq!(p.change(), RowChange::Update { id: 7 });
    let p = prepare(&found(), "/r", &prev, extracted("other"), &opts(false, true));
    assert!(p.needs_embed);
    assert_eq!(p.name_tokens, "docs w2 txt");
    assert_eq!(p.embed_text, "docs/w2.txt\ndocs w2 txt\n\nother");
}

#[test]
fn force_and_missing_vectors_embed_again() {
    let same = Some(hash_of("wages"));
    let p = prepare(&found(), "/r", &stat(same.clone(), 7), extracted("wages"), &opts(true, true));
    assert!(p.needs_embed);
    let p = prepare(&found(), "/r", &stat(same.clone(), NO_VEC), extracted("wages"), &opts(false, true));
    assert!(p.needs_embed);
    let p = prepare(&found(), "/r", &None, extracted("wages"), &opts(true, false));
    assert!(!p.needs_embed);
    assert_eq!(p.change(), RowChange::Insert);
}

#[test]
fn the_deepest_root_gives_the_profile() {
    let cfg = Config {
        roots: vec![
            Root { path: "/r".to_string(), profile: Profile::Code },
            Root { path: "/r/n".to_string(), profile: Profile::NameOnly },
        ],
        ..Config::default()
    };
    assert_eq!(profile_of(&cfg, "/r/n/x", Profile::Code), Profile::NameOnly);
    assert_eq!(profile_of(&cfg, "/elsewhere", Profile::Content), Profile::Content);
}

#[test]
fn batches_count_and_embed_what_they_should() {
    let a = prepare(&found(), "/r", &None, extracted("a"), &opts(false, true));
    let b = recall(&found(), "/r", &stat(None, 7), &opts(false, true)).unwrap();
    let c = prepare(&found(), "/r", &stat(None, 7), extracted("c"), &opts(false, true));
    let batch = vec![a, b, c];
    let todo = to_embed(&batch);
    assert_eq!(todo, vec![0, 2]);
    assert_eq!(vector_rows(&vec![11, 12, 13], &todo, 2), vec![11, 13]);
    assert_eq!(vector_rows(&vec![11, 12, 13], &todo, 1), vec![11]);
    let mut s = ScanStats::default();
    s.count_all(&batch);
    assert_eq!((s.seen, s.added, s.updated, s.unchanged), (3, 1, 1, 1));
    s.count(RowChange::Touch { id: 7 });
    assert_eq!((s.seen, s.unchanged), (4, 2));
    assert_eq!((s.embedded, s.deleted_files, s.deleted_dirs), (0, 0, 0));
}

#[test]
fn counts_roll_up_to_the_root() {
    let row = |id, path: &str, parent| DirRow { id, path: path.to_string(), parent };
    let rows = vec![
        row(1, "/", None),
        row(2, "/r", Some(1)),
        row(3, "/r/a", Some(2)),
        row(4, "/r/a/b", Some(3)),
        row(5, "/r/c", Some(2)),
    ];
    let order = rollup_order(&rows);
    assert_eq!(order, vec![3, 2, 4, 1, 0]);
    let counts = file_counts(&rows, &vec![0, 1, 2, 4, 8], &order).unwrap();
    assert_eq!(counts, vec![15, 15, 6, 4, 8]);
    assert!(file_counts(&rows, &vec![0, 0, usize::MAX, 1, 0], &order).is_none());
}

#[test]
fn directories_are_called_by_their_words() {
    let rs = strings(&["/home/n/Documents"]);
    assert_eq!(dir_label("/home/n/Documents/employment_docs", &rs), "employment docs");
    assert_eq!(dir_label("/home/n/Documents", &rs), "Documents");
    assert_eq!(dir_label("/", &strings(&["/"])), "/");
    assert!(!is_answer("/home/n/Documents/", &rs));
    assert!(is_answer("/home/n/Documents/x", &rs));
}

#[test]
fn a_scan_takes_its_steps_in_order() {
    assert_eq!(
        scan_plan(false, true, true, true, 1),
        vec![
            ScanStep::DataDir,
            ScanStep::Lock,
            ScanStep::OpenIndex,
            ScanStep::OpenVectors,
            ScanStep::Generation,
            ScanStep::Walk { root: 0 },
            ScanStep::Directories,
            ScanStep::ClearFileVectors,
            ScanStep::ClearDirVectors,
            ScanStep::DeleteUnseen,
            ScanStep::Flush,
            ScanStep::Rollup,
            ScanStep::Stamp,
        ]
    );
    let plain = scan_plan(false, false, false, false, 0);
    assert!(!plain.contains(&ScanStep::Rollup));
    assert!(plain.contains(&ScanStep::DeleteUnseen));
}

#[test]
fn progress_lines_and_notices() {
    assert_eq!(short_root("/home/n/Documents"), "Documents");
    assert_eq!(short_root("/"), "/");
    assert!(settings_notice(false, true).unwrap().contains("extract.media is off"));
    assert!(settings_notice(true, true).is_none());
    assert!(settings_notice(false, false).is_none());
}

#[test]
fn a_dry_run_only_reads_and_counts() {
    assert_eq!(
        scan_plan(true, true, true, true, 2),
        vec![ScanStep::ReadIndex, ScanStep::Count { root: 0 }, ScanStep::Count { root: 1 }]
    );
    assert_eq!(scan_plan(true, false, false, false, 1), vec![ScanStep::Count { root: 0 }]);
}

#[test]
fn an_unchanged_tree_is_counted_and_nothing_else() {
    let p = prepare(&found(), "/r", &None, extracted("wages"), &opts(false, true));
    // The row that the first scan leaves, with its vector.
    let row = Some(FileStat {
        id: 3,
        mtime_ns: p.mtime_ns,
        size: p.size as i64,
        content_hash: Some(p.hash),
        vec_row: 3,
    });
    let again = recall(&found(), "/r", &row, &opts(false, true)).unwrap();
    assert_eq!(again.change(), RowChange::Touch { id: 3 });
    let batch = vec![again];
    assert!(to_embed(&batch).is_empty());
    let mut s = ScanStats::default();
    s.count_all(&batch);
    assert_eq!((s.seen, s.added, s.updated, s.unchanged), (1, 0, 0, 1));
}

#[test]
fn a_nested_root_is_dropped_however_the_outer_one_is_spelled() {
    let rs = roots(&["/a/b/c", "/a//////b", "/a/./b/"]);
    assert_eq!(walk_roots(&rs, &None).ok().unwrap(), vec![2]);
}
