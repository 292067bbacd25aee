use rusqlite::{params_from_iter, Connection, ToSql};
use wom::fusion::{fuse, tally, walk_arms, Arm, Fused, Key, ResultKind, Tally};
use wom::ranking::{
    best_files, credit_parents, dir_cap, pool_size, rank_dirs, rerank_pool, select, Credit, Parent,
};
use wom::retrieval::{results, Found, Gathered, Ranking};
use wom::search::{
    dense_arm, documents, fts_query, ids_of_kind, rerank_text, store_gap, strip_scores, tilde, Meta,
    Mode, Request, SearchResult,
};
use wom::sql;
use wom::topk::Hit;
use wom::vectors::VectorStore;

#[test]
fn fts_query_quotes_words_and_prefixes_the_last() {
    assert_eq!(
        fts_query("employment documents").unwrap(),
        "\"employment\" OR \"documents\"*"
    );
}

#[test]
fn fts_query_neutralises_fts5_syntax() {
    // Each of these is a syntax error if passed to MATCH unescaped.
    for input in ["C++", "a\"b", "NOT bosnia", "foo AND bar", "(x OR y)", "^start", "a*b"] {
        let q = fts_query(input).expect(input);
        // Every emitted term is a quoted literal, so no operator survives except the ones we add
        // ourselves.
        let stripped = q.replace(" OR ", " ").replace('*', "");
        for term in stripped.split_whitespace() {
            assert!(
                term.starts_with('"') && term.ends_with('"'),
                "unquoted term {term:?} from input {input:?}"
            );
        }
    }
}

#[test]
fn fts_query_on_punctuation_only_input_is_none() {
    assert!(fts_query("+++").is_none());
    assert!(fts_query("   ").is_none());
    assert!(fts_query("").is_none());
}

#[test]
fn a_last_word_of_one_wide_character_is_not_prefixed() {
    assert_eq!(fts_query("\u{e9}").unwrap(), "\"\u{e9}\"");
    assert_eq!(fts_query("tax \u{7a0e}").unwrap(), "\"tax\" OR \"\u{7a0e}\"");
    assert_eq!(fts_query("\u{e9}t").unwrap(), "\"\u{e9}t\"*");
}

#[test]
fn fts_query_does_not_prefix_a_single_character_last_word() {
    // `"a"*` would match a large fraction of the corpus.
    let q = fts_query("bosnia a").unwrap();
    assert!(!q.contains("\"a\"*"), "got {q}");
}

/// A file-keyed arm.
fn farm(ids: &[i64]) -> Vec<Key> {
    ids.iter().map(|i| (ResultKind::File, *i)).collect()
}

/// The reciprocal-rank score of each tally, as a caller computes it.
fn fused(arms: &[Arm]) -> Vec<Fused> {
    let tallies = tally(&walk_arms(arms));
    let scores = sums(&tallies);
    fuse(&tallies, &scores)
}

#[test]
fn fuse_prefers_agreement_between_the_two_arms() {
    // 7 is ranked mid-list by both arms; 1 and 2 are top of only one each.
    let dense = farm(&[1, 7, 3]);
    let lexical = farm(&[2, 7, 4]);
    let out = fused(&[Arm::new(&dense), Arm::new(&lexical)]);
    assert_eq!(out[0].key, (ResultKind::File, 7), "agreed-on result should win");
}

#[test]
fn fuse_ranks_by_position_not_list_length() {
    let a = farm(&[10]);
    let b = farm(&[20, 10]);
    let out = fused(&[Arm::new(&a), Arm::new(&b)]);
    // 10 appears at rank 1 and rank 2; 20 only at rank 1.
    assert_eq!(out[0].key, (ResultKind::File, 10));
}

#[test]
fn fuse_is_deterministic_and_handles_empty_lists() {
    let empty: Vec<Key> = Vec::new();
    assert!(fused(&[Arm::new(&empty), Arm::new(&empty)]).is_empty());

    let a = farm(&[1, 2, 3]);
    let b = farm(&[3, 2, 1]);
    let run = || -> Vec<(Key, u32)> {
        fused(&[Arm::new(&a), Arm::new(&b)]).iter().map(|f| (f.key, f.score)).collect()
    };
    assert_eq!(run(), run());
}

#[test]
fn fuse_with_a_single_arm_preserves_its_order() {
    let only = farm(&[5, 9, 1]);
    let out: Vec<i64> = fused(&[Arm::new(&only)]).iter().map(|f| f.key.1).collect();
    assert_eq!(out, vec![5, 9, 1]);
}

#[test]
fn fuse_mixes_files_and_directories_without_id_collisions() {
    // File 1 and directory 1 are different things despite sharing an id.
    let files = vec![(ResultKind::File, 1i64)];
    let dirs = vec![(ResultKind::Dir, 1i64)];
    let out = fused(&[Arm::new(&files), Arm::new(&dirs)]);
    assert_eq!(out.len(), 2, "file and dir with the same id were merged");
}

#[test]
fn arm_weight_scales_its_influence() {
    // A weak arm alone must not outrank a strong arm's top hit.
    let strong = farm(&[1]);
    let weak = vec![(ResultKind::Dir, 2i64)];
    let out = fused(&[
        Arm::new(&strong),
        Arm { ranked: &weak, weight: 0.6f32.to_bits() },
    ]);
    assert_eq!(out[0].key, (ResultKind::File, 1));
    assert!(f32::from_bits(out[0].score) > f32::from_bits(out[1].score));
}

#[test]
fn display_tags_directories_per_the_spec() {
    let d = SearchResult {
        kind: ResultKind::Dir,
        path: "/h/employment_docs".to_string(),
        score: 1.0f32.to_bits(),
        snippet: String::new(),
        dense_rank: None,
        cosine: None,
        lexical_rank: None,
        rerank: None,
        file_count: None,
    };
    assert_eq!(d.display(), "directory:/h/employment_docs");

    let f = SearchResult {
        kind: ResultKind::File,
        path: "/h/2024_W2.pdf".to_string(),
        ..d
    };
    assert_eq!(f.display(), "/h/2024_W2.pdf");
}

#[test]
fn tilde_abbreviates_the_home_directory_only_as_a_prefix() {
    let home = Some("/home/tester".to_string());
    assert_eq!(tilde("/home/tester/Documents/a", &home), "~/Documents/a");
    assert_eq!(tilde("/etc/passwd", &home), "/etc/passwd");
    assert_eq!(tilde("/etc/passwd", &Some(String::new())), "/etc/passwd");
    assert_eq!(tilde("/etc/passwd", &None), "/etc/passwd");
}

#[test]
fn store_gap_flags_only_missing_and_empty_stores() {
    assert!(store_gap(false, None).is_some(), "a missing store must be flagged");

    let mut map = vec![0u8; 64 + 8192 * 8];
    let mut store = VectorStore::create(&mut map, 4, "test-model");
    let rows = |map: &[u8], model: &str| VectorStore::open(map, 4, model).ok().map(|s| s.high_water());
    let gap = store_gap(true, rows(&map, "test-model")).unwrap();
    assert!(gap.contains("empty"), "a fresh store is empty, got: {gap}");

    let v = wom::vectors::Quantised { components: vec![127, 0, 0, 0], scale: (1.0f32 / 127.0).to_bits() };
    store.put(&mut map, 0, &Some(v));
    assert!(
        store_gap(true, rows(&map, "test-model")).is_none(),
        "a populated store must not be flagged"
    );

    // A model mismatch is the dense arm's loud error, not this check's concern.
    assert!(store_gap(true, rows(&map, "other-model")).is_none());
}

// ------------------------------------------------------------ a whole search

fn open() -> Connection {
    let conn = Connection::open_in_memory().unwrap();
    conn.execute_batch(sql::SCHEMA).unwrap();
    conn
}

fn insert_file(conn: &Connection, path: &str, body: &str) -> i64 {
    conn.execute(
        "INSERT INTO files(path, mtime_ns, size, seen_scan) VALUES (?1, 1, 1, 1)",
        [path],
    )
    .unwrap();
    let id = conn.last_insert_rowid();
    let name = wom::path::file_name(path).unwrap_or_default();
    conn.execute(sql::INSERT_FILE_TEXT, (id, path, name, body)).unwrap();
    id
}

fn insert_dir(conn: &Connection, path: &str) -> i64 {
    conn.execute("INSERT INTO dirs(path) VALUES (?1)", [path]).unwrap();
    let id = conn.last_insert_rowid();
    let name = wom::path::file_name(path).unwrap_or_default();
    conn.execute(sql::INSERT_DIR_TEXT, (id, path, name)).unwrap();
    id
}

fn hybrid_req(text: &str) -> Request {
    Request {
        text: text.to_string(),
        scope: Vec::new(),
        limit: 10,
        mode: Mode::Hybrid,
        min_similarity: 0,
    }
}

fn lexical(conn: &Connection, kind: ResultKind, req: &Request) -> Vec<i64> {
    if !req.plan(false).lexical {
        return Vec::new();
    }
    let q = sql::lexical_arm(kind, &fts_query(&req.text).unwrap(), &req.scope);
    let mut st = conn.prepare(&q.sql).unwrap();
    let limit = sql::CANDIDATES as i64;
    let mut binds: Vec<&dyn ToSql> = q.binds.iter().map(|b| b as &dyn ToSql).collect();
    binds.push(&limit);
    let ids: Vec<i64> = st
        .query_map(binds.as_slice(), |r| r.get::<_, i64>(0))
        .unwrap()
        .map(|r| r.unwrap())
        .collect();
    ids
}

fn sums(tallies: &[Tally]) -> Vec<u32> {
    tallies
        .iter()
        .map(|t| {
            t.terms
                .iter()
                .map(|x| f32::from_bits(x.weight) / (60.0 + x.rank as f32))
                .sum::<f32>()
                .to_bits()
        })
        .collect()
}

fn judged_texts(conn: &Connection, pool: &Vec<Key>) -> Vec<(Key, String)> {
    let mut texts: Vec<(Key, String)> = Vec::new();
    for kind in [ResultKind::File, ResultKind::Dir] {
        let ids = ids_of_kind(pool, kind);
        if ids.is_empty() {
            continue;
        }
        let mut st = conn.prepare(&sql::rerank_sql(kind, ids.len())).unwrap();
        let got: Vec<(i64, String, Option<String>)> = st
            .query_map(params_from_iter(ids.iter()), |r| Ok((r.get(0)?, r.get(1)?, r.get(2)?)))
            .unwrap()
            .map(|r| r.unwrap())
            .collect();
        for (id, name, body) in got {
            texts.push(((kind, id), rerank_text(kind, &name, &body)));
        }
    }
    texts
}

/// A search without a model, reranked by whether a document contains `hot`.
fn search(conn: &Connection, hot: &str, req: &Request) -> Vec<SearchResult> {
    let found = Found {
        file_hits: Vec::new(),
        dir_hits: Vec::new(),
        file_rows: lexical(conn, ResultKind::File, req),
        dir_rows: lexical(conn, ResultKind::Dir, req),
    };
    let gathered = Gathered::new(req, &found);
    let ids = gathered.file_ids();
    let mut st = conn.prepare(&sql::parents_sql(ids.len())).unwrap();
    let parents: Vec<Parent> = st
        .query_map(params_from_iter(ids.iter()), |r| {
            Ok(Parent { file: r.get(0)?, dir: r.get(1)?, path: r.get(2)? })
        })
        .unwrap()
        .map(|r| r.unwrap())
        .collect();
    let credits = gathered.parent_credits(&parents, &vec!["/t".to_string()]);
    let tallies = gathered.candidates(&credits, &sums(&credits));
    let ranking = Ranking::new(&tallies, &sums(&tallies));
    let chosen = match ranking.pool(req, true) {
        None => ranking.chosen(req),
        Some(pool) => {
            let docs = documents(&pool, &judged_texts(conn, &pool));
            let judged: Vec<u32> = docs
                .iter()
                .map(|d| if d.contains(hot) { 10.0f32 } else { -10.0 }.to_bits())
                .collect();
            ranking.chosen_by_reranker(req, &pool, &judged).ok().unwrap()
        }
    };
    let mut meta: Vec<(Key, Meta)> = Vec::new();
    for kind in [ResultKind::File, ResultKind::Dir] {
        for id in ids_of_kind(&chosen.keys, kind) {
            let path: String = conn
                .query_row(
                    &format!("SELECT path FROM {} WHERE id = ?1", sql::table_of(kind)),
                    [id],
                    |r| r.get(0),
                )
                .unwrap();
            meta.push(((kind, id), Meta { path, snippet: String::new(), file_count: None }));
        }
    }
    results(&gathered, ranking, chosen, &meta)
}

#[test]
fn reranker_reorders_fused_results() {
    let db = open();
    // The first repeats the query term, so the full-text index favours it; the reranker favours the
    // second by name. The reranker's say is final.
    insert_file(&db, "/t/plain_report.txt", "earnings earnings earnings summary");
    insert_file(&db, "/t/tax_return_2024.txt", "earnings");

    let out = search(&db, "tax_return", &hybrid_req("earnings"));
    assert_eq!(out.len(), 2, "both files match lexically");
    assert_eq!(out[0].path, "/t/tax_return_2024.txt");
    assert!(
        f32::from_bits(out[0].rerank.unwrap()) > f32::from_bits(out[1].rerank.unwrap()),
        "raw rerank scores are carried for display"
    );
}

#[test]
fn reranker_sees_directories_by_path() {
    let db = open();
    insert_file(&db, "/t/tax_guide.txt", "tax filing instructions");
    insert_dir(&db, "/t/tax_stuff");

    let out = search(&db, "tax_stuff", &hybrid_req("tax"));
    assert_eq!(out.len(), 2);
    assert_eq!(out[0].kind, ResultKind::Dir, "reranker promoted the directory");
}

#[test]
fn lexical_mode_skips_the_reranker() {
    let db = open();
    insert_file(&db, "/t/tax_return_2024.txt", "earnings");
    insert_file(&db, "/t/plain_report.txt", "earnings report");
    let req = Request {
        mode: Mode::Lexical,
        ..hybrid_req("earnings")
    };

    let out = search(&db, "tax_return", &req);
    assert_eq!(out.len(), 2);
    assert!(
        out.iter().all(|r| r.rerank.is_none()),
        "lexical mode is the no-model fast path"
    );
}

#[test]
fn directory_cap_still_applies_after_reranking() {
    let db = open();
    // Four dirs the reranker loves and one file it hates. Without the cap the file would be
    // squeezed out entirely; with it, one dir passes the cap, the file takes its slot, and the
    // remainder backfills.
    for d in ["d1", "d2", "d3", "d4"] {
        insert_dir(&db, &format!("/t/tax_{d}"));
    }
    insert_file(&db, "/t/tax_notes.txt", "tax");
    let req = Request {
        limit: 4,
        ..hybrid_req("tax")
    };

    let out = search(&db, "tax_d", &req);
    let dirs = out.iter().filter(|r| r.kind == ResultKind::Dir).count();
    assert_eq!(dirs, 3, "one through the cap, two backfilled, got {dirs}");
    assert!(
        out.iter().any(|r| r.kind == ResultKind::File),
        "the lone file must survive the reranked dir sweep"
    );
}

// ------------------------------------------------------------ ranking

#[test]
fn about_a_third_of_the_results_may_be_directories() {
    for limit in 0..2000usize {
        let want = ((limit as f32 * 0.34).round() as usize).max(1);
        assert_eq!(dir_cap(limit), want, "limit {limit}");
    }
}

#[test]
fn selection_fills_up_with_what_the_cap_held_back() {
    let d = |i| (ResultKind::Dir, i);
    let f = |i| (ResultKind::File, i);
    assert_eq!(select(&vec![d(1), d(2), d(3)], 3), vec![d(1), d(2), d(3)]);
    assert_eq!(select(&vec![d(1), d(2), f(3), f(4), f(5)], 3), vec![d(1), f(3), f(4)]);
    assert!(select(&vec![d(1)], 0).is_empty());
}

#[test]
fn a_reranker_must_score_every_document() {
    let pool = farm(&[1, 2]);
    let e = rerank_pool(&pool, &vec![0]).err().unwrap();
    assert!(e.message().contains('1') && e.message().contains('2'), "got: {}", e.message());
    let ok = rerank_pool(&pool, &vec![1.0f32.to_bits(), 1.0f32.to_bits()]).ok().unwrap();
    // Ties keep the fused order.
    assert_eq!(strip_scores(&ok), pool);
}

#[test]
fn the_pool_is_deeper_than_the_limit_but_bounded() {
    assert_eq!((pool_size(3), pool_size(40), pool_size(200)), (20, 80, 100));
}

#[test]
fn results_carry_what_each_arm_said() {
    let req = hybrid_req("tax");
    let hit = |row, score: f32| Hit { row, score: score.to_bits() };
    let found = Found {
        file_hits: vec![hit(1, 0.9), hit(2, 0.7)],
        dir_hits: vec![hit(5, 0.8)],
        file_rows: vec![2],
        dir_rows: vec![],
    };
    let g = Gathered::new(&req, &found);
    assert_eq!(g.file_ids(), vec![1, 2]);
    let credits = g.parent_credits(&vec![parent(2, 5, "/d")], &vec![]);
    let tallies = g.candidates(&credits, &sums(&credits));
    let ranking = Ranking::new(&tallies, &sums(&tallies));
    assert_eq!(ranking.keys[0], (ResultKind::File, 2));
    assert!(ranking.pool(&req, false).is_none());
    let chosen = ranking.chosen(&req);
    let at = |p: &str| Meta { path: p.to_string(), snippet: "s".to_string(), file_count: None };
    let meta = vec![((ResultKind::File, 2), at("/b")), ((ResultKind::Dir, 5), at("/d"))];
    let out = results(&g, ranking, chosen, &meta);
    // File 1 has no metadata any more, so it is not shown.
    assert_eq!(out.len(), 2);
    assert_eq!(out[0].path, "/b");
    assert_eq!((out[0].dense_rank, out[0].lexical_rank), (Some(2), Some(1)));
    assert_eq!(out[0].cosine, Some(0.7f32.to_bits()));
    assert_eq!((out[1].dense_rank, out[1].lexical_rank), (Some(1), None));
    assert!(out.iter().all(|r| r.rerank.is_none()));
}

#[test]
fn hits_below_the_floor_are_dropped() {
    let hit = |row, score: f32| Hit { row, score: score.to_bits() };
    let hits = vec![hit(3, 0.9), hit(5, 0.55), hit(7, 0.54)];
    let arm = dense_arm(ResultKind::File, &hits, 0.55f32.to_bits());
    assert_eq!(strip_scores(&arm), farm(&[3, 5]));
}

fn parent(file: i64, dir: i64, path: &str) -> Parent {
    Parent { file, dir, path: path.to_string() }
}

#[test]
fn a_root_is_never_credited_by_its_files() {
    let files = farm(&[1, 2, 3]);
    let rows = vec![parent(1, 10, "/r"), parent(2, 11, "/r/sub"), parent(3, 12, "/r/nested")];
    let roots = vec!["/r/".to_string(), "/r/nested".to_string()];
    let met = credit_parents(&files, &rows, &roots);
    assert_eq!(met.len(), 1);
    assert_eq!((met[0].key, met[0].term.rank), ((ResultKind::Dir, 11), 2));
    assert_eq!(credit_parents(&files, &rows, &vec![]).len(), 3);
}

#[test]
fn a_search_never_returns_the_root_of_its_matches() {
    let db = open();
    let root = insert_dir(&db, "/t");
    db.execute(sql::DELETE_DIR_TEXT, [root]).unwrap();
    let sub = insert_dir(&db, "/t/sub");
    let a = insert_file(&db, "/t/earnings.txt", "earnings");
    let b = insert_file(&db, "/t/sub/earnings.txt", "earnings");
    for (file, dir) in [(a, root), (b, sub)] {
        db.execute("UPDATE files SET parent_dir_id = ?1 WHERE id = ?2", [dir, file]).unwrap();
    }
    let out = search(&db, "none", &hybrid_req("earnings"));
    assert!(out.iter().any(|r| r.path == "/t/sub"), "a directory is credited by its files");
    assert!(out.iter().all(|r| r.path != "/t"), "a root is never an answer");
}

#[test]
fn parents_are_credited_by_the_places_of_their_files() {
    let files = best_files(&farm(&[1, 2]), &farm(&[2, 3]));
    assert_eq!(files, farm(&[1, 2, 3]));
    let rows = vec![parent(1, 10, "/a"), parent(2, 11, "/b"), parent(3, 10, "/a")];
    let met = credit_parents(&files, &rows, &vec![]);
    assert_eq!(met.len(), 3);
    assert!(met.iter().all(|m| m.key.0 == ResultKind::Dir));
    let credit = |id, score: f32| Credit { id, score: score.to_bits() };
    let top = rank_dirs(&vec![credit(10, 0.5), credit(11, 0.9), credit(12, 0.5)], 2);
    assert_eq!(top, vec![(ResultKind::Dir, 11), (ResultKind::Dir, 10)]);
}

#[test]
fn plans_follow_the_mode_and_the_model() {
    let mut r = hybrid_req("tax");
    assert_eq!((r.plan(true).dense, r.plan(true).lexical), (true, true));
    assert!(!r.plan(false).dense);
    r.mode = Mode::Dense;
    assert!(!r.plan(true).lexical);
    assert!(r.wants_rerank(true, 1));
    assert!(!r.wants_rerank(true, 0));
    assert!(!r.wants_rerank(false, 1));
    r.text = "  ".to_string();
    assert!(!r.plan(true).dense);
}

#[test]
fn only_the_words_of_a_query_matter() {
    for q in ["tax, forms; 2024!", "a-b_c", "Zo\u{eb}'s \u{4e2d}\u{6587}", "  one  "] {
        let words: Vec<String> = q
            .split(|c: char| !c.is_alphanumeric())
            .filter(|w| !w.is_empty())
            .map(String::from)
            .collect();
        assert_eq!(fts_query(q), fts_query(&words.join(" ")), "{q}");
    }
}

#[test]
fn no_quotation_mark_comes_from_the_input() {
    let q = fts_query("\"\u{130}stanbul\" \u{201c}\u{39f}\u{3a3}\u{201d}").unwrap();
    assert_eq!(q.matches('"').count(), 4, "{q}");
    assert_eq!(q, "\"i\u{307}stanbul\" OR \"\u{3bf}\u{3c2}\"*");
}
