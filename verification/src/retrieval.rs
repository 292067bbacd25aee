//! A search from what the arms found to the results that are shown, step by step.
//!
//! Between the steps the caller asks the index and the models, and takes the sums of scores:
//!
//! 1. `Gathered::new` takes what the arms found.
//! 2. `Gathered::parent_credits` takes the parent directories of the files that were found.
//! 3. `Gathered::candidates` takes the sums of those credits and tallies all arms.
//! 4. `Ranking::new` takes the sums of the tallies.
//! 5. `Ranking::pool` says what a reranker is shown, if one is, and `Ranking::chosen_by_reranker`
//!    takes its scores.
//! 6. `results` takes what is shown of the chosen rows.
use crate::fusion;
use crate::fusion::{fuse, tally, Fused, Key, ResultKind, Tally};
use crate::order;
use crate::ranking;
use crate::ranking::{
    best_files, choose_keys, credit_parents, pool_size, rank_dirs, ranks, rerank_pool, Credit,
    Parent, ScoreCount,
};
use crate::rollup;
use crate::score;
use crate::search;
use crate::search::{
    assemble, dense_arm, ids_of_kind, keys_of, pool_of, strip_scores, tally_evidence, unfuse,
    Evidence, Meta, Request, SearchResult, Standings,
};
use crate::sql;
use crate::text;
use crate::topk::Hit;
use vstd::prelude::*;

verus! {

/// What the arms found, each best first. An arm that did not run found nothing.
pub struct Found {
    pub file_hits: Vec<Hit>,
    pub dir_hits: Vec<Hit>,
    pub file_rows: Vec<i64>,
    pub dir_rows: Vec<i64>,
}

/// The evidence for a request.
pub struct Gathered {
    pub evidence: Evidence,
    /// How similar each dense hit is; single-precision bits.
    pub cosines: Vec<(Key, u32)>,
    /// The files of both arms.
    pub files: Vec<Key>,
}

/// The dense hits of one kind that take part.
pub open spec fn dense_pairs(kind: ResultKind, hits: Seq<Hit>, req: Request) -> Seq<(Key, u32)> {
    search::above_floor(kind, hits, req.min_similarity)
}

/// Everything that the five arms met, given the directories that their children bring up.
pub open spec fn all_met(e: Evidence, children: Seq<Key>) -> Seq<fusion::Met> {
    fusion::met_in_list(e.file_dense@, fusion::FULL_WEIGHT) + fusion::met_in_list(
        e.file_lexical@,
        fusion::FULL_WEIGHT,
    ) + fusion::met_in_list(e.dir_dense@, search::DIR_ARM_SCALE) + fusion::met_in_list(
        e.dir_lexical@,
        search::DIR_ARM_SCALE,
    ) + fusion::met_in_list(children, search::CHILDREN_ARM_WEIGHT)
}

/// The credit of each directory: `scores[i]` is the sum of the terms of `tallies[i]`.
pub open spec fn credited(tallies: Seq<Tally>, scores: Seq<u32>) -> Seq<Credit> {
    Seq::new(tallies.len(), |i: int| Credit { id: tallies[i].key.1, score: scores[i] })
}

/// The directories that their children bring up.
pub open spec fn children_arm(tallies: Seq<Tally>, scores: Seq<u32>) -> Seq<Key> {
    ranking::top_dirs(credited(tallies, scores), sql::CANDIDATES)
}

fn append_pairs(out: &mut Vec<(Key, u32)>, more: &Vec<(Key, u32)>)
    ensures
        final(out)@ == old(out)@ + more@,
{
    let ghost before = out@;
    let mut i: usize = 0;
    proof {
        assert(out@ =~= before + more@.take(0));
    }
    while i < more.len()
        invariant
            i <= more@.len(),
            out@ == before + more@.take(i as int),
        decreases more@.len() - i,
    {
        out.push(more[i]);
        i += 1;
        proof {
            assert(out@ =~= before + more@.take(i as int));
        }
    }
    proof {
        assert(more@.take(more@.len() as int) =~= more@);
    }
}

impl Gathered {
    /// Turns what the arms found into ranked evidence; dense hits below the floor are dropped.
    pub fn new(req: &Request, found: &Found) -> (r: Self)
        ensures
            r.cosines@ == dense_pairs(ResultKind::File, found.file_hits@, *req) + dense_pairs(
                ResultKind::Dir,
                found.dir_hits@,
                *req,
            ),
            r.evidence.file_dense@ == search::keys_only(
                dense_pairs(ResultKind::File, found.file_hits@, *req),
            ),
            r.evidence.dir_dense@ == search::keys_only(
                dense_pairs(ResultKind::Dir, found.dir_hits@, *req),
            ),
            r.evidence.file_lexical@ == search::keyed(ResultKind::File, found.file_rows@),
            r.evidence.dir_lexical@ == search::keyed(ResultKind::Dir, found.dir_rows@),
            r.files@ == ranking::first_seen(r.evidence.file_dense@ + r.evidence.file_lexical@),
    {
        let mut cosines = dense_arm(ResultKind::File, &found.file_hits, req.min_similarity);
        let dirs = dense_arm(ResultKind::Dir, &found.dir_hits, req.min_similarity);
        let evidence = Evidence {
            file_dense: strip_scores(&cosines),
            dir_dense: strip_scores(&dirs),
            file_lexical: keys_of(ResultKind::File, &found.file_rows),
            dir_lexical: keys_of(ResultKind::Dir, &found.dir_rows),
        };
        append_pairs(&mut cosines, &dirs);
        let files = best_files(&evidence.file_dense, &evidence.file_lexical);
        Gathered { evidence, cosines, files }
    }

    /// The files whose parent directories are wanted.
    pub fn file_ids(&self) -> (r: Vec<i64>)
        ensures
            r@ == search::ids_of(self.files@, ResultKind::File),
    {
        ids_of_kind(&self.files, ResultKind::File)
    }

    /// Credits each parent directory with the ranks of its files. A configured root gets no credit.
    pub fn parent_credits(&self, rows: &Vec<Parent>, roots: &Vec<String>) -> (r: Vec<Tally>)
        ensures
            fusion::tallies_of(r@, ranking::credits(self.files@, rows@, text::views(roots@))),
            forall|i: int|
                0 <= i < r@.len() ==> ranking::is_creditable(
                    (#[trigger] r@[i]).key,
                    rows@,
                    text::views(roots@),
                ),
    {
        let met = credit_parents(&self.files, rows, roots);
        let r = tally(&met);
        proof {
            assert forall|i: int| 0 <= i < r@.len() implies ranking::is_creditable(
                (#[trigger] r@[i]).key,
                rows@,
                text::views(roots@),
            ) by {
                fusion::lemma_tallied_is_met(r@, met@, i);
            }
        }
        r
    }

    /// Tallies the five arms; `scores[i]` is the sum of the terms of `credits[i]`.
    pub fn candidates(&self, credits: &Vec<Tally>, scores: &Vec<u32>) -> (r: Vec<Tally>)
        requires
            credits@.len() == scores@.len(),
        ensures
            fusion::tallies_of(
                r@,
                all_met(self.evidence, children_arm(credits@, scores@)),
            ),
    {
        let mut dirs: Vec<Credit> = Vec::new();
        let mut i: usize = 0;
        while i < credits.len()
            invariant
                credits@.len() == scores@.len(),
                i <= credits@.len(),
                dirs@ == credited(credits@, scores@).take(i as int),
            decreases credits@.len() - i,
        {
            dirs.push(Credit { id: credits[i].key.1, score: scores[i] });
            i += 1;
            proof {
                assert(dirs@ =~= credited(credits@, scores@).take(i as int));
            }
        }
        proof {
            assert(dirs@ =~= credited(credits@, scores@));
        }
        let children = rank_dirs(&dirs, sql::CANDIDATES);
        tally_evidence(&self.evidence, &children)
    }
}

/// All candidates, best first, with their scores.
pub struct Ranking {
    pub keys: Vec<Key>,
    pub scores: Vec<(Key, u32)>,
}

/// What is to be shown.
pub struct Chosen {
    pub keys: Vec<Key>,
    /// The reranker's scores, where one ran.
    pub rerank: Vec<(Key, u32)>,
}

/// How many candidates a reranker is shown at most.
pub open spec fn pool_limit(limit: usize) -> int {
    if limit * 2 < 20 {
        20
    } else if limit * 2 > 100 {
        100
    } else {
        limit * 2
    }
}

/// What a reranker is shown, where one is asked.
pub open spec fn pool_for(keys: Seq<Key>, req: Request, has_reranker: bool) -> Option<Seq<Key>> {
    if has_reranker && req.mode != search::Mode::Lexical && keys.len() > 0 {
        Some(ranking::head_of(keys, pool_limit(req.limit)))
    } else {
        None
    }
}

impl Ranking {
    /// Ranks the candidates: `scores[i]` is the sum of the terms of `tallies[i]`.
    pub fn new(tallies: &Vec<Tally>, scores: &Vec<u32>) -> (r: Self)
        requires
            tallies@.len() == scores@.len(),
        ensures
            r.keys@ == search::fused_keys(order::ranked(fusion::scored(tallies@, scores@))),
            r.scores@ == search::fused_scores(order::ranked(fusion::scored(tallies@, scores@))),
    {
        let fused: Vec<Fused> = fuse(tallies, scores);
        let (keys, by_key) = unfuse(&fused);
        Ranking { keys, scores: by_key }
    }

    /// What a reranker is shown: the head of the list, deeper than the limit, so that it has room
    /// to promote candidates. `None` where no reranker is asked.
    pub fn pool(&self, req: &Request, has_reranker: bool) -> (r: Option<Vec<Key>>)
        requires
            req.limit * 2 <= usize::MAX,
        ensures
            match r {
                Some(p) => pool_for(self.keys@, *req, has_reranker) == Some(p@),
                None => pool_for(self.keys@, *req, has_reranker) is None,
            },
    {
        if req.wants_rerank(has_reranker, self.keys.len()) {
            Some(pool_of(&self.keys, pool_size(req.limit)))
        } else {
            None
        }
    }

    /// Chooses what is shown without a reranker: the head of the list under the directory cap.
    pub fn chosen(&self, req: &Request) -> (r: Chosen)
        ensures
            r.keys@ == ranking::final_keys(self.keys@, None, req.limit),
            r.rerank@.len() == 0,
    {
        Chosen { keys: choose_keys(&self.keys, &None, req.limit), rerank: Vec::new() }
    }

    /// Chooses what is shown where a reranker gave `judged` for `pool`, one score per entry.
    pub fn chosen_by_reranker(&self, req: &Request, pool: &Vec<Key>, judged: &Vec<u32>) -> (r: Result<
        Chosen,
        ScoreCount,
    >)
        ensures
            match r {
                Ok(c) => {
                    &&& judged@.len() == pool@.len()
                    &&& c.rerank@ == ranking::reranked(pool@, judged@)
                    &&& c.keys@ == ranking::final_keys(
                        self.keys@,
                        Some(search::keys_only(ranking::reranked(pool@, judged@))),
                        req.limit,
                    )
                },
                Err(e) => judged@.len() != pool@.len() && e == (ScoreCount {
                    scores: judged@.len() as usize,
                    documents: pool@.len() as usize,
                }),
            },
    {
        match rerank_pool(pool, judged) {
            Err(e) => Err(e),
            Ok(rerank) => {
                let order = strip_scores(&rerank);
                Ok(Chosen { keys: choose_keys(&self.keys, &Some(order), req.limit), rerank })
            },
        }
    }
}

/// `r` shows `key`, with the last metadata that `meta` has for it.
pub open spec fn shows_result(
    r: SearchResult,
    key: Key,
    meta: Seq<(Key, Meta)>,
    g: Gathered,
    ranking: Ranking,
    c: Chosen,
) -> bool {
    &&& search::last_entry(meta, key) is Some
    &&& ({
        let m = meta[search::last_entry(meta, key)->0].1;
        &&& r.kind == key.0
        &&& r.path@ == m.path@
        &&& r.snippet@ == m.snippet@
        &&& r.file_count == m.file_count
        &&& r.score == match ranking::last_value(ranking.scores@, key) {
            Some(x) => x,
            None => 0,
        }
        &&& r.dense_rank == ranking::last_value(
            ranking::rank_pairs(g.evidence.file_dense@, g.evidence.dir_dense@),
            key,
        )
        &&& r.cosine == ranking::last_value(g.cosines@, key)
        &&& r.lexical_rank == ranking::last_value(
            ranking::rank_pairs(g.evidence.file_lexical@, g.evidence.dir_lexical@),
            key,
        )
        &&& r.rerank == ranking::last_value(c.rerank@, key)
    })
}

/// The results of a search: one for each chosen key that still has metadata, in order.
pub fn results(g: &Gathered, ranking: Ranking, c: Chosen, meta: &Vec<(Key, Meta)>) -> (r: Vec<
    SearchResult,
>)
    ensures
        r@.len() == search::resolvable(c.keys@, meta@).len(),
        forall|j: int|
            0 <= j < r@.len() ==> shows_result(
                #[trigger] r@[j],
                search::resolvable(c.keys@, meta@)[j],
                meta@,
                *g,
                ranking,
                c,
            ),
{
    let mut cosines: Vec<(Key, u32)> = Vec::new();
    append_pairs(&mut cosines, &g.cosines);
    proof {
        assert(cosines@ =~= g.cosines@);
    }
    let ghost ranking0 = ranking;
    let ghost chosen0 = c;
    let s = Standings {
        dense: ranks(&g.evidence.file_dense, &g.evidence.dir_dense),
        lexical: ranks(&g.evidence.file_lexical, &g.evidence.dir_lexical),
        cosines,
        scores: ranking.scores,
        rerank: c.rerank,
    };
    let out = assemble(&c.keys, meta, &s);
    proof {
        assert forall|j: int| 0 <= j < out@.len() implies shows_result(
            #[trigger] out@[j],
            search::resolvable(chosen0.keys@, meta@)[j],
            meta@,
            *g,
            ranking0,
            chosen0,
        ) by {
            assert(search::resolved(
                out@[j],
                search::resolvable(chosen0.keys@, meta@)[j],
                meta@,
                &s,
            ));
        }
    }
    out
}

// ------------------------------------------------------------------ laws

proof fn lemma_unseen_subset(keys: Seq<Key>, seen: Seq<Key>, key: Key)
    requires
        ranking::unseen(keys, seen).contains(key),
    ensures
        keys.contains(key),
    decreases keys.len(),
{
    let u = ranking::unseen(keys, seen);
    let i = choose|i: int| 0 <= i < u.len() && u[i] == key;
    if keys.len() > 0 {
        let before = ranking::unseen(keys.drop_last(), seen);
        if i < before.len() {
            assert(before[i] == key);
            assert(before.contains(key));
            lemma_unseen_subset(keys.drop_last(), seen, key);
            let k = choose|k: int| 0 <= k < keys.drop_last().len() && keys.drop_last()[k] == key;
            assert(keys[k] == key);
        } else {
            assert(keys[keys.len() - 1] == key);
        }
    }
}

/// A search shows no more than was asked for.
pub proof fn at_most_the_limit_is_shown(fused: Seq<Key>, pool: Option<Seq<Key>>, limit: usize)
    ensures
        ranking::final_keys(fused, pool, limit).len() <= limit,
{
    match pool {
        None => {
            ranking::selection_fills_the_limit(fused, limit);
        },
        Some(p) => {
            ranking::selection_fills_the_limit(p, limit);
        },
    }
}

/// A search shows only what was ranked: with a pool from the ranking, every shown key is in it.
pub proof fn only_ranked_candidates_are_shown(
    fused: Seq<Key>,
    pool: Option<Seq<Key>>,
    limit: usize,
    key: Key,
)
    requires
        pool is Some ==> forall|k: Key| #[trigger] pool->0.contains(k) ==> fused.contains(k),
        ranking::final_keys(fused, pool, limit).contains(key),
    ensures
        fused.contains(key),
{
    let shown = ranking::final_keys(fused, pool, limit);
    let i = choose|i: int| 0 <= i < shown.len() && shown[i] == key;
    match pool {
        None => {
            ranking::selection_shows_only_candidates(fused, limit, key);
        },
        Some(p) => {
            let head = ranking::selected(p, limit);
            if i < head.len() {
                assert(head[i] == key);
                assert(head.contains(key));
                ranking::selection_shows_only_candidates(p, limit, key);
                assert(pool->0.contains(key));
            } else {
                let rest = fused.skip(p.len() as int);
                let u = ranking::unseen(rest, head);
                assert(u[i - head.len()] == key);
                assert(u.contains(key));
                lemma_unseen_subset(rest, head, key);
                let k = choose|k: int| 0 <= k < rest.len() && rest[k] == key;
                assert(fused[p.len() + k] == key);
            }
        },
    }
}

/// Full-text search never waits for a model: in lexical mode nothing is reranked.
pub proof fn lexical_search_is_never_reranked(keys: Seq<Key>, req: Request, has_reranker: bool)
    requires
        req.mode == search::Mode::Lexical,
    ensures
        pool_for(keys, req, has_reranker) is None,
{
}

/// Whether an arm found the candidate, or children brought it up.
pub open spec fn has_evidence(e: Evidence, children: Seq<Key>, key: Key) -> bool {
    ||| e.file_dense@.contains(key)
    ||| e.file_lexical@.contains(key)
    ||| e.dir_dense@.contains(key)
    ||| e.dir_lexical@.contains(key)
    ||| children.contains(key)
}

/// A candidate is ranked exactly if an arm found it or its children brought it up.
pub proof fn candidates_are_what_the_arms_found(
    e: Evidence,
    children: Seq<Key>,
    tallies: Seq<Tally>,
    scores: Seq<u32>,
    key: Key,
)
    requires
        fusion::tallies_of(tallies, all_met(e, children)),
        tallies.len() == scores.len(),
    ensures
        search::fused_keys(order::ranked(fusion::scored(tallies, scores))).contains(key)
            <==> has_evidence(e, children, key),
{
    let met = all_met(e, children);
    let fused = order::ranked(fusion::scored(tallies, scores));
    let keys = search::fused_keys(fused);
    fusion::fusion_keeps_every_candidate_once(tallies, scores, met);
    assert(fusion::is_fused(fused, key) <==> fusion::is_met(met, key));
    if keys.contains(key) {
        let i = choose|i: int| 0 <= i < keys.len() && keys[i] == key;
        assert(fused[i].key == key);
        assert(fusion::is_fused(fused, key));
    }
    if fusion::is_fused(fused, key) {
        let i = choose|i: int| 0 <= i < fused.len() && (#[trigger] fused[i]).key == key;
        assert(keys[i] == key);
    }
    let a = e.file_dense@;
    let b = e.file_lexical@;
    let c = e.dir_dense@;
    let d = e.dir_lexical@;
    if fusion::is_met(met, key) {
        let m = choose|m: int| 0 <= m < met.len() && (#[trigger] met[m]).key == key;
        if m < a.len() {
            assert(a[m] == key);
        } else if m < a.len() + b.len() {
            assert(b[m - a.len()] == key);
        } else if m < a.len() + b.len() + c.len() {
            assert(c[m - a.len() - b.len()] == key);
        } else if m < a.len() + b.len() + c.len() + d.len() {
            assert(d[m - a.len() - b.len() - c.len()] == key);
        } else {
            assert(children[m - a.len() - b.len() - c.len() - d.len()] == key);
        }
    }
    if has_evidence(e, children, key) {
        if a.contains(key) {
            let i = choose|i: int| 0 <= i < a.len() && a[i] == key;
            assert(met[i].key == key);
        } else if b.contains(key) {
            let i = choose|i: int| 0 <= i < b.len() && b[i] == key;
            assert(met[a.len() + i].key == key);
        } else if c.contains(key) {
            let i = choose|i: int| 0 <= i < c.len() && c[i] == key;
            assert(met[a.len() + b.len() + i].key == key);
        } else if d.contains(key) {
            let i = choose|i: int| 0 <= i < d.len() && d[i] == key;
            assert(met[a.len() + b.len() + c.len() + i].key == key);
        } else {
            let i = choose|i: int| 0 <= i < children.len() && children[i] == key;
            assert(met[a.len() + b.len() + c.len() + d.len() + i].key == key);
        }
    }
}

/// A full-text match always comes through to the ranking, whatever floor the request sets for
/// similarity.
pub proof fn full_text_matches_are_always_ranked(
    e: Evidence,
    rows: Seq<i64>,
    children: Seq<Key>,
    tallies: Seq<Tally>,
    scores: Seq<u32>,
    i: int,
)
    requires
        e.file_lexical@ == search::keyed(ResultKind::File, rows),
        fusion::tallies_of(tallies, all_met(e, children)),
        tallies.len() == scores.len(),
        0 <= i < rows.len(),
    ensures
        search::fused_keys(order::ranked(fusion::scored(tallies, scores))).contains(
            (ResultKind::File, rows[i]),
        ),
{
    let key = (ResultKind::File, rows[i]);
    assert(search::keyed(ResultKind::File, rows)[i] == key);
    candidates_are_what_the_arms_found(e, children, tallies, scores, key);
}

/// A configured root is never brought up by its files: a directory that is a root in every row that
/// names it is not among the directories that their children bring up.
pub proof fn a_root_is_never_brought_up(
    files: Seq<Key>,
    rows: Seq<Parent>,
    roots: Seq<Seq<char>>,
    tallies: Seq<Tally>,
    scores: Seq<u32>,
    dir: i64,
)
    requires
        fusion::tallies_of(tallies, ranking::credits(files, rows, roots)),
        tallies.len() == scores.len(),
        forall|i: int|
            0 <= i < rows.len() && (#[trigger] rows[i]).dir == dir ==> rollup::is_root(
                rows[i].path@,
                roots,
            ),
    ensures
        !children_arm(tallies, scores).contains((ResultKind::Dir, dir)),
{
    let key = (ResultKind::Dir, dir);
    let met = ranking::credits(files, rows, roots);
    let all = credited(tallies, scores);
    let sorted = order::ranked(all);
    let arm = children_arm(tallies, scores);
    order::lemma_ranked(all);
    if arm.contains(key) {
        let i = choose|i: int| 0 <= i < arm.len() && arm[i] == key;
        assert(sorted[i].id == dir);
        assert(sorted.contains(sorted[i]));
        let k = choose|k: int| 0 <= k < all.len() && all[k] == sorted[i];
        fusion::lemma_tallied_is_met(tallies, met, k);
        let m = choose|m: int| 0 <= m < met.len() && (#[trigger] met[m]).key == tallies[k].key;
        ranking::lemma_credits(files, rows, roots, m);
        ranking::a_root_is_never_credited(files, rows, roots, dir, m);
    }
}

/// The dense evidence for a request is every hit at or above its floor, in order, with its
/// similarity.
pub proof fn dense_evidence_is_every_hit_at_the_floor(
    kind: ResultKind,
    hits: Seq<Hit>,
    req: Request,
)
    ensures
        dense_pairs(kind, hits, req) == hits.filter(
            |h: Hit|
                !score::not_a_number(h.score) && !score::not_a_number(req.min_similarity)
                    && score::value(h.score) >= score::value(req.min_similarity),
        ).map_values(|h: Hit| ((kind, h.row as i64), h.score)),
{
    search::every_hit_at_the_floor_is_kept(kind, hits, req.min_similarity);
    let p = |h: Hit|
        !score::not_a_number(h.score) && !score::not_a_number(req.min_similarity) && score::value(
            h.score,
        ) >= score::value(req.min_similarity);
    let q = |h: Hit|
        !score::not_a_number(h.score) && !score::not_a_number(req.min_similarity) && score::value(
            h.score,
        ) >= score::value(req.min_similarity);
    assert(p =~= q);
}

/// Each of the five arms counts, at its weight and from rank 1: the two of files at 1, the two of
/// directories at 2 / 2.6, and what their children bring up at 0.6 of that.
pub proof fn each_arm_counts_at_its_weight(e: Evidence, children: Seq<Key>, i: int)
    requires
        e.file_dense@.len() <= usize::MAX,
        e.file_lexical@.len() <= usize::MAX,
        e.dir_dense@.len() <= usize::MAX,
        e.dir_lexical@.len() <= usize::MAX,
        children.len() <= usize::MAX,
        0 <= i,
    ensures
        ({
            let all = all_met(e, children);
            let term = |weight: u32| fusion::Term { weight, rank: (i + 1) as usize };
            &&& all.len() == e.file_dense@.len() + e.file_lexical@.len() + e.dir_dense@.len()
                + e.dir_lexical@.len() + children.len()
            &&& i < e.file_dense@.len() ==> all.contains(
                fusion::Met { key: e.file_dense@[i], term: term(0x3f80_0000) },
            )
            &&& i < e.file_lexical@.len() ==> all.contains(
                fusion::Met { key: e.file_lexical@[i], term: term(0x3f80_0000) },
            )
            &&& i < e.dir_dense@.len() ==> all.contains(
                fusion::Met { key: e.dir_dense@[i], term: term(0x3f44_ec4f) },
            )
            &&& i < e.dir_lexical@.len() ==> all.contains(
                fusion::Met { key: e.dir_lexical@[i], term: term(0x3f44_ec4f) },
            )
            &&& i < children.len() ==> all.contains(
                fusion::Met { key: children[i], term: term(0x3eec_4ec6) },
            )
        }),
{
    let all = all_met(e, children);
    let a = e.file_dense@.len() as int;
    let b = a + e.file_lexical@.len();
    let c = b + e.dir_dense@.len();
    let d = c + e.dir_lexical@.len();
    let term = |weight: u32| fusion::Term { weight, rank: (i + 1) as usize };
    if i < e.file_dense@.len() {
        assert(all[i] == fusion::Met { key: e.file_dense@[i], term: term(0x3f80_0000) });
    }
    if i < e.file_lexical@.len() {
        assert(all[a + i] == fusion::Met { key: e.file_lexical@[i], term: term(0x3f80_0000) });
    }
    if i < e.dir_dense@.len() {
        assert(all[b + i] == fusion::Met { key: e.dir_dense@[i], term: term(0x3f44_ec4f) });
    }
    if i < e.dir_lexical@.len() {
        assert(all[c + i] == fusion::Met { key: e.dir_lexical@[i], term: term(0x3f44_ec4f) });
    }
    if i < children.len() {
        assert(all[d + i] == fusion::Met { key: children[i], term: term(0x3eec_4ec6) });
    }
}

/// Directories are credited with their own sums, and at most two hundred are brought up.
pub proof fn directories_are_credited_with_their_sums(tallies: Seq<Tally>, scores: Seq<u32>, i: int)
    requires
        tallies.len() == scores.len(),
        0 <= i < tallies.len(),
    ensures
        credited(tallies, scores).len() == tallies.len(),
        credited(tallies, scores)[i].id == tallies[i].key.1,
        credited(tallies, scores)[i].score == scores[i],
        children_arm(tallies, scores) == ranking::top_dirs(credited(tallies, scores), 200),
{
}

/// A reranker is shown the head of the list, twice as many as are asked for, but no fewer than 20
/// and no more than 100, as far as there are any; it is asked unless there is none, the search is
/// full-text only, or nothing was found.
pub proof fn a_reranker_is_shown_the_head(keys: Seq<Key>, req: Request, has_reranker: bool)
    ensures
        pool_for(keys, req, has_reranker) is Some <==> has_reranker && req.mode
            != search::Mode::Lexical && keys.len() > 0,
        pool_for(keys, req, has_reranker) matches Some(p) ==> {
            &&& p.len() <= keys.len()
            &&& p == keys.take(p.len() as int)
            &&& p.len() < keys.len() ==> {
                &&& 20 <= p.len() <= 100
                &&& 10 <= req.limit <= 50 ==> p.len() == 2 * req.limit
                &&& req.limit < 10 ==> p.len() == 20
                &&& req.limit > 50 ==> p.len() == 100
            }
            &&& p.len() <= 100
        },
{
}

/// A result says where it was found: its rank in the list that holds it, from 1, its similarity,
/// its fused score, and what the reranker gave it.
pub proof fn a_result_says_where_it_was_found(
    r: SearchResult,
    key: Key,
    meta: Seq<(Key, Meta)>,
    g: Gathered,
    rk: Ranking,
    c: Chosen,
    i: int,
)
    requires
        shows_result(r, key, meta, g, rk, c),
        g.evidence.file_dense@.len() < usize::MAX,
        g.evidence.dir_dense@.len() < usize::MAX,
        g.evidence.file_lexical@.len() < usize::MAX,
        g.evidence.dir_lexical@.len() < usize::MAX,
        !g.evidence.dir_dense@.contains(key),
        !g.evidence.dir_lexical@.contains(key),
    ensures
        r.kind == key.0,
        0 <= i < g.evidence.file_dense@.len() && g.evidence.file_dense@[i] == key && (forall|j: int|
            i < j < g.evidence.file_dense@.len() ==> g.evidence.file_dense@[j] != key)
            ==> r.dense_rank == Some((i + 1) as usize),
        !g.evidence.file_dense@.contains(key) ==> r.dense_rank is None,
        0 <= i < g.evidence.file_lexical@.len() && g.evidence.file_lexical@[i] == key && (forall|
            j: int,
        |
            i < j < g.evidence.file_lexical@.len() ==> g.evidence.file_lexical@[j] != key)
            ==> r.lexical_rank == Some((i + 1) as usize),
        !g.evidence.file_lexical@.contains(key) ==> r.lexical_rank is None,
        0 <= i < g.cosines@.len() && g.cosines@[i].0 == key && (forall|j: int|
            i < j < g.cosines@.len() ==> g.cosines@[j].0 != key) ==> r.cosine == Some(
            g.cosines@[i].1,
        ),
        0 <= i < rk.scores@.len() && rk.scores@[i].0 == key && (forall|j: int|
            i < j < rk.scores@.len() ==> rk.scores@[j].0 != key) ==> r.score == rk.scores@[i].1,
        0 <= i < c.rerank@.len() && c.rerank@[i].0 == key && (forall|j: int|
            i < j < c.rerank@.len() ==> c.rerank@[j].0 != key) ==> r.rerank == Some(
            c.rerank@[i].1,
        ),
        0 <= i < meta.len() && meta[i].0 == key && (forall|j: int|
            i < j < meta.len() ==> meta[j].0 != key) ==> {
            &&& r.path@ == meta[i].1.path@
            &&& r.snippet@ == meta[i].1.snippet@
            &&& r.file_count == meta[i].1.file_count
        },
{
    lemma_rank_found(g.evidence.file_dense@, g.evidence.dir_dense@, key, i);
    lemma_rank_found(g.evidence.file_lexical@, g.evidence.dir_lexical@, key, i);
    if 0 <= i < g.cosines@.len() && g.cosines@[i].0 == key && (forall|j: int|
        i < j < g.cosines@.len() ==> g.cosines@[j].0 != key) {
        ranking::the_last_assignment_counts(g.cosines@, key, i);
    }
    if 0 <= i < rk.scores@.len() && rk.scores@[i].0 == key && (forall|j: int|
        i < j < rk.scores@.len() ==> rk.scores@[j].0 != key) {
        ranking::the_last_assignment_counts(rk.scores@, key, i);
    }
    if 0 <= i < c.rerank@.len() && c.rerank@[i].0 == key && (forall|j: int|
        i < j < c.rerank@.len() ==> c.rerank@[j].0 != key) {
        ranking::the_last_assignment_counts(c.rerank@, key, i);
    }
    search::the_last_entry_counts(meta, key);
}

proof fn lemma_rank_found(first: Seq<Key>, second: Seq<Key>, key: Key, i: int)
    requires
        first.len() < usize::MAX,
        second.len() < usize::MAX,
        !second.contains(key),
    ensures
        0 <= i < first.len() && first[i] == key && (forall|j: int|
            i < j < first.len() ==> first[j] != key) ==> ranking::last_value(
            ranking::rank_pairs(first, second),
            key,
        ) == Some((i + 1) as usize),
        !first.contains(key) ==> ranking::last_value(ranking::rank_pairs(first, second), key) is None,
{
    let pairs = ranking::rank_pairs(first, second);
    assert forall|j: int| first.len() <= j < pairs.len() implies (#[trigger] pairs[j]).0 != key by {
        assert(second.contains(second[j - first.len()]));
        assert(pairs[j].0 == second[j - first.len()]);
    }
    assert forall|j: int| 0 <= j < first.len() implies (#[trigger] pairs[j]).0 == first[j] by {}
    if 0 <= i < first.len() && first[i] == key && (forall|j: int|
        i < j < first.len() ==> first[j] != key) {
        ranking::the_last_assignment_counts(pairs, key, i);
    }
    if !first.contains(key) {
        assert forall|j: int| 0 <= j < pairs.len() implies (#[trigger] pairs[j]).0 != key by {
            if j < first.len() {
                assert(first.contains(first[j]));
            }
        }
        ranking::the_last_assignment_counts(pairs, key, -1);
    }
}

} // verus!
