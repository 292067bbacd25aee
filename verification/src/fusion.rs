//! Reciprocal Rank Fusion over several ranked lists.
//!
//! Cosine similarity and bm25 are not comparable quantities, so fusion looks only at positions.
//! A candidate's score is the sum of `weight / (60 + rank)` over the places it was ranked at. The
//! sum is taken in single precision by the caller; which terms it has, and the order that comes
//! of the sums, is decided here.
use crate::order;
use crate::order::sort_ranked;
use crate::order::Rank;
use crate::score;
use vstd::prelude::*;
use vstd::relations::*;

verus! {

/// What a result is.
#[derive(Debug, Clone, Copy, PartialEq, Eq, Hash, PartialOrd, Ord, Structural)]
pub enum ResultKind {
    File,
    Dir,
}

/// Identifies one candidate. Files and directories live in separate id spaces, so the kind has to
/// travel with the id for fusion to mix them.
pub type Key = (ResultKind, i64);

/// Files before directories, then by id.
pub open spec fn key_ahead(a: Key, b: Key) -> bool {
    if a.0 == b.0 {
        a.1 <= b.1
    } else {
        a.0 == ResultKind::File
    }
}

/// Decides `key_ahead`.
pub fn key_is_ahead(a: Key, b: Key) -> (r: bool)
    ensures
        r == key_ahead(a, b),
{
    if a.0 == b.0 {
        a.1 <= b.1
    } else {
        a.0 == ResultKind::File
    }
}

/// Whether two keys name the same candidate.
pub fn same_key(a: Key, b: Key) -> (r: bool)
    ensures
        r == (a == b),
{
    a.0 == b.0 && a.1 == b.1
}

/// The single-precision bits of a weight of one.
pub const FULL_WEIGHT: u32 = 0x3f80_0000;

/// A ranked list of candidates plus the weight its agreement carries.
pub struct Arm<'a> {
    pub ranked: &'a [Key],
    /// Multiplier on this arm's contribution, as single-precision bits.
    pub weight: u32,
}

impl<'a> Arm<'a> {
    /// A primary arm, carrying full weight.
    pub fn new(ranked: &'a [Key]) -> (r: Self)
        ensures
            r.ranked@ == ranked@,
            r.weight == FULL_WEIGHT,
    {
        Arm { ranked, weight: FULL_WEIGHT }
    }
}

/// One summand of a candidate's score: `weight / (60 + rank)`.
#[derive(Debug, Clone, Copy, PartialEq, Eq, Structural)]
pub struct Term {
    /// Single-precision bits.
    pub weight: u32,
    /// Position in its list, counted from 1.
    pub rank: usize,
}

/// A candidate, met at some place of some list.
#[derive(Debug, Clone, Copy, PartialEq, Eq)]
pub struct Met {
    pub key: Key,
    pub term: Term,
}

/// The candidates of one list.
pub open spec fn met_in_list(ranked: Seq<Key>, weight: u32) -> Seq<Met> {
    Seq::new(
        ranked.len(),
        |i: int| Met { key: ranked[i], term: Term { weight, rank: (i + 1) as usize } },
    )
}

/// The candidates of several lists, list after list.
pub open spec fn met_in<'a>(arms: Seq<Arm<'a>>) -> Seq<Met>
    decreases arms.len(),
{
    if arms.len() == 0 {
        seq![]
    } else {
        met_in(arms.drop_last()) + met_in_list(arms.last().ranked@, arms.last().weight)
    }
}

/// Walks the lists in order.
pub fn walk_arms(arms: &[Arm]) -> (r: Vec<Met>)
    ensures
        r@ == met_in(arms@),
{
    let mut out: Vec<Met> = Vec::new();
    let mut a: usize = 0;
    while a < arms.len()
        invariant
            a <= arms@.len(),
            out@ == met_in(arms@.take(a as int)),
        decreases arms@.len() - a,
    {
        let arm = &arms[a];
        let ghost before = out@;
        let ghost list = met_in_list(arm.ranked@, arm.weight);
        let mut i: usize = 0;
        while i < arm.ranked.len()
            invariant
                i <= arm.ranked@.len(),
                list == met_in_list(arm.ranked@, arm.weight),
                out@ == before + list.take(i as int),
            decreases arm.ranked@.len() - i,
        {
            out.push(Met { key: arm.ranked[i], term: Term { weight: arm.weight, rank: i + 1 } });
            i += 1;
            proof {
                assert(out@ =~= before + list.take(i as int));
            }
        }
        proof {
            assert(list.take(list.len() as int) =~= list);
            let next = arms@.take(a + 1);
            assert(next.drop_last() =~= arms@.take(a as int));
            assert(next.last() == arms@[a as int]);
        }
        a += 1;
    }
    proof {
        assert(arms@.take(arms@.len() as int) =~= arms@);
    }
    out
}

/// The terms of `key`'s score, in the order they were met.
pub open spec fn terms_for(met: Seq<Met>, key: Key) -> Seq<Term>
    decreases met.len(),
{
    if met.len() == 0 {
        seq![]
    } else if met.last().key == key {
        terms_for(met.drop_last(), key).push(met.last().term)
    } else {
        terms_for(met.drop_last(), key)
    }
}

/// Whether `n` is the smallest rank among `terms`.
pub open spec fn is_best_rank(terms: Seq<Term>, n: usize) -> bool {
    &&& exists|i: int| 0 <= i < terms.len() && (#[trigger] terms[i]).rank == n
    &&& forall|i: int| 0 <= i < terms.len() ==> n <= (#[trigger] terms[i]).rank
}

/// Everything that fusion knows about one candidate.
pub struct Tally {
    pub key: Key,
    /// Best rank seen, used only to break ties deterministically.
    pub best: usize,
    /// The summands of its score, in the order to add them.
    pub terms: Vec<Term>,
}

/// `tallies` says of every candidate in `met` what was met of it, once per candidate.
pub open spec fn tallies_of(tallies: Seq<Tally>, met: Seq<Met>) -> bool {
    &&& forall|i: int|
        0 <= i < tallies.len() ==> {
            let t = #[trigger] tallies[i];
            &&& t.terms@ == terms_for(met, t.key)
            &&& is_best_rank(t.terms@, t.best)
        }
    &&& forall|i: int, j: int|
        0 <= i < j < tallies.len() ==> (#[trigger] tallies[i]).key != (#[trigger] tallies[j]).key
    &&& forall|m: int|
        0 <= m < met.len() ==> exists|i: int|
            0 <= i < tallies.len() && (#[trigger] tallies[i]).key == (#[trigger] met[m]).key
}

proof fn lemma_unmet(met: Seq<Met>, key: Key)
    requires
        forall|m: int| 0 <= m < met.len() ==> (#[trigger] met[m]).key != key,
    ensures
        terms_for(met, key) == Seq::<Term>::empty(),
    decreases met.len(),
{
    if met.len() > 0 {
        assert forall|m: int| 0 <= m < met.drop_last().len() implies (#[trigger] met.drop_last()[m]).key
            != key by {
            assert(met[m].key != key);
        }
        assert(met.last() == met[met.len() - 1]);
        lemma_unmet(met.drop_last(), key);
    }
}

/// Collects, per candidate, the terms of its score and its best rank.
pub fn tally(met: &Vec<Met>) -> (r: Vec<Tally>)
    ensures
        tallies_of(r@, met@),
{
    let mut out: Vec<Tally> = Vec::new();
    let mut m: usize = 0;
    while m < met.len()
        invariant
            m <= met@.len(),
            tallies_of(out@, met@.take(m as int)),
        decreases met@.len() - m,
    {
        let x = met[m];
        let ghost done = met@.take(m as int);
        let ghost next = met@.take(m + 1);
        proof {
            assert(next.drop_last() =~= done);
            assert(next.last() == x);
        }
        let ghost before = out@;
        let mut p: usize = 0;
        while p < out.len() && !same_key(out[p].key, x.key)
            invariant
                p <= out@.len(),
                out@ == before,
                forall|i: int| 0 <= i < p ==> (#[trigger] before[i]).key != x.key,
            decreases out@.len() - p,
        {
            p += 1;
        }
        if p < out.len() {
            let mut t = out.remove(p);
            t.terms.push(x.term);
            if x.term.rank < t.best {
                t.best = x.term.rank;
            }
            let ghost now = t;
            out.insert(p, t);
            proof {
                assert(out@ =~= before.update(p as int, now));
                let old_terms = before[p as int].terms@;
                assert(now.terms@ == old_terms.push(x.term));
                assert(is_best_rank(now.terms@, now.best)) by {
                    let w = choose|i: int|
                        0 <= i < old_terms.len() && (#[trigger] old_terms[i]).rank
                            == before[p as int].best;
                    assert(now.terms@[w] == old_terms[w]);
                    assert(now.terms@[old_terms.len() as int] == x.term);
                    assert forall|i: int| 0 <= i < now.terms@.len() implies now.best <= (
                    #[trigger] now.terms@[i]).rank by {
                        if i < old_terms.len() {
                            assert(now.terms@[i] == old_terms[i]);
                        }
                    }
                }
                assert forall|i: int| 0 <= i < out@.len() implies ({
                    let t = #[trigger] out@[i];
                    &&& t.terms@ == terms_for(next, t.key)
                    &&& is_best_rank(t.terms@, t.best)
                }) by {
                    if i != p {
                        assert(out@[i] == before[i]);
                        assert(before[i].key != x.key);
                    }
                }
                assert forall|i: int, j: int| 0 <= i < j < out@.len() implies (#[trigger] out@[i]).key
                    != (#[trigger] out@[j]).key by {
                    assert(out@[i].key == before[i].key);
                    assert(out@[j].key == before[j].key);
                }
                assert forall|k: int| 0 <= k < next.len() implies exists|i: int|
                    0 <= i < out@.len() && (#[trigger] out@[i]).key == (#[trigger] next[k]).key by {
                    if k < done.len() {
                        assert(next[k] == done[k]);
                        let w = choose|i: int|
                            0 <= i < before.len() && (#[trigger] before[i]).key == done[k].key;
                        assert(out@[w].key == next[k].key);
                    } else {
                        assert(out@[p as int].key == next[k].key);
                    }
                }
            }
        } else {
            let mut terms: Vec<Term> = Vec::new();
            terms.push(x.term);
            let t = Tally { key: x.key, best: x.term.rank, terms };
            let ghost now = t;
            out.push(t);
            proof {
                assert forall|k: int| 0 <= k < done.len() implies (#[trigger] done[k]).key
                    != x.key by {
                    let w = choose|i: int|
                        0 <= i < before.len() && (#[trigger] before[i]).key == done[k].key;
                    assert(before[w].key != x.key);
                }
                lemma_unmet(done, x.key);
                assert(now.terms@ =~= terms_for(next, x.key));
                assert(is_best_rank(now.terms@, now.best)) by {
                    assert(now.terms@[0] == x.term);
                }
                assert forall|i: int| 0 <= i < out@.len() implies ({
                    let t = #[trigger] out@[i];
                    &&& t.terms@ == terms_for(next, t.key)
                    &&& is_best_rank(t.terms@, t.best)
                }) by {
                    if i < before.len() {
                        assert(out@[i] == before[i]);
                        assert(before[i].key != x.key);
                    }
                }
                assert forall|i: int, j: int| 0 <= i < j < out@.len() implies (#[trigger] out@[i]).key
                    != (#[trigger] out@[j]).key by {
                    assert(out@[i] == before[i]);
                    if j < before.len() {
                        assert(out@[j] == before[j]);
                    }
                }
                assert forall|k: int| 0 <= k < next.len() implies exists|i: int|
                    0 <= i < out@.len() && (#[trigger] out@[i]).key == (#[trigger] next[k]).key by {
                    if k < done.len() {
                        assert(next[k] == done[k]);
                        let w = choose|i: int|
                            0 <= i < before.len() && (#[trigger] before[i]).key == done[k].key;
                        assert(out@[w].key == next[k].key);
                    } else {
                        assert(out@[before.len() as int].key == next[k].key);
                    }
                }
            }
        }
        m += 1;
    }
    proof {
        assert(met@.take(met@.len() as int) =~= met@);
    }
    out
}

/// A candidate with its fused score.
#[derive(Debug, Clone, Copy, PartialEq, Eq)]
pub struct Fused {
    pub key: Key,
    /// Single-precision bits.
    pub score: u32,
    pub best: usize,
}

impl Rank for Fused {
    /// The higher score first; then the better best rank; then files before directories, by id.
    open spec fn ahead(self, other: Self) -> bool {
        if self.score != other.score {
            score::total_key(self.score) > score::total_key(other.score)
        } else if self.best != other.best {
            self.best < other.best
        } else {
            key_ahead(self.key, other.key)
        }
    }

    proof fn order_laws() {
        let rel = |a: Fused, b: Fused| a.ahead(b);
        assert forall|x: Fused, y: Fused| #[trigger] rel(x, y) || #[trigger] rel(y, x) by {
            if score::total_key(x.score) == score::total_key(y.score) {
                score::total_key_is_injective(x.score, y.score);
            }
        }
        assert(reflexive(rel));
        assert(antisymmetric(rel));
        assert(transitive(rel));
    }

    fn is_ahead(&self, other: &Self) -> (r: bool) {
        if self.score != other.score {
            score::total_order_key(self.score) > score::total_order_key(other.score)
        } else if self.best != other.best {
            self.best < other.best
        } else {
            key_is_ahead(self.key, other.key)
        }
    }
}

/// Each tally with the score that was summed up for it.
pub open spec fn scored(tallies: Seq<Tally>, scores: Seq<u32>) -> Seq<Fused> {
    Seq::new(
        tallies.len(),
        |i: int| Fused { key: tallies[i].key, score: scores[i], best: tallies[i].best },
    )
}

/// The fused list, best first: `scores[i]` is the sum of the terms of `tallies[i]`.
pub fn fuse(tallies: &Vec<Tally>, scores: &Vec<u32>) -> (r: Vec<Fused>)
    requires
        tallies@.len() == scores@.len(),
    ensures
        r@ == order::ranked(scored(tallies@, scores@)),
{
    let mut all: Vec<Fused> = Vec::new();
    let mut i: usize = 0;
    while i < tallies.len()
        invariant
            tallies@.len() == scores@.len(),
            i <= tallies@.len(),
            all@ == scored(tallies@, scores@).take(i as int),
        decreases tallies@.len() - i,
    {
        all.push(Fused { key: tallies[i].key, score: scores[i], best: tallies[i].best });
        i += 1;
        proof {
            assert(all@ =~= scored(tallies@, scores@).take(i as int));
        }
    }
    proof {
        assert(all@ =~= scored(tallies@, scores@));
    }
    sort_ranked(&all)
}

// ------------------------------------------------------------------ laws

/// Whether the candidate was met in some list.
pub open spec fn is_met(met: Seq<Met>, key: Key) -> bool {
    exists|m: int| 0 <= m < met.len() && (#[trigger] met[m]).key == key
}

/// Whether the candidate is in the fused list.
pub open spec fn is_fused(fused: Seq<Fused>, key: Key) -> bool {
    exists|i: int| 0 <= i < fused.len() && (#[trigger] fused[i]).key == key
}

/// Every candidate of the lists is in the fused list, nothing else is, and none is there twice.
pub proof fn fusion_keeps_every_candidate_once(tallies: Seq<Tally>, scores: Seq<u32>, met: Seq<Met>)
    requires
        tallies_of(tallies, met),
        tallies.len() == scores.len(),
    ensures
        ({
            let fused = order::ranked(scored(tallies, scores));
            &&& forall|i: int, j: int|
                0 <= i < j < fused.len() ==> (#[trigger] fused[i]).key != (#[trigger] fused[j]).key
            &&& forall|key: Key| #[trigger] is_fused(fused, key) <==> is_met(met, key)
        }),
{
    let all = scored(tallies, scores);
    let fused = order::ranked(all);
    order::lemma_ranked(all);
    assert forall|i: int, j: int| 0 <= i < j < all.len() implies all[i] != all[j] by {
        assert(all[i].key == tallies[i].key);
        assert(all[j].key == tallies[j].key);
    }
    assert(all.no_duplicates());
    all.lemma_multiset_has_no_duplicates();
    fused.to_multiset_ensures();
    fused.lemma_multiset_has_no_duplicates_conv();
    assert forall|i: int, j: int| 0 <= i < j < fused.len() implies (#[trigger] fused[i]).key != (
    #[trigger] fused[j]).key by {
        assert(fused.contains(fused[i]));
        assert(fused.contains(fused[j]));
        let a = choose|a: int| 0 <= a < all.len() && all[a] == fused[i];
        let b = choose|b: int| 0 <= b < all.len() && all[b] == fused[j];
        assert(a != b);
        assert(all[a].key == tallies[a].key);
        assert(all[b].key == tallies[b].key);
        if a < b {
        } else {
            assert(tallies[b].key != tallies[a].key);
        }
    }
    assert forall|key: Key| #[trigger] is_fused(fused, key) <==> is_met(met, key) by {
        if is_fused(fused, key) {
            let i = choose|i: int| 0 <= i < fused.len() && (#[trigger] fused[i]).key == key;
            assert(fused.contains(fused[i]));
            let a = choose|a: int| 0 <= a < all.len() && all[a] == fused[i];
            assert(tallies[a].key == key);
            assert(terms_for(met, key).len() > 0);
            lemma_met_somewhere(met, key);
        }
        if is_met(met, key) {
            let m = choose|m: int| 0 <= m < met.len() && (#[trigger] met[m]).key == key;
            let a = choose|a: int|
                0 <= a < tallies.len() && (#[trigger] tallies[a]).key == met[m].key;
            assert(all[a].key == key);
            assert(all.contains(all[a]));
            assert(fused.contains(all[a]));
            let i = choose|i: int| 0 <= i < fused.len() && fused[i] == all[a];
            assert(fused[i].key == key);
        }
    }
}

proof fn lemma_met_somewhere(met: Seq<Met>, key: Key)
    requires
        terms_for(met, key).len() > 0,
    ensures
        is_met(met, key),
{
    if forall|m: int| 0 <= m < met.len() ==> (#[trigger] met[m]).key != key {
        lemma_unmet(met, key);
    }
}

/// Every tallied candidate was met in some list.
pub proof fn lemma_tallied_is_met(tallies: Seq<Tally>, met: Seq<Met>, i: int)
    requires
        tallies_of(tallies, met),
        0 <= i < tallies.len(),
    ensures
        is_met(met, tallies[i].key),
{
    assert(terms_for(met, tallies[i].key).len() > 0);
    lemma_met_somewhere(met, tallies[i].key);
}

/// The tallies' order does not matter: the fused list depends only on who was tallied with what.
pub proof fn fusion_is_deterministic(a: Seq<Fused>, b: Seq<Fused>)
    requires
        a.to_multiset() == b.to_multiset(),
    ensures
        order::ranked(a) == order::ranked(b),
{
    order::lemma_ranked_permutation(a, b);
}

proof fn lemma_list_terms(list: Seq<Key>, weight: u32, n: int, key: Key)
    requires
        list.no_duplicates(),
        0 <= n <= list.len() <= usize::MAX,
    ensures
        terms_for(met_in_list(list, weight).take(n), key) == (if exists|p: int|
            0 <= p < n && list[p] == key {
            let p = choose|p: int| 0 <= p < n && list[p] == key;
            seq![Term { weight, rank: (p + 1) as usize }]
        } else {
            Seq::<Term>::empty()
        }),
    decreases n,
{
    let met = met_in_list(list, weight).take(n);
    if n > 0 {
        lemma_list_terms(list, weight, n - 1, key);
        assert(met.drop_last() =~= met_in_list(list, weight).take(n - 1));
        assert(met.last().key == list[n - 1]);
        if list[n - 1] == key {
            assert(!(exists|p: int| 0 <= p < n - 1 && list[p] == key));
            assert(exists|p: int| 0 <= p < n && list[p] == key);
            let p = choose|p: int| 0 <= p < n && list[p] == key;
            assert(p == n - 1);
            assert(terms_for(met, key) =~= seq![Term { weight, rank: (p + 1) as usize }]);
        } else if exists|p: int| 0 <= p < n && list[p] == key {
            let p = choose|p: int| 0 <= p < n && list[p] == key;
            assert(0 <= p < n - 1 && list[p] == key);
            let q = choose|q: int| 0 <= q < n - 1 && list[q] == key;
            assert(p == q);
        } else {
            assert(!(exists|p: int| 0 <= p < n - 1 && list[p] == key));
        }
    }
}

/// Fusing a single list changes nothing about its order, as long as a better rank never scores
/// less.
pub proof fn a_single_list_keeps_its_order(
    list: Seq<Key>,
    weight: u32,
    tallies: Seq<Tally>,
    scores: Seq<u32>,
)
    requires
        list.no_duplicates(),
        list.len() <= usize::MAX,
        tallies_of(tallies, met_in_list(list, weight)),
        tallies.len() == scores.len(),
        forall|i: int, j: int|
            0 <= i < tallies.len() && 0 <= j < tallies.len() && (#[trigger] tallies[i]).best < (
            #[trigger] tallies[j]).best ==> score::total_key(scores[i]) >= score::total_key(
                scores[j],
            ),
    ensures
        ({
            let fused = order::ranked(scored(tallies, scores));
            &&& fused.len() == list.len()
            &&& forall|n: int| 0 <= n < list.len() ==> (#[trigger] fused[n]).key == list[n]
        }),
{
    let met = met_in_list(list, weight);
    let all = scored(tallies, scores);
    // Where the candidate of rank n was tallied.
    let at = |n: int| choose|i: int| 0 <= i < tallies.len() && (#[trigger] tallies[i]).key == list[n];
    assert forall|n: int| 0 <= n < list.len() implies 0 <= #[trigger] at(n) < tallies.len()
        && tallies[at(n)].key == list[n] by {
        assert(met[n].key == list[n]);
        assert(exists|i: int| 0 <= i < tallies.len() && (#[trigger] tallies[i]).key == met[n].key);
    }
    assert(met.take(met.len() as int) =~= met);
    assert forall|i: int| 0 <= i < tallies.len() implies exists|n: int|
        0 <= n < list.len() && list[n] == (#[trigger] tallies[i]).key && tallies[i].best == n + 1 by {
        let key = tallies[i].key;
        lemma_list_terms(list, weight, list.len() as int, key);
        let terms = tallies[i].terms@;
        assert(terms.len() > 0);
        let p = choose|p: int| 0 <= p < list.len() && list[p] == key;
        assert(terms[0] == Term { weight, rank: (p + 1) as usize });
        assert(terms[0].rank == p + 1);
        let w = choose|w: int| 0 <= w < terms.len() && (#[trigger] terms[w]).rank == tallies[i].best;
        assert(w == 0);
    }
    let want = Seq::new(list.len(), |n: int| all[at(n)]);
    assert forall|n: int| 0 <= n < list.len() implies (#[trigger] want[n]).key == list[n]
        && want[n].best == n + 1 by {
        let i = at(n);
        assert(0 <= at(n) < tallies.len() && tallies[at(n)].key == list[n]);
        let m = choose|m: int|
            0 <= m < list.len() && list[m] == tallies[i].key && tallies[i].best == m + 1;
        assert(m == n);
    }
    assert forall|a: int, b: int| 0 <= a < b < want.len() implies #[trigger] order::by_rank::<
        Fused,
    >()(want[a], want[b]) by {
        assert(want[a].best == a + 1);
        assert(want[b].best == b + 1);
        assert(0 <= at(a) < tallies.len() && 0 <= at(b) < tallies.len());
        assert(tallies[at(a)].best < tallies[at(b)].best);
        if score::total_key(want[a].score) == score::total_key(want[b].score) {
            score::total_key_is_injective(want[a].score, want[b].score);
        }
    }
    assert forall|a: int, b: int| 0 <= a < b < want.len() implies want[a] != want[b] by {
        assert(want[a].best == a + 1);
        assert(want[b].best == b + 1);
    }
    assert forall|a: int, b: int| 0 <= a < b < all.len() implies all[a] != all[b] by {
        assert(all[a].key == tallies[a].key);
        assert(all[b].key == tallies[b].key);
    }
    assert forall|x: Fused| want.contains(x) <==> #[trigger] all.contains(x) by {
        if want.contains(x) {
            let n = choose|n: int| 0 <= n < want.len() && want[n] == x;
            assert(0 <= at(n) < tallies.len());
            assert(all[at(n)] == x);
        }
        if all.contains(x) {
            let i = choose|i: int| 0 <= i < all.len() && all[i] == x;
            let n = choose|n: int|
                0 <= n < list.len() && list[n] == (#[trigger] tallies[i]).key && tallies[i].best
                    == n + 1;
            assert(0 <= at(n) < tallies.len() && tallies[at(n)].key == list[n]);
            if at(n) < i {
                assert(tallies[at(n)].key != tallies[i].key);
            } else if i < at(n) {
                assert(tallies[i].key != tallies[at(n)].key);
            }
            assert(want[n] == x);
        }
    }
    order::lemma_same_elements(want, all);
    order::lemma_ranked_unique(all, want);
}

/// A list is met entry by entry: each key under the list's weight, its rank counted from 1.
pub proof fn ranks_count_from_one(ranked: Seq<Key>, weight: u32, i: int)
    requires
        0 <= i < ranked.len() <= usize::MAX,
    ensures
        met_in_list(ranked, weight).len() == ranked.len(),
        met_in_list(ranked, weight)[i].key == ranked[i],
        met_in_list(ranked, weight)[i].term.weight == weight,
        met_in_list(ranked, weight)[i].term.rank == i + 1,
{
}

/// Lists are met one after the other, each as a whole.
pub proof fn lists_are_met_one_after_the_other<'a>(a: Seq<Arm<'a>>, b: Seq<Arm<'a>>, one: Arm<'a>)
    ensures
        met_in(Seq::<Arm<'a>>::empty()) == Seq::<Met>::empty(),
        met_in(seq![one]) == met_in_list(one.ranked@, one.weight),
        met_in(a + b) == met_in(a) + met_in(b),
    decreases b.len(),
{
    let single = seq![one];
    assert(single.drop_last() =~= Seq::<Arm<'a>>::empty());
    assert(met_in(single.drop_last()) =~= Seq::<Met>::empty());
    assert(met_in(single) =~= met_in_list(one.ranked@, one.weight));
    if b.len() == 0 {
        assert(a + b =~= a);
        assert(met_in(a) + met_in(b) =~= met_in(a));
    } else {
        lists_are_met_one_after_the_other(a, b.drop_last(), one);
        assert((a + b).drop_last() =~= a + b.drop_last());
        assert(met_in(a) + met_in(b.drop_last()) + met_in_list(b.last().ranked@, b.last().weight)
            =~= met_in(a) + met_in(b));
    }
}

/// The terms of a candidate's score are all those it was met with, in order, and no others.
pub proof fn a_score_has_a_term_for_each_meeting(met: Seq<Met>, key: Key)
    ensures
        terms_for(met, key) == met.filter(|m: Met| m.key == key).map_values(|m: Met| m.term),
    decreases met.len(),
{
    reveal(Seq::filter);
    let p = |m: Met| m.key == key;
    let f = |m: Met| m.term;
    if met.len() > 0 {
        a_score_has_a_term_for_each_meeting(met.drop_last(), key);
        let rest = met.drop_last().filter(p);
        if p(met.last()) {
            assert(rest.push(met.last()).map_values(f) =~= rest.map_values(f).push(met.last().term));
        }
    } else {
        assert(terms_for(met, key) =~= met.filter(p).map_values(f));
    }
}

/// The fused list runs from the highest score down; of equal scores the better best rank comes
/// first, then files before directories, then the lower id.
pub proof fn higher_scores_come_first(tallies: Seq<Tally>, scores: Seq<u32>, i: int, j: int)
    requires
        tallies.len() == scores.len(),
        0 <= i < j < order::ranked(scored(tallies, scores)).len(),
    ensures
        ({
            let a = order::ranked(scored(tallies, scores))[i];
            let b = order::ranked(scored(tallies, scores))[j];
            &&& score::total_key(a.score) >= score::total_key(b.score)
            &&& a.score == b.score ==> a.best <= b.best
            &&& a.score == b.score && a.best == b.best ==> {
                &&& b.key.0 == ResultKind::File ==> a.key.0 == ResultKind::File
                &&& a.key.0 == b.key.0 ==> a.key.1 <= b.key.1
            }
        }),
{
    let all = order::ranked(scored(tallies, scores));
    order::lemma_ranked(scored(tallies, scores));
    assert(order::by_rank::<Fused>()(all[i], all[j]));
}

/// Every candidate is fused with its own score and best rank.
pub proof fn every_candidate_has_its_own_score(tallies: Seq<Tally>, scores: Seq<u32>, i: int)
    requires
        tallies.len() == scores.len(),
        0 <= i < tallies.len(),
    ensures
        order::ranked(scored(tallies, scores)).len() == tallies.len(),
        order::ranked(scored(tallies, scores)).contains(
            (Fused { key: tallies[i].key, score: scores[i], best: tallies[i].best }),
        ),
{
    let all = scored(tallies, scores);
    order::lemma_ranked(all);
    assert(all.contains(all[i]));
}

} // verus!
