//! The best `k` of a stream of scored rows.
use crate::order;
use crate::order::sort_ranked;
use crate::order::Rank;
use crate::score;
use vstd::prelude::*;
use vstd::relations::*;

verus! {

/// A row of a vector store and its similarity, as the bits of a single-precision number.
#[derive(Debug, Clone, Copy, PartialEq, Eq, Structural)]
pub struct Hit {
    pub row: u32,
    pub score: u32,
}

impl Rank for Hit {
    /// The higher score comes first; of equal scores, the lower row.
    open spec fn ahead(self, other: Self) -> bool {
        ||| score::total_key(self.score) > score::total_key(other.score)
        ||| self.score == other.score && self.row <= other.row
    }

    proof fn order_laws() {
        let rel = |a: Hit, b: Hit| a.ahead(b);
        assert forall|x: Hit, y: Hit| #[trigger] rel(x, y) || #[trigger] rel(y, x) by {
            if score::total_key(x.score) == score::total_key(y.score) {
                score::total_key_is_injective(x.score, y.score);
            }
        }
        assert(reflexive(rel));
        assert(antisymmetric(rel));
        assert(transitive(rel));
    }

    fn is_ahead(&self, other: &Self) -> (r: bool) {
        let a: i64 = score::total_order_key(self.score);
        let b: i64 = score::total_order_key(other.score);
        proof {
            if a == b {
                score::total_key_is_injective(self.score, other.score);
            }
        }
        a > b || (a == b && self.row <= other.row)
    }
}

/// The first `k` of `hits` arranged by rank, or all of them where there are fewer.
pub open spec fn top(hits: Seq<Hit>, k: nat) -> Seq<Hit> {
    order::ranked(hits).take(
        if k <= hits.len() {
            k as int
        } else {
            hits.len() as int
        },
    )
}

/// What becomes of the best `k` when `h` arrives: it is added while there is room, and
/// otherwise takes the place of the worst one if its score is greater.
pub open spec fn after_push(best: Seq<Hit>, k: nat, h: Hit) -> Seq<Hit> {
    if best.len() < k {
        order::ranked(best.push(h))
    } else if k > 0 && score::exceeds(h.score, best.last().score) {
        order::ranked(best.drop_last().push(h))
    } else {
        best
    }
}

/// What is kept of `hits`, pushed one after the other.
pub open spec fn kept(hits: Seq<Hit>, k: nat) -> Seq<Hit>
    decreases hits.len(),
{
    if hits.len() == 0 {
        seq![]
    } else {
        after_push(kept(hits.drop_last(), k), k, hits.last())
    }
}

/// A bounded list of the best `k` hits, best first. Avoids sorting every row.
pub struct TopK {
    k: usize,
    best: Vec<Hit>,
}

impl TopK {
    /// How many hits are kept at most.
    pub closed spec fn limit(&self) -> nat {
        self.k as nat
    }

    /// The hits kept, best first.
    pub closed spec fn hits(&self) -> Seq<Hit> {
        self.best@
    }

    /// The hits are in order and within the limit.
    pub open spec fn wf(&self) -> bool {
        &&& self.hits().len() <= self.limit()
        &&& sorted_by(self.hits(), order::by_rank::<Hit>())
    }

    /// An empty list that keeps up to `k` hits.
    pub fn new(k: usize) -> (r: Self)
        ensures
            r.wf(),
            r.limit() == k,
            r.hits() == Seq::<Hit>::empty(),
    {
        TopK { k, best: Vec::new() }
    }

    /// Offers one hit.
    pub fn push(&mut self, h: Hit)
        requires
            old(self).wf(),
        ensures
            final(self).wf(),
            final(self).limit() == old(self).limit(),
            final(self).hits() == after_push(old(self).hits(), old(self).limit(), h),
    {
        if self.best.len() >= self.k {
            if self.k == 0 {
                return ;
            }
            let worst = self.best[self.best.len() - 1];
            if !score::is_greater(h.score, worst.score) {
                return ;
            }
            let ghost before = self.best@;
            self.best.pop();
            proof {
                assert(self.best@ =~= before.drop_last());
            }
        }
        let ghost base = self.best@;
        let n: usize = self.best.len();
        let mut p: usize = 0;
        while p < n && self.best[p].is_ahead(&h)
            invariant
                n == self.best@.len(),
                self.best@ == base,
                p <= n,
                forall|i: int| 0 <= i < p ==> (#[trigger] base[i]).ahead(h),
            decreases n - p,
        {
            p += 1;
        }
        proof {
            Hit::order_laws();
            let rel = |a: Hit, b: Hit| a.ahead(b);
            assert forall|i: int| p <= i < n implies h.ahead(#[trigger] base[i]) by {
                assert(rel(base[p as int], h) || rel(h, base[p as int]));
                if i > p {
                    assert(order::by_rank::<Hit>()(base[p as int], base[i]));
                    assert(rel(h, base[p as int]) && rel(base[p as int], base[i]));
                    assert(rel(h, base[i]));
                }
            }
            lemma_insert_ranked(base, base, p as int, h);
        }
        self.best.insert(p, h);
        proof {
            lemma_ranked_sorted(base.push(h));
        }
    }

    /// The hits kept, best first.
    pub fn into_vec(self) -> (r: Vec<Hit>)
        ensures
            r@ == self.hits(),
    {
        self.best
    }
}

/// The best `k` of `hits`, offered in the order given.
pub fn top_k(hits: &Vec<Hit>, k: usize) -> (r: Vec<Hit>)
    ensures
        r@ == kept(hits@, k as nat),
{
    let mut t = TopK::new(k);
    let mut i: usize = 0;
    while i < hits.len()
        invariant
            i <= hits@.len(),
            t.wf(),
            t.limit() == k,
            t.hits() == kept(hits@.take(i as int), k as nat),
        decreases hits@.len() - i,
    {
        t.push(hits[i]);
        proof {
            let next = hits@.take(i + 1);
            assert(next.drop_last() =~= hits@.take(i as int));
            assert(next.last() == hits@[i as int]);
        }
        i += 1;
    }
    proof {
        assert(hits@.take(hits@.len() as int) =~= hits@);
    }
    t.into_vec()
}

/// All hits of several lists, one list after the other.
pub open spec fn all_hits(lists: Seq<Seq<Hit>>) -> Seq<Hit>
    decreases lists.len(),
{
    if lists.len() == 0 {
        seq![]
    } else {
        all_hits(lists.drop_last()) + lists.last()
    }
}

/// The hits of each list.
pub open spec fn lists_of(lists: Seq<Vec<Hit>>) -> Seq<Seq<Hit>> {
    lists.map_values(|l: Vec<Hit>| l@)
}

/// Merges per-chunk results: every hit in rank order, cut off after `k`.
pub fn merge_hits(lists: &Vec<Vec<Hit>>, k: usize) -> (r: Vec<Hit>)
    ensures
        r@ == top(all_hits(lists_of(lists@)), k as nat),
{
    let mut all: Vec<Hit> = Vec::new();
    let mut i: usize = 0;
    while i < lists.len()
        invariant
            i <= lists@.len(),
            all@ == all_hits(lists_of(lists@.take(i as int))),
        decreases lists@.len() - i,
    {
        let one = &lists[i];
        let ghost before = all@;
        let mut j: usize = 0;
        while j < one.len()
            invariant
                j <= one@.len(),
                all@ == before + one@.take(j as int),
            decreases one@.len() - j,
        {
            all.push(one[j]);
            proof {
                assert(one@.take(j + 1) =~= one@.take(j as int).push(one@[j as int]));
                assert(all@ =~= before + one@.take(j + 1));
            }
            j += 1;
        }
        proof {
            assert(one@.take(one@.len() as int) =~= one@);
            let next = lists_of(lists@.take(i + 1));
            assert(next.drop_last() =~= lists_of(lists@.take(i as int)));
            assert(next.last() == one@);
        }
        i += 1;
    }
    proof {
        assert(lists@.take(lists@.len() as int) =~= lists@);
        order::lemma_ranked(all@);
    }
    let mut out = sort_ranked(&all);
    out.truncate(k);
    proof {
        assert(out@ =~= top(all@, k as nat));
    }
    out
}

// ---------------------------------------------------------------- laws

proof fn lemma_ranked_sorted(s: Seq<Hit>)
    ensures
        sorted_by(order::ranked(s), order::by_rank::<Hit>()),
        order::ranked(s).len() == s.len(),
{
    order::lemma_ranked(s);
}

/// Where `r` is `s` arranged by rank, `h` belongs at the place `p` that splits `r` into what is
/// ahead of `h` and what `h` is ahead of.
proof fn lemma_insert_ranked(s: Seq<Hit>, r: Seq<Hit>, p: int, h: Hit)
    requires
        sorted_by(r, order::by_rank::<Hit>()),
        r.to_multiset() == s.to_multiset(),
        0 <= p <= r.len(),
        forall|i: int| 0 <= i < p ==> (#[trigger] r[i]).ahead(h),
        forall|i: int| p <= i < r.len() ==> h.ahead(#[trigger] r[i]),
    ensures
        r.insert(p, h) == order::ranked(s.push(h)),
{
    let t = r.insert(p, h);
    assert forall|i: int, j: int| 0 <= i < j < t.len() implies #[trigger] order::by_rank::<Hit>()(
        t[i],
        t[j],
    ) by {
        let a = if i < p {
            i
        } else {
            i - 1
        };
        let b = if j < p {
            j
        } else {
            j - 1
        };
        if i != p && j != p {
            assert(order::by_rank::<Hit>()(r[a], r[b]));
        } else if i == p {
            assert(h.ahead(r[b]));
        } else {
            assert(r[a].ahead(h));
        }
    }
    vstd::seq_lib::to_multiset_insert(r, p, h);
    vstd::seq_lib::to_multiset_build(s, h);
    order::lemma_ranked_unique(s.push(h), t);
}

/// There is such a place in every sorted list.
proof fn lemma_place(r: Seq<Hit>, h: Hit) -> (p: int)
    requires
        sorted_by(r, order::by_rank::<Hit>()),
    ensures
        0 <= p <= r.len(),
        forall|i: int| 0 <= i < p ==> (#[trigger] r[i]).ahead(h),
        forall|i: int| p <= i < r.len() ==> h.ahead(#[trigger] r[i]),
    decreases r.len(),
{
    Hit::order_laws();
    let rel = |a: Hit, b: Hit| a.ahead(b);
    if r.len() == 0 {
        0
    } else {
        let n = r.len() - 1;
        if r[n].ahead(h) {
            assert forall|i: int| 0 <= i < r.len() implies (#[trigger] r[i]).ahead(h) by {
                if i < n {
                    assert(order::by_rank::<Hit>()(r[i], r[n]));
                    assert(rel(r[i], r[n]) && rel(r[n], h));
                    assert(rel(r[i], h));
                }
            }
            r.len() as int
        } else {
            let init = r.drop_last();
            assert forall|i: int, j: int| 0 <= i < j < init.len() implies #[trigger] order::by_rank::<
                Hit,
            >()(init[i], init[j]) by {
                assert(order::by_rank::<Hit>()(r[i], r[j]));
            }
            let p = lemma_place(init, h);
            assert forall|i: int| 0 <= i < p implies (#[trigger] r[i]).ahead(h) by {
                assert(init[i].ahead(h));
            }
            assert forall|i: int| p <= i < r.len() implies h.ahead(#[trigger] r[i]) by {
                if i < n {
                    assert(h.ahead(init[i]));
                } else {
                    assert(rel(h, r[n]) || rel(r[n], h));
                }
            }
            p
        }
    }
}

proof fn lemma_take_sorted(r: Seq<Hit>, n: int)
    requires
        sorted_by(r, order::by_rank::<Hit>()),
        0 <= n <= r.len(),
    ensures
        sorted_by(r.take(n), order::by_rank::<Hit>()),
        order::ranked(r.take(n)) == r.take(n),
{
    let t = r.take(n);
    assert forall|i: int, j: int| 0 <= i < j < t.len() implies #[trigger] order::by_rank::<Hit>()(
        t[i],
        t[j],
    ) by {
        assert(order::by_rank::<Hit>()(r[i], r[j]));
    }
    order::lemma_ranked_unique(t, t);
}

/// The best `k` after one more hit depend on the best `k` before it and on that hit alone.
pub proof fn top_after_one_more(hits: Seq<Hit>, k: nat, h: Hit)
    ensures
        top(hits.push(h), k) == top(top(hits, k).push(h), k),
{
    let r = order::ranked(hits);
    order::lemma_ranked(hits);
    let p = lemma_place(r, h);
    lemma_insert_ranked(hits, r, p, h);
    let n = if k <= hits.len() {
        k as int
    } else {
        hits.len() as int
    };
    let t = r.take(n);
    lemma_take_sorted(r, n);
    let q = if p <= n {
        p
    } else {
        n
    };
    assert forall|i: int| 0 <= i < q implies (#[trigger] t[i]).ahead(h) by {
        assert(r[i].ahead(h));
    }
    assert forall|i: int| q <= i < t.len() implies h.ahead(#[trigger] t[i]) by {
        assert(h.ahead(r[i]));
    }
    lemma_insert_ranked(t, t, q, h);
    assert(top(hits.push(h), k) =~= top(t.push(h), k));
}

/// Offering hits row by row keeps exactly the best `k` of them, ties going to the lower row.
pub proof fn rows_in_order_keep_the_best(hits: Seq<Hit>, k: nat)
    requires
        forall|i: int, j: int| 0 <= i < j < hits.len() ==> hits[i].row < hits[j].row,
        forall|i: int| 0 <= i < hits.len() ==> score::ordinary(#[trigger] hits[i].score),
    ensures
        kept(hits, k) == top(hits, k),
    decreases hits.len(),
{
    if hits.len() == 0 {
        order::lemma_ranked(hits);
        assert(kept(hits, k) =~= top(hits, k));
    } else {
        let init = hits.drop_last();
        let h = hits.last();
        rows_in_order_keep_the_best(init, k);
        top_after_one_more(init, k, h);
        assert(init.push(h) =~= hits);
        let t = top(init, k);
        order::lemma_ranked(init);
        lemma_take_sorted(order::ranked(init), t.len() as int);
        order::lemma_ranked(t.push(h));
        if t.len() < k {
            assert(after_push(t, k, h) =~= top(t.push(h), k));
        } else if k == 0 {
            assert(after_push(t, k, h) =~= top(t.push(h), k));
        } else {
            let n = t.len() - 1;
            let worst = t.last();
            assert(order::ranked(init).contains(worst)) by {
                assert(order::ranked(init)[n] == worst);
            }
            assert(init.contains(worst));
            let i = choose|i: int| 0 <= i < init.len() && init[i] == worst;
            assert(hits[i] == worst);
            score::ordinary_scores_compare_by_key(h.score, worst.score);
            if score::exceeds(h.score, worst.score) {
                let u = t.drop_last();
                lemma_take_sorted(t, n as int);
                assert(u =~= t.take(n as int));
                let p = lemma_place(u, h);
                lemma_insert_ranked(u, u, p, h);
                assert forall|i: int| p <= i < t.len() implies h.ahead(#[trigger] t[i]) by {
                    if i < n {
                        assert(h.ahead(u[i]));
                    }
                }
                assert forall|i: int| 0 <= i < p implies (#[trigger] t[i]).ahead(h) by {
                    assert(u[i].ahead(h));
                }
                lemma_insert_ranked(t, t, p, h);
                assert(after_push(t, k, h) =~= top(t.push(h), k));
            } else {
                if score::total_key(worst.score) == score::total_key(h.score) {
                    score::total_key_is_injective(worst.score, h.score);
                }
                assert(worst.ahead(h));
                Hit::order_laws();
                let rel = |a: Hit, b: Hit| a.ahead(b);
                assert forall|i: int| 0 <= i < t.len() implies (#[trigger] t[i]).ahead(h) by {
                    if i < n {
                        assert(order::by_rank::<Hit>()(t[i], t[n as int]));
                        assert(rel(t[i], worst) && rel(worst, h));
                        assert(rel(t[i], h));
                    }
                }
                lemma_insert_ranked(t, t, t.len() as int, h);
                assert(after_push(t, k, h) =~= top(t.push(h), k));
            }
        }
    }
}

/// Cutting a list down to its best `k` loses nothing, whatever is added to it afterwards.
pub proof fn top_of_a_part(a: Seq<Hit>, b: Seq<Hit>, k: nat)
    ensures
        top(top(a, k) + b, k) == top(a + b, k),
    decreases b.len(),
{
    let t = top(a, k);
    if b.len() == 0 {
        order::lemma_ranked(a);
        assert(t + b =~= t);
        assert(a + b =~= a);
        lemma_take_sorted(order::ranked(a), t.len() as int);
        assert(top(t, k) =~= t);
    } else {
        let init = b.drop_last();
        let h = b.last();
        top_of_a_part(a, init, k);
        assert((a + init).push(h) =~= a + b);
        assert((t + init).push(h) =~= t + b);
        top_after_one_more(a + init, k, h);
        top_after_one_more(t + init, k, h);
    }
}

/// Which order two lists are concatenated in does not matter to the result.
proof fn lemma_top_swap(a: Seq<Hit>, b: Seq<Hit>, k: nat)
    ensures
        top(a + b, k) == top(b + a, k),
{
    vstd::seq_lib::lemma_multiset_commutative(a, b);
    vstd::seq_lib::lemma_multiset_commutative(b, a);
    assert((a + b).to_multiset() =~= (b + a).to_multiset());
    order::lemma_ranked_permutation(a + b, b + a);
}

/// A search split into chunks is exact: merging the best `k` of each chunk gives the best `k` of
/// all rows, however the rows were split.
pub proof fn chunked_search_is_exact(chunks: Seq<Seq<Hit>>, k: nat)
    ensures
        top(all_hits(chunks.map_values(|c: Seq<Hit>| top(c, k))), k) == top(all_hits(chunks), k),
    decreases chunks.len(),
{
    let cut = chunks.map_values(|c: Seq<Hit>| top(c, k));
    if chunks.len() == 0 {
        assert(all_hits(cut) =~= all_hits(chunks));
    } else {
        let init = chunks.drop_last();
        let last = chunks.last();
        chunked_search_is_exact(init, k);
        assert(cut.drop_last() =~= init.map_values(|c: Seq<Hit>| top(c, k)));
        let x = all_hits(cut.drop_last());
        let y = all_hits(init);
        // top(x + top(last)) == top(x + last) == top(top(x) + last) == top(y + last)
        lemma_top_swap(x, top(last, k), k);
        top_of_a_part(last, x, k);
        lemma_top_swap(last, x, k);
        top_of_a_part(x, last, k);
        top_of_a_part(y, last, k);
    }
}

/// A parallel search is exact: where each chunk offers its rows in order and keeps `k` of them,
/// merging what the chunks kept gives the best `k` of all rows.
pub proof fn parallel_search_is_exact(chunks: Seq<Seq<Hit>>, k: nat)
    requires
        forall|c: int, i: int, j: int|
            0 <= c < chunks.len() && 0 <= i < j < chunks[c].len() ==> (#[trigger] chunks[c][i]).row
                < (#[trigger] chunks[c][j]).row,
        forall|c: int, i: int|
            0 <= c < chunks.len() && 0 <= i < chunks[c].len() ==> score::ordinary(
                (#[trigger] chunks[c][i]).score,
            ),
    ensures
        top(all_hits(chunks.map_values(|c: Seq<Hit>| kept(c, k))), k) == top(all_hits(chunks), k),
{
    assert forall|c: int| 0 <= c < chunks.len() implies kept(#[trigger] chunks[c], k) == top(
        chunks[c],
        k,
    ) by {
        rows_in_order_keep_the_best(chunks[c], k);
    }
    assert(chunks.map_values(|c: Seq<Hit>| kept(c, k)) =~= chunks.map_values(
        |c: Seq<Hit>| top(c, k),
    ));
    chunked_search_is_exact(chunks, k);
}

/// The best are kept, best first: as many as there is room for, every one of them a hit; the higher
/// number comes first and the lower row of equal ones; and no hit that is left out is ahead of one
/// that is kept.
pub proof fn only_lesser_hits_are_left_out(hits: Seq<Hit>, k: nat, h: Hit, i: int, j: int)
    requires
        0 <= i < top(hits, k).len(),
        0 <= j < top(hits, k).len(),
        hits.contains(h),
    ensures
        top(hits, k).len() == if k <= hits.len() {
            k
        } else {
            hits.len()
        },
        hits.contains(top(hits, k)[i]),
        k >= hits.len() ==> top(hits, k).to_multiset() == hits.to_multiset(),
        i < j ==> score::total_key(top(hits, k)[i].score) >= score::total_key(
            top(hits, k)[j].score,
        ),
        i < j && top(hits, k)[i].score == top(hits, k)[j].score ==> top(hits, k)[i].row <= top(
            hits,
            k,
        )[j].row,
        !top(hits, k).contains(h) ==> {
            &&& score::total_key(top(hits, k)[i].score) >= score::total_key(h.score)
            &&& top(hits, k)[i].score == h.score ==> top(hits, k)[i].row <= h.row
        },
{
    let r = order::ranked(hits);
    let t = top(hits, k);
    order::lemma_ranked(hits);
    assert(r.contains(t[i])) by {
        assert(t[i] == r[i]);
    }
    if k >= hits.len() {
        assert(t =~= r);
    }
    let rel = order::by_rank::<Hit>();
    if i < j {
        assert(t[i] == r[i] && t[j] == r[j]);
        assert(rel(r[i], r[j]));
    }
    if !t.contains(h) {
        assert(r.contains(h));
        let p = choose|p: int| 0 <= p < r.len() && r[p] == h;
        if p < t.len() {
            assert(t[p] == h);
        }
        assert(t[i] == r[i]);
        assert(rel(r[i], r[p]));
    }
}

/// Merging takes in every list whole, one after the other.
pub proof fn every_list_is_merged(a: Seq<Seq<Hit>>, b: Seq<Seq<Hit>>, l: Seq<Hit>)
    ensures
        all_hits(seq![l]) == l,
        all_hits(a + b) == all_hits(a) + all_hits(b),
    decreases b.len(),
{
    assert(seq![l].drop_last() =~= seq![]);
    assert(all_hits(Seq::<Seq<Hit>>::empty()) =~= seq![]);
    reveal_with_fuel(all_hits, 2);
    assert(all_hits(seq![l]) =~= l);
    if b.len() == 0 {
        assert(a + b =~= a);
        assert(all_hits(a + b) =~= all_hits(a) + all_hits(b));
    } else {
        every_list_is_merged(a, b.drop_last(), l);
        assert((a + b).drop_last() =~= a + b.drop_last());
        assert((a + b).last() == b.last());
        assert(all_hits(a + b) =~= all_hits(a) + all_hits(b));
    }
}

} // verus!
