//! From a fused list to the results that are shown: the directory cap, the reranked pool, and the
//! lookups that go with a result.
use crate::fusion::same_key;
use crate::fusion::Key;
use crate::fusion::Met;
use crate::fusion::ResultKind;
use crate::fusion::Term;
use crate::fusion::FULL_WEIGHT;
use crate::order;
use crate::order::sort_ranked;
use crate::order::Rank;
use crate::rollup;
use crate::rollup::is_answer;
use crate::score;
use crate::text;
use vstd::prelude::*;
use vstd::relations::*;

verus! {

// ------------------------------------------------------------------ the directory cap

/// The spacing of 24-bit numbers around `n`.
pub open spec fn unit24(n: nat) -> nat
    decreases n,
{
    if n < 0x100_0000 {
        1
    } else {
        2 * unit24(n / 2)
    }
}

/// `n` rounded to 24 significant bits, as single precision holds it: to the nearest, ties to even.
pub open spec fn rounded24(n: nat) -> nat {
    let u = unit24(n);
    let q = n / u;
    let r = n % u;
    if 2 * r < u || (2 * r == u && q % 2 == 0) {
        q * u
    } else {
        (q + 1) * u
    }
}

/// The numerator of 0.34 in single precision, over 2^25.
pub const DIR_SHARE: u64 = 11_408_507;

/// The share of `limit` that may be directories: 0.34 of it in single precision, rounded to the
/// nearest whole number, and at least one.
pub open spec fn max_dirs(limit: usize) -> int {
    let share = (rounded24(rounded24(limit as nat) * DIR_SHARE as nat) + 0x100_0000) / 0x200_0000;
    if share < 1 {
        1
    } else if share > usize::MAX {
        usize::MAX as int
    } else {
        share as int
    }
}

proof fn lemma_unit24(n: nat)
    ensures
        unit24(n) >= 1,
        unit24(n) <= n || n == 0,
    decreases n,
{
    if n >= 0x100_0000 {
        lemma_unit24(n / 2);
    }
}

fn round24(n: u128) -> (r: u128)
    requires
        n <= 0x1_0000_0000_0000_0000_0000_0000,
    ensures
        r == rounded24(n as nat),
        r <= 2 * n,
{
    let mut m: u128 = n;
    let mut u: u128 = 1;
    proof {
        lemma_unit24(n as nat);
    }
    while m >= 0x100_0000
        invariant
            u >= 1,
            n <= 0x1_0000_0000_0000_0000_0000_0000,
            m >= 1 || n == 0,
            n > 0 ==> u * m <= n,
            n == 0 ==> m == 0,
            unit24(n as nat) == u * unit24(m as nat),
        decreases m,
    {
        proof {
            assert(u * m == u * (2 * (m / 2)) + u * (m % 2)) by (nonlinear_arith)
                requires
                    m == 2 * (m / 2) + m % 2,
            ;
            assert(u * (2 * (m / 2)) == (u * 2) * (m / 2)) by (nonlinear_arith);
            assert(u * (m % 2) >= 0) by (nonlinear_arith)
                requires
                    u >= 0,
                    m % 2 >= 0,
            ;
            assert(u <= u * m) by (nonlinear_arith)
                requires
                    u >= 0,
                    m >= 1,
            ;
            assert(u * (2 * unit24((m / 2) as nat)) == (u * 2) * unit24((m / 2) as nat))
                by (nonlinear_arith);
        }
        m = m / 2;
        u = u * 2;
    }
    proof {
        assert(unit24(m as nat) == 1);
        assert(u * 1 == u) by (nonlinear_arith);
        if n > 0 {
            assert(u <= u * m) by (nonlinear_arith)
                requires
                    u >= 0,
                    m >= 1,
            ;
        }
    }
    let q: u128 = n / u;
    let r: u128 = n % u;
    proof {
        assert(n == q * u + r) by {
            vstd::arithmetic::div_mod::lemma_fundamental_div_mod(n as int, u as int);
            vstd::arithmetic::mul::lemma_mul_is_commutative(u as int, q as int);
        }
        assert((q + 1) * u == q * u + u) by (nonlinear_arith);
        if n == 0 {
            assert(q == 0);
            assert(q * u == 0) by (nonlinear_arith)
                requires
                    q == 0,
            ;
        }
    }
    if 2 * r < u || (2 * r == u && q % 2 == 0) {
        q * u
    } else {
        (q + 1) * u
    }
}

/// Computes `max_dirs`.
pub fn dir_cap(limit: usize) -> (r: usize)
    ensures
        r == max_dirs(limit),
{
    let a: u128 = round24(limit as u128);
    proof {
        assert(a * DIR_SHARE <= 0x2_0000_0000_0000_0000 * 11_408_507) by (nonlinear_arith)
            requires
                a <= 0x2_0000_0000_0000_0000,
                DIR_SHARE == 11_408_507,
        ;
    }
    let b: u128 = round24(a * (DIR_SHARE as u128));
    let share: u128 = (b + 0x100_0000) / 0x200_0000;
    if share < 1 {
        1
    } else if share > usize::MAX as u128 {
        usize::MAX
    } else {
        share as usize
    }
}

/// The keys of one kind, in order.
pub open spec fn of_kind(keys: Seq<Key>, kind: ResultKind) -> Seq<Key>
    decreases keys.len(),
{
    if keys.len() == 0 {
        seq![]
    } else if keys.last().0 == kind {
        of_kind(keys.drop_last(), kind).push(keys.last())
    } else {
        of_kind(keys.drop_last(), kind)
    }
}

/// Goes through `keys` until `limit` are taken: a directory past the cap is held back, anything
/// else is taken. The taken keys, and the directories held back.
pub open spec fn sift(keys: Seq<Key>, limit: nat, cap: nat) -> (Seq<Key>, Seq<Key>)
    decreases keys.len(),
{
    if keys.len() == 0 {
        (seq![], seq![])
    } else {
        let (taken, held) = sift(keys.drop_last(), limit, cap);
        let key = keys.last();
        if taken.len() >= limit {
            (taken, held)
        } else if key.0 == ResultKind::Dir && of_kind(taken, ResultKind::Dir).len() >= cap {
            (taken, held.push(key))
        } else {
            (taken.push(key), held)
        }
    }
}

/// The top `limit` of `keys` under the directory cap, with freed slots given back to the
/// directories that were held back.
pub open spec fn selected(keys: Seq<Key>, limit: usize) -> Seq<Key> {
    if limit == 0 {
        seq![]
    } else {
        let (taken, held) = sift(keys, limit as nat, max_dirs(limit) as nat);
        let room = limit - taken.len();
        taken + held.take(
            if held.len() <= room {
                held.len() as int
            } else {
                room
            },
        )
    }
}

proof fn lemma_sift_bound(keys: Seq<Key>, limit: nat, cap: nat)
    requires
        limit > 0,
    ensures
        sift(keys, limit, cap).0.len() <= limit,
        sift(keys, limit, cap).0.len() + sift(keys, limit, cap).1.len() <= keys.len(),
    decreases keys.len(),
{
    if keys.len() > 0 {
        lemma_sift_bound(keys.drop_last(), limit, cap);
    }
}

/// Takes the top `limit` results, capping how many may be directories.
pub fn select(keys: &Vec<Key>, limit: usize) -> (r: Vec<Key>)
    ensures
        r@ == selected(keys@, limit),
{
    let mut out: Vec<Key> = Vec::new();
    if limit == 0 {
        return out;
    }
    let cap: usize = dir_cap(limit);
    let mut dirs: usize = 0;
    let mut held: Vec<Key> = Vec::new();
    let mut i: usize = 0;
    while i < keys.len() && out.len() < limit
        invariant
            limit > 0,
            cap == max_dirs(limit),
            i <= keys@.len(),
            (out@, held@) == sift(keys@.take(i as int), limit as nat, cap as nat),
            dirs == of_kind(out@, ResultKind::Dir).len(),
            dirs <= out@.len() <= limit,
        decreases keys@.len() - i,
    {
        let key = keys[i];
        proof {
            let next = keys@.take(i + 1);
            assert(next.drop_last() =~= keys@.take(i as int));
            assert(next.last() == key);
            assert(out@.push(key).drop_last() =~= out@);
        }
        if key.0 == ResultKind::Dir && dirs >= cap {
            held.push(key);
        } else {
            if key.0 == ResultKind::Dir {
                dirs += 1;
            }
            out.push(key);
        }
        i += 1;
    }
    let ghost taken = out@;
    proof {
        lemma_sift_frozen(keys@, i as int, limit as nat, cap as nat);
        lemma_sift_bound(keys@, limit as nat, cap as nat);
    }
    let mut j: usize = 0;
    while j < held.len() && out.len() < limit
        invariant
            j <= held@.len(),
            taken.len() <= limit,
            out@ == taken + held@.take(j as int),
            out@.len() <= limit,
        decreases held@.len() - j,
    {
        out.push(held[j]);
        j += 1;
        proof {
            assert(out@ =~= taken + held@.take(j as int));
        }
    }
    proof {
        let room = limit - taken.len();
        assert(j == if held@.len() <= room {
            held@.len() as int
        } else {
            room
        });
    }
    out
}

/// Once `limit` keys are taken, or no key is left, nothing more happens.
proof fn lemma_sift_frozen(keys: Seq<Key>, n: int, limit: nat, cap: nat)
    requires
        0 <= n <= keys.len(),
        n == keys.len() || sift(keys.take(n), limit, cap).0.len() >= limit,
    ensures
        sift(keys, limit, cap) == sift(keys.take(n), limit, cap),
    decreases keys.len(),
{
    if n == keys.len() {
        assert(keys.take(n) =~= keys);
    } else {
        let init = keys.drop_last();
        assert(init.take(n) =~= keys.take(n));
        lemma_sift_frozen(init, n, limit, cap);
    }
}

// ------------------------------------------------------------------ reranking

/// How many of the fused list a reranker is shown: twice the limit, between 20 and 100.
pub fn pool_size(limit: usize) -> (r: usize)
    requires
        limit * 2 <= usize::MAX,
    ensures
        r == (if limit * 2 < 20 {
            20
        } else if limit * 2 > 100 {
            100
        } else {
            limit * 2
        }),
{
    let n: usize = limit * 2;
    if n < 20 {
        20
    } else if n > 100 {
        100
    } else {
        n
    }
}

/// A pool entry with the reranker's score.
#[derive(Debug, Clone, Copy, PartialEq, Eq, Structural)]
pub struct Judged {
    pub index: usize,
    /// Single-precision bits.
    pub score: u32,
}

impl Rank for Judged {
    /// The higher score first; of equal scores, the one that was ahead before.
    open spec fn ahead(self, other: Self) -> bool {
        if self.score != other.score {
            score::total_key(self.score) > score::total_key(other.score)
        } else {
            self.index <= other.index
        }
    }

    proof fn order_laws() {
        let rel = |a: Judged, b: Judged| a.ahead(b);
        assert forall|x: Judged, y: Judged| #[trigger] rel(x, y) || #[trigger] rel(y, x) by {
            if score::total_key(x.score) == score::total_key(y.score) {
                score::total_key_is_injective(x.score, y.score);
            }
        }
        assert(reflexive(rel));
        assert(antisymmetric(rel));
        assert(transitive(rel));
    }

    fn is_ahead(&self, other: &Self) -> (r: bool) {
        if self.score != other.score {
            score::total_order_key(self.score) > score::total_order_key(other.score)
        } else {
            self.index <= other.index
        }
    }
}

/// The pool entries with their scores, in pool order.
pub open spec fn judged(scores: Seq<u32>) -> Seq<Judged> {
    Seq::new(scores.len(), |i: int| Judged { index: i as usize, score: scores[i] })
}

/// A reranker's answer of the wrong length.
#[derive(Debug, Clone, Copy, PartialEq, Eq, Structural)]
pub struct ScoreCount {
    pub scores: usize,
    pub documents: usize,
}

impl ScoreCount {
    /// What the user is told.
    pub fn message(&self) -> (r: String)
        ensures
            r@ == "reranker returned "@ + text::decimal(self.scores as nat) + " scores for "@
                + text::decimal(self.documents as nat) + " documents"@,
    {
        let mut s = String::new();
        s.append("reranker returned ");
        s.append(text::dec(self.scores as u64).as_str());
        s.append(" scores for ");
        s.append(text::dec(self.documents as u64).as_str());
        s.append(" documents");
        proof {
            assert(s@ =~= "reranker returned "@ + text::decimal(self.scores as nat)
                + " scores for "@ + text::decimal(self.documents as nat) + " documents"@);
        }
        s
    }
}

/// The pool in the reranker's order, each key with its score.
pub open spec fn reranked(pool: Seq<Key>, scores: Seq<u32>) -> Seq<(Key, u32)> {
    order::ranked(judged(scores)).map_values(|j: Judged| (pool[j.index as int], j.score))
}

/// Re-orders the pool by the reranker's scores, best first; ties keep the order they had.
pub fn rerank_pool(pool: &Vec<Key>, scores: &Vec<u32>) -> (r: Result<Vec<(Key, u32)>, ScoreCount>)
    ensures
        match r {
            Ok(v) => scores@.len() == pool@.len() && v@ == reranked(pool@, scores@),
            Err(e) => scores@.len() != pool@.len() && e == (ScoreCount {
                scores: scores@.len() as usize,
                documents: pool@.len() as usize,
            }),
        },
{
    if scores.len() != pool.len() {
        return Err(ScoreCount { scores: scores.len(), documents: pool.len() });
    }
    let mut all: Vec<Judged> = Vec::new();
    let mut i: usize = 0;
    while i < scores.len()
        invariant
            i <= scores@.len(),
            all@ == judged(scores@).take(i as int),
        decreases scores@.len() - i,
    {
        all.push(Judged { index: i, score: scores[i] });
        i += 1;
        proof {
            assert(all@ =~= judged(scores@).take(i as int));
        }
    }
    proof {
        assert(all@ =~= judged(scores@));
        order::lemma_ranked(judged(scores@));
    }
    let sorted = sort_ranked(&all);
    let n: usize = pool.len();
    let mut out: Vec<(Key, u32)> = Vec::new();
    let mut j: usize = 0;
    while j < sorted.len()
        invariant
            n == pool@.len(),
            scores@.len() == pool@.len(),
            sorted@ == order::ranked(judged(scores@)),
            forall|x: Judged| #[trigger] sorted@.contains(x) ==> judged(scores@).contains(x),
            j <= sorted@.len(),
            out@ == reranked(pool@, scores@).take(j as int),
        decreases sorted@.len() - j,
    {
        let e = sorted[j];
        proof {
            assert(sorted@.contains(e));
            let k = choose|k: int| 0 <= k < judged(scores@).len() && judged(scores@)[k] == e;
            assert(e.index == k);
        }
        out.push((pool[e.index], e.score));
        j += 1;
        proof {
            assert(out@ =~= reranked(pool@, scores@).take(j as int));
        }
    }
    proof {
        assert(out@ =~= reranked(pool@, scores@));
    }
    Ok(out)
}

/// The first `n` keys, or all of them.
pub open spec fn head_of(keys: Seq<Key>, n: int) -> Seq<Key> {
    keys.take(
        if n <= keys.len() {
            n
        } else {
            keys.len() as int
        },
    )
}

/// The keys of `keys` that are not in `seen`, in order.
pub open spec fn unseen(keys: Seq<Key>, seen: Seq<Key>) -> Seq<Key>
    decreases keys.len(),
{
    if keys.len() == 0 {
        seq![]
    } else if seen.contains(keys.last()) {
        unseen(keys.drop_last(), seen)
    } else {
        unseen(keys.drop_last(), seen).push(keys.last())
    }
}

/// The keys to show. Without a reranked pool they are selected from the fused list; with one they
/// are selected from the pool, and where the pool cannot fill the limit the fused list behind it
/// does, in fused order.
pub open spec fn final_keys(fused: Seq<Key>, pool: Option<Seq<Key>>, limit: usize) -> Seq<Key> {
    match pool {
        None => selected(fused, limit),
        Some(p) => {
            let head = selected(p, limit);
            if head.len() < limit && fused.len() > p.len() {
                head + head_of(unseen(fused.skip(p.len() as int), head), limit - head.len())
            } else {
                head
            }
        },
    }
}

/// Whether `key` is in `keys`.
pub fn has_key(keys: &Vec<Key>, key: Key) -> (r: bool)
    ensures
        r == keys@.contains(key),
{
    let mut i: usize = 0;
    while i < keys.len()
        invariant
            i <= keys@.len(),
            forall|k: int| 0 <= k < i ==> keys@[k] != key,
        decreases keys@.len() - i,
    {
        if same_key(keys[i], key) {
            proof {
                assert(keys@[i as int] == key);
            }
            return true;
        }
        i += 1;
    }
    false
}

/// Decides which keys to show.
pub fn choose_keys(fused: &Vec<Key>, pool: &Option<Vec<Key>>, limit: usize) -> (r: Vec<Key>)
    ensures
        r@ == final_keys(
            fused@,
            match pool {
                Some(p) => Some(p@),
                None => None,
            },
            limit,
        ),
{
    match pool {
        None => select(fused, limit),
        Some(p) => {
            let mut out = select(p, limit);
            let ghost head = out@;
            proof {
                if limit > 0 {
                    lemma_sift_bound(p@, limit as nat, max_dirs(limit) as nat);
                }
            }
            if out.len() >= limit || fused.len() <= p.len() {
                return out;
            }
            let seen = select(p, limit);
            let ghost rest = fused@.skip(p@.len() as int);
            let mut i: usize = p.len();
            while i < fused.len() && out.len() < limit
                invariant
                    p@.len() <= i <= fused@.len(),
                    rest == fused@.skip(p@.len() as int),
                    seen@ == head,
                    head.len() <= limit,
                    out@ == head + unseen(rest.take(i - p@.len()), head),
                    out@.len() <= limit,
                decreases fused@.len() - i,
            {
                let key = fused[i];
                proof {
                    let next = rest.take(i + 1 - p@.len());
                    assert(next.drop_last() =~= rest.take(i - p@.len()));
                    assert(next.last() == key);
                }
                if !has_key(&seen, key) {
                    out.push(key);
                }
                proof {
                    assert(out@ =~= head + unseen(rest.take(i + 1 - p@.len()), head));
                }
                i += 1;
            }
            proof {
                lemma_unseen_take(rest, i - p@.len(), head);
                let all = unseen(rest, head);
                let room = limit - head.len();
                if i == fused@.len() {
                    assert(rest.take(i - p@.len()) =~= rest);
                    assert(head_of(all, room) =~= all);
                } else {
                    assert(head_of(all, room) =~= unseen(rest.take(i - p@.len()), head));
                }
            }
            out
        },
    }
}

/// Leaving out what was seen goes key by key.
proof fn lemma_unseen_take(keys: Seq<Key>, n: int, seen: Seq<Key>)
    requires
        0 <= n <= keys.len(),
    ensures
        unseen(keys.take(n), seen).len() <= unseen(keys, seen).len(),
        unseen(keys, seen).take(unseen(keys.take(n), seen).len() as int) == unseen(
            keys.take(n),
            seen,
        ),
    decreases keys.len(),
{
    if n == keys.len() {
        assert(keys.take(n) =~= keys);
        assert(unseen(keys, seen).take(unseen(keys, seen).len() as int) =~= unseen(keys, seen));
    } else {
        let init = keys.drop_last();
        assert(init.take(n) =~= keys.take(n));
        lemma_unseen_take(init, n, seen);
        let part = unseen(keys.take(n), seen);
        assert(unseen(keys, seen).take(part.len() as int) =~= unseen(init, seen).take(
            part.len() as int,
        ));
    }
}

// ------------------------------------------------------------------ lookups

/// The value that a list of assignments leaves `key` with: that of the last one.
pub open spec fn last_value<T>(pairs: Seq<(Key, T)>, key: Key) -> Option<T>
    decreases pairs.len(),
{
    if pairs.len() == 0 {
        None
    } else if pairs.last().0 == key {
        Some(pairs.last().1)
    } else {
        last_value(pairs.drop_last(), key)
    }
}

/// The value that a list of assignments leaves `key` with.
pub fn value_of<T: Copy>(pairs: &Vec<(Key, T)>, key: Key) -> (r: Option<T>)
    ensures
        r == last_value(pairs@, key),
{
    let mut n: usize = pairs.len();
    proof {
        assert(pairs@.take(n as int) =~= pairs@);
    }
    while n > 0
        invariant
            n <= pairs@.len(),
            last_value(pairs@, key) == last_value(pairs@.take(n as int), key),
        decreases n,
    {
        let p = pairs[n - 1];
        proof {
            assert(pairs@.take(n as int).drop_last() =~= pairs@.take(n - 1));
            assert(pairs@.take(n as int).last() == p);
        }
        if same_key(p.0, key) {
            return Some(p.1);
        }
        n -= 1;
    }
    None
}

/// Each key of `list` with its position, counted from 1.
pub open spec fn positions(list: Seq<Key>) -> Seq<(Key, usize)> {
    Seq::new(list.len(), |i: int| (list[i], (i + 1) as usize))
}

/// The positions in the first list, then those in the second.
pub open spec fn rank_pairs(first: Seq<Key>, second: Seq<Key>) -> Seq<(Key, usize)> {
    positions(first) + positions(second)
}

/// Position of each key in its own ranked list, counted from 1. The lists are disjoint: one holds
/// files, the other directories.
pub fn ranks(first: &Vec<Key>, second: &Vec<Key>) -> (r: Vec<(Key, usize)>)
    ensures
        r@ == rank_pairs(first@, second@),
{
    let mut out: Vec<(Key, usize)> = Vec::new();
    let mut i: usize = 0;
    while i < first.len()
        invariant
            i <= first@.len(),
            out@ == positions(first@).take(i as int),
        decreases first@.len() - i,
    {
        out.push((first[i], i + 1));
        i += 1;
        proof {
            assert(out@ =~= positions(first@).take(i as int));
        }
    }
    proof {
        assert(out@ =~= positions(first@));
    }
    let mut j: usize = 0;
    while j < second.len()
        invariant
            j <= second@.len(),
            out@ == positions(first@) + positions(second@).take(j as int),
        decreases second@.len() - j,
    {
        out.push((second[j], j + 1));
        j += 1;
        proof {
            assert(out@ =~= positions(first@) + positions(second@).take(j as int));
        }
    }
    proof {
        assert(out@ =~= rank_pairs(first@, second@));
    }
    out
}

/// `keys` with every key kept only where it first occurs.
pub open spec fn first_seen(keys: Seq<Key>) -> Seq<Key>
    decreases keys.len(),
{
    if keys.len() == 0 {
        seq![]
    } else {
        let init = first_seen(keys.drop_last());
        if init.contains(keys.last()) {
            init
        } else {
            init.push(keys.last())
        }
    }
}

/// The files of both arms, dense order first, then what only the lexical arm found.
pub fn best_files(dense: &Vec<Key>, lexical: &Vec<Key>) -> (r: Vec<Key>)
    ensures
        r@ == first_seen(dense@ + lexical@),
{
    let ghost all = dense@ + lexical@;
    let mut out: Vec<Key> = Vec::new();
    let mut i: usize = 0;
    while i < dense.len()
        invariant
            all == dense@ + lexical@,
            i <= dense@.len(),
            out@ == first_seen(all.take(i as int)),
        decreases dense@.len() - i,
    {
        proof {
            assert(all.take(i + 1).drop_last() =~= all.take(i as int));
        }
        if !has_key(&out, dense[i]) {
            out.push(dense[i]);
        }
        i += 1;
    }
    let mut j: usize = 0;
    while j < lexical.len()
        invariant
            all == dense@ + lexical@,
            j <= lexical@.len(),
            out@ == first_seen(all.take(dense@.len() + j)),
        decreases lexical@.len() - j,
    {
        proof {
            assert(all.take(dense@.len() + j + 1).drop_last() =~= all.take(dense@.len() + j));
        }
        if !has_key(&out, lexical[j]) {
            out.push(lexical[j]);
        }
        j += 1;
    }
    proof {
        assert(all.take(all.len() as int) =~= all);
    }
    out
}

// ------------------------------------------------------------------ directories from children

/// Where `id` was ranked, counted from 1; the last place where it occurs.
pub open spec fn place_of(files: Seq<Key>, id: i64) -> Option<usize>
    decreases files.len(),
{
    if files.len() == 0 {
        None
    } else if files.last().1 == id {
        Some(files.len() as usize)
    } else {
        place_of(files.drop_last(), id)
    }
}

fn find_place(files: &Vec<Key>, id: i64) -> (r: Option<usize>)
    ensures
        r == place_of(files@, id),
{
    let mut n: usize = files.len();
    proof {
        assert(files@.take(n as int) =~= files@);
    }
    while n > 0
        invariant
            n <= files@.len(),
            place_of(files@, id) == place_of(files@.take(n as int), id),
        decreases n,
    {
        proof {
            assert(files@.take(n as int).drop_last() =~= files@.take(n - 1));
            assert(files@.take(n as int).last() == files@[n - 1]);
        }
        if files[n - 1].1 == id {
            return Some(n);
        }
        n -= 1;
    }
    None
}

/// A file's row with the directory that holds it.
#[derive(Debug, Clone)]
pub struct Parent {
    pub file: i64,
    pub dir: i64,
    /// Where the directory is.
    pub path: String,
}

/// What each row adds to its directory: full weight at the file's rank. A row whose file was not
/// ranked adds nothing, and neither does one whose directory is a configured root: that is the
/// container the user chose to search, never an answer to a query.
pub open spec fn credits(files: Seq<Key>, rows: Seq<Parent>, roots: Seq<Seq<char>>) -> Seq<Met>
    decreases rows.len(),
{
    if rows.len() == 0 {
        seq![]
    } else {
        let before = credits(files, rows.drop_last(), roots);
        let row = rows.last();
        match place_of(files, row.file) {
            Some(rank) => if rollup::is_root(row.path@, roots) {
                before
            } else {
                before.push(
                    Met {
                        key: (ResultKind::Dir, row.dir),
                        term: Term { weight: FULL_WEIGHT, rank },
                    },
                )
            },
            None => before,
        }
    }
}

/// Whether `key` is the directory of some row, and no root.
pub open spec fn is_creditable(key: Key, rows: Seq<Parent>, roots: Seq<Seq<char>>) -> bool {
    &&& key.0 == ResultKind::Dir
    &&& exists|i: int|
        0 <= i < rows.len() && (#[trigger] rows[i]).dir == key.1 && !rollup::is_root(
            rows[i].path@,
            roots,
        )
}

/// Credits directories with the ranks of the files in them. Roots get no credit.
pub fn credit_parents(files: &Vec<Key>, rows: &Vec<Parent>, roots: &Vec<String>) -> (r: Vec<Met>)
    ensures
        r@ == credits(files@, rows@, text::views(roots@)),
        forall|m: int|
            0 <= m < r@.len() ==> is_creditable(
                (#[trigger] r@[m]).key,
                rows@,
                text::views(roots@),
            ),
{
    let mut out: Vec<Met> = Vec::new();
    let mut i: usize = 0;
    while i < rows.len()
        invariant
            i <= rows@.len(),
            out@ == credits(files@, rows@.take(i as int), text::views(roots@)),
        decreases rows@.len() - i,
    {
        let row = &rows[i];
        proof {
            assert(rows@.take(i + 1).drop_last() =~= rows@.take(i as int));
            assert(rows@.take(i + 1).last() == *row);
        }
        if let Some(rank) = find_place(files, row.file) {
            if is_answer(row.path.as_str(), roots) {
                out.push(
                    Met {
                        key: (ResultKind::Dir, row.dir),
                        term: Term { weight: FULL_WEIGHT, rank },
                    },
                );
            }
        }
        i += 1;
    }
    proof {
        assert(rows@.take(rows@.len() as int) =~= rows@);
        assert forall|m: int| 0 <= m < out@.len() implies is_creditable(
            (#[trigger] out@[m]).key,
            rows@,
            text::views(roots@),
        ) by {
            lemma_credits(files@, rows@, text::views(roots@), m);
        }
    }
    out
}

/// Every credit comes from a row whose directory is no root.
pub proof fn lemma_credits(files: Seq<Key>, rows: Seq<Parent>, roots: Seq<Seq<char>>, m: int)
    requires
        0 <= m < credits(files, rows, roots).len(),
    ensures
        is_creditable(credits(files, rows, roots)[m].key, rows, roots),
    decreases rows.len(),
{
    let key = credits(files, rows, roots)[m].key;
    let init = rows.drop_last();
    let before = credits(files, init, roots);
    if m < before.len() {
        lemma_credits(files, init, roots, m);
        assert(before[m].key == key);
        let i = choose|i: int|
            0 <= i < init.len() && (#[trigger] init[i]).dir == key.1 && !rollup::is_root(
                init[i].path@,
                roots,
            );
        assert(rows[i] == init[i]);
    } else {
        assert(rows[rows.len() - 1] == rows.last());
    }
}

/// A configured root is never credited by the files in it: a directory that is a root in every row
/// that names it gets no credit.
pub proof fn a_root_is_never_credited(
    files: Seq<Key>,
    rows: Seq<Parent>,
    roots: Seq<Seq<char>>,
    dir: i64,
    m: int,
)
    requires
        forall|i: int|
            0 <= i < rows.len() && (#[trigger] rows[i]).dir == dir ==> rollup::is_root(
                rows[i].path@,
                roots,
            ),
        0 <= m < credits(files, rows, roots).len(),
    ensures
        credits(files, rows, roots)[m].key != (ResultKind::Dir, dir),
{
    lemma_credits(files, rows, roots, m);
}

/// A directory with the credit that its children earned.
#[derive(Debug, Clone, Copy, PartialEq, Eq, Structural)]
pub struct Credit {
    pub id: i64,
    /// Single-precision bits.
    pub score: u32,
}

impl Rank for Credit {
    /// The higher credit first; of equal credits, the lower id.
    open spec fn ahead(self, other: Self) -> bool {
        if self.score != other.score {
            score::total_key(self.score) > score::total_key(other.score)
        } else {
            self.id <= other.id
        }
    }

    proof fn order_laws() {
        let rel = |a: Credit, b: Credit| a.ahead(b);
        assert forall|x: Credit, y: Credit| #[trigger] rel(x, y) || #[trigger] rel(y, x) by {
            if score::total_key(x.score) == score::total_key(y.score) {
                score::total_key_is_injective(x.score, y.score);
            }
        }
        assert(reflexive(rel));
        assert(antisymmetric(rel));
        assert(transitive(rel));
    }

    fn is_ahead(&self, other: &Self) -> (r: bool) {
        if self.score != other.score {
            score::total_order_key(self.score) > score::total_order_key(other.score)
        } else {
            self.id <= other.id
        }
    }
}

/// The `limit` directories with the most credit, best first.
pub open spec fn top_dirs(credits: Seq<Credit>, limit: usize) -> Seq<Key> {
    let keys = order::ranked(credits).map_values(|c: Credit| (ResultKind::Dir, c.id));
    head_of(keys, limit as int)
}

/// The `limit` directories with the most credit, best first.
pub fn rank_dirs(credits: &Vec<Credit>, limit: usize) -> (r: Vec<Key>)
    ensures
        r@ == top_dirs(credits@, limit),
{
    let sorted = sort_ranked(credits);
    let ghost keys = order::ranked(credits@).map_values(|c: Credit| (ResultKind::Dir, c.id));
    let mut out: Vec<Key> = Vec::new();
    let mut i: usize = 0;
    while i < sorted.len() && i < limit
        invariant
            sorted@ == order::ranked(credits@),
            keys == order::ranked(credits@).map_values(|c: Credit| (ResultKind::Dir, c.id)),
            i <= sorted@.len(),
            i <= limit,
            out@ == keys.take(i as int),
        decreases sorted@.len() - i,
    {
        out.push((ResultKind::Dir, sorted[i].id));
        i += 1;
        proof {
            assert(out@ =~= keys.take(i as int));
        }
    }
    proof {
        assert(out@ =~= top_dirs(credits@, limit));
    }
    out
}

// ------------------------------------------------------------------ laws

proof fn lemma_of_kind_push(keys: Seq<Key>, key: Key, kind: ResultKind)
    ensures
        of_kind(keys.push(key), kind) == if key.0 == kind {
            of_kind(keys, kind).push(key)
        } else {
            of_kind(keys, kind)
        },
{
    assert(keys.push(key).drop_last() =~= keys);
}

proof fn lemma_of_kind_add(a: Seq<Key>, b: Seq<Key>, kind: ResultKind)
    ensures
        of_kind(a + b, kind) == of_kind(a, kind) + of_kind(b, kind),
    decreases b.len(),
{
    if b.len() == 0 {
        assert(a + b =~= a);
        assert(of_kind(a, kind) + of_kind(b, kind) =~= of_kind(a, kind));
    } else {
        lemma_of_kind_add(a, b.drop_last(), kind);
        assert((a + b).drop_last() =~= a + b.drop_last());
        assert(of_kind(a + b, kind) =~= of_kind(a, kind) + of_kind(b, kind));
    }
}

proof fn lemma_of_kind_pure(keys: Seq<Key>, kind: ResultKind, other: ResultKind)
    requires
        forall|i: int| 0 <= i < keys.len() ==> (#[trigger] keys[i]).0 == kind,
    ensures
        of_kind(keys, kind) == keys,
        other != kind ==> of_kind(keys, other) == Seq::<Key>::empty(),
    decreases keys.len(),
{
    if keys.len() > 0 {
        assert forall|i: int| 0 <= i < keys.drop_last().len() implies (
        #[trigger] keys.drop_last()[i]).0 == kind by {
            assert(keys[i].0 == kind);
        }
        assert(keys.last() == keys[keys.len() - 1]);
        lemma_of_kind_pure(keys.drop_last(), kind, other);
        assert(of_kind(keys, kind) =~= keys);
    }
}

proof fn lemma_kinds_partition(keys: Seq<Key>)
    ensures
        of_kind(keys, ResultKind::File).len() + of_kind(keys, ResultKind::Dir).len() == keys.len(),
    decreases keys.len(),
{
    if keys.len() > 0 {
        lemma_kinds_partition(keys.drop_last());
    }
}

/// How far the sifting went, and what it has made of that part.
proof fn lemma_sifted(keys: Seq<Key>, limit: nat, cap: nat) -> (n: int)
    requires
        limit > 0,
    ensures
        0 <= n <= keys.len(),
        n == keys.len() || sift(keys, limit, cap).0.len() == limit,
        ({
            let (taken, held) = sift(keys, limit, cap);
            let part = keys.take(n);
            &&& taken.len() <= limit
            &&& of_kind(taken, ResultKind::File) == of_kind(part, ResultKind::File)
            &&& of_kind(taken, ResultKind::Dir) + held == of_kind(part, ResultKind::Dir)
            &&& of_kind(taken, ResultKind::Dir).len() <= cap
            &&& held.len() > 0 ==> of_kind(taken, ResultKind::Dir).len() == cap
            &&& forall|i: int| 0 <= i < held.len() ==> (#[trigger] held[i]).0 == ResultKind::Dir
        }),
    decreases keys.len(),
{
    if keys.len() == 0 {
        assert(keys.take(0) =~= keys);
        assert(Seq::<Key>::empty() + Seq::<Key>::empty() =~= Seq::<Key>::empty());
        0
    } else {
        let init = keys.drop_last();
        let key = keys.last();
        let m = lemma_sifted(init, limit, cap);
        let (taken, held) = sift(init, limit, cap);
        if taken.len() >= limit {
            assert(init.take(m) =~= keys.take(m));
            m
        } else {
            assert(init.take(m) =~= init);
            assert(keys.take(keys.len() as int) =~= init.push(key));
            lemma_of_kind_push(init, key, ResultKind::File);
            lemma_of_kind_push(init, key, ResultKind::Dir);
            lemma_of_kind_push(taken, key, ResultKind::File);
            lemma_of_kind_push(taken, key, ResultKind::Dir);
            if key.0 == ResultKind::Dir && of_kind(taken, ResultKind::Dir).len() >= cap {
                assert(of_kind(taken, ResultKind::Dir) + held.push(key) =~= (of_kind(
                    taken,
                    ResultKind::Dir,
                ) + held).push(key));
            } else if key.0 == ResultKind::Dir {
                assert(held =~= Seq::<Key>::empty());
                assert(of_kind(taken, ResultKind::Dir).push(key) + held =~= (of_kind(
                    taken,
                    ResultKind::Dir,
                ) + held).push(key));
            }
            keys.len() as int
        }
    }
}

/// Selection wastes no slot: it shows `limit` results, or every candidate where there are fewer.
pub proof fn selection_fills_the_limit(keys: Seq<Key>, limit: usize)
    ensures
        selected(keys, limit).len() == if keys.len() <= limit {
            keys.len()
        } else {
            limit as nat
        },
{
    if limit > 0 {
        let cap = max_dirs(limit) as nat;
        let n = lemma_sifted(keys, limit as nat, cap);
        let (taken, held) = sift(keys, limit as nat, cap);
        lemma_kinds_partition(keys.take(n));
        lemma_kinds_partition(taken);
        assert(keys.take(keys.len() as int) =~= keys);
    }
}

/// Selection never reorders within a kind: the files shown are the first files of the list, and
/// the directories shown are its first directories.
pub proof fn selection_keeps_each_kinds_order(keys: Seq<Key>, limit: usize, kind: ResultKind)
    ensures
        ({
            let shown = of_kind(selected(keys, limit), kind);
            &&& shown.len() <= of_kind(keys, kind).len()
            &&& shown == of_kind(keys, kind).take(shown.len() as int)
        }),
{
    let shown = of_kind(selected(keys, limit), kind);
    if limit == 0 {
        assert(shown =~= of_kind(keys, kind).take(0));
    } else {
        let cap = max_dirs(limit) as nat;
        let n = lemma_sifted(keys, limit as nat, cap);
        let (taken, held) = sift(keys, limit as nat, cap);
        let room = limit - taken.len();
        let m = if held.len() <= room {
            held.len() as int
        } else {
            room
        };
        let back = held.take(m);
        assert forall|i: int| 0 <= i < back.len() implies (#[trigger] back[i]).0
            == ResultKind::Dir by {
            assert(back[i] == held[i]);
        }
        lemma_of_kind_pure(back, ResultKind::Dir, ResultKind::File);
        lemma_of_kind_add(taken, back, kind);
        lemma_of_kind_add(keys.take(n), keys.skip(n), kind);
        assert(keys.take(n) + keys.skip(n) =~= keys);
        if kind == ResultKind::File {
            assert(shown =~= of_kind(taken, kind));
        } else {
            assert(shown =~= (of_kind(taken, kind) + held).take(of_kind(taken, kind).len() + m));
        }
        assert(shown =~= of_kind(keys, kind).take(shown.len() as int));
    }
}

/// Directories go past their cap only into slots that no file is left to fill.
pub proof fn directories_past_the_cap_displace_no_file(keys: Seq<Key>, limit: usize)
    requires
        of_kind(selected(keys, limit), ResultKind::Dir).len() > max_dirs(limit),
    ensures
        of_kind(selected(keys, limit), ResultKind::File) == of_kind(keys, ResultKind::File),
{
    if limit > 0 {
        let cap = max_dirs(limit) as nat;
        let n = lemma_sifted(keys, limit as nat, cap);
        let (taken, held) = sift(keys, limit as nat, cap);
        let room = limit - taken.len();
        let m = if held.len() <= room {
            held.len() as int
        } else {
            room
        };
        let back = held.take(m);
        assert forall|i: int| 0 <= i < back.len() implies (#[trigger] back[i]).0
            == ResultKind::Dir by {
            assert(back[i] == held[i]);
        }
        lemma_of_kind_pure(back, ResultKind::Dir, ResultKind::File);
        lemma_of_kind_add(taken, back, ResultKind::Dir);
        lemma_of_kind_add(taken, back, ResultKind::File);
        assert(keys.take(keys.len() as int) =~= keys);
        assert(of_kind(taken, ResultKind::File) + Seq::<Key>::empty() =~= of_kind(
            taken,
            ResultKind::File,
        ));
    }
}

/// Reranking loses and invents nothing: the pool comes back as a permutation of itself.
pub proof fn reranking_permutes_the_pool(pool: Seq<Key>, scores: Seq<u32>)
    requires
        pool.len() == scores.len(),
        pool.len() <= usize::MAX,
    ensures
        reranked(pool, scores).len() == pool.len(),
        forall|key: Key|
            #[trigger] pool.contains(key) <==> reranked(pool, scores).map_values(
                |p: (Key, u32)| p.0,
            ).contains(key),
{
    let all = judged(scores);
    let sorted = order::ranked(all);
    let keys = reranked(pool, scores).map_values(|p: (Key, u32)| p.0);
    order::lemma_ranked(all);
    assert forall|key: Key| #[trigger] pool.contains(key) <==> keys.contains(key) by {
        if pool.contains(key) {
            let i = choose|i: int| 0 <= i < pool.len() && pool[i] == key;
            assert(all.contains(all[i]));
            assert(sorted.contains(all[i]));
            let j = choose|j: int| 0 <= j < sorted.len() && sorted[j] == all[i];
            assert(keys[j] == key);
        }
        if keys.contains(key) {
            let j = choose|j: int| 0 <= j < keys.len() && keys[j] == key;
            assert(sorted.contains(sorted[j]));
            assert(all.contains(sorted[j]));
            let i = choose|i: int| 0 <= i < all.len() && all[i] == sorted[j];
            assert(pool[i] == key);
        }
    }
}

/// Equal reranker scores leave candidates in fused order.
pub proof fn reranking_ties_keep_the_fused_order(scores: Seq<u32>, i: int, j: int)
    requires
        scores.len() <= usize::MAX,
        0 <= i < j < scores.len(),
        order::ranked(judged(scores))[i].score == order::ranked(judged(scores))[j].score,
    ensures
        order::ranked(judged(scores))[i].index <= order::ranked(judged(scores))[j].index,
{
    let sorted = order::ranked(judged(scores));
    order::lemma_ranked(judged(scores));
    assert(order::by_rank::<Judged>()(sorted[i], sorted[j]));
}

proof fn lemma_sift_subset(keys: Seq<Key>, limit: nat, cap: nat)
    ensures
        forall|key: Key| #[trigger] sift(keys, limit, cap).0.contains(key) ==> keys.contains(key),
        forall|key: Key| #[trigger] sift(keys, limit, cap).1.contains(key) ==> keys.contains(key),
    decreases keys.len(),
{
    if keys.len() > 0 {
        let init = keys.drop_last();
        lemma_sift_subset(init, limit, cap);
        let (t0, h0) = sift(init, limit, cap);
        let (t1, h1) = sift(keys, limit, cap);
        assert forall|key: Key| init.contains(key) implies #[trigger] keys.contains(key) by {
            let i = choose|i: int| 0 <= i < init.len() && init[i] == key;
            assert(keys[i] == key);
        }
        assert(keys.contains(keys.last())) by {
            assert(keys[keys.len() - 1] == keys.last());
        }
        assert forall|key: Key| #[trigger] t1.contains(key) implies keys.contains(key) by {
            let i = choose|i: int| 0 <= i < t1.len() && t1[i] == key;
            if i < t0.len() {
                assert(t0[i] == key);
                assert(t0.contains(key));
            }
        }
        assert forall|key: Key| #[trigger] h1.contains(key) implies keys.contains(key) by {
            let i = choose|i: int| 0 <= i < h1.len() && h1[i] == key;
            if i < h0.len() {
                assert(h0[i] == key);
                assert(h0.contains(key));
            }
        }
    }
}

/// Only candidates are shown.
pub proof fn selection_shows_only_candidates(keys: Seq<Key>, limit: usize, key: Key)
    requires
        selected(keys, limit).contains(key),
    ensures
        keys.contains(key),
{
    if limit > 0 {
        let cap = max_dirs(limit) as nat;
        lemma_sift_subset(keys, limit as nat, cap);
        lemma_sift_bound(keys, limit as nat, cap);
        let (taken, held) = sift(keys, limit as nat, cap);
        let i = choose|i: int|
            0 <= i < selected(keys, limit).len() && selected(keys, limit)[i] == key;
        if i < taken.len() {
            assert(taken[i] == key);
            assert(taken.contains(key));
        } else {
            assert(held[i - taken.len()] == key);
            assert(held.contains(key));
        }
    }
}

proof fn lemma_nothing_seen(keys: Seq<Key>, seen: Seq<Key>)
    requires
        forall|i: int| 0 <= i < keys.len() ==> !seen.contains(#[trigger] keys[i]),
    ensures
        unseen(keys, seen) == keys,
    decreases keys.len(),
{
    if keys.len() > 0 {
        let init = keys.drop_last();
        assert forall|i: int| 0 <= i < init.len() implies !seen.contains(#[trigger] init[i]) by {
            assert(keys[i] == init[i]);
        }
        assert(keys.last() == keys[keys.len() - 1]);
        lemma_nothing_seen(init, seen);
        assert(unseen(keys, seen) =~= keys);
    }
}

/// A large limit is never silently truncated by reranking: with a pool drawn from the head of the
/// fused list, the results still fill the limit, or show every candidate.
pub proof fn reranking_never_truncates(fused: Seq<Key>, pool: Seq<Key>, limit: usize)
    requires
        fused.no_duplicates(),
        pool.len() <= fused.len(),
        forall|key: Key|
            #[trigger] pool.contains(key) ==> fused.take(pool.len() as int).contains(key),
    ensures
        final_keys(fused, Some(pool), limit).len() == if fused.len() <= limit {
            fused.len()
        } else {
            limit as nat
        },
{
    let head = selected(pool, limit);
    selection_fills_the_limit(pool, limit);
    let rest = fused.skip(pool.len() as int);
    assert forall|i: int| 0 <= i < rest.len() implies !head.contains(#[trigger] rest[i]) by {
        if head.contains(rest[i]) {
            selection_shows_only_candidates(pool, limit, rest[i]);
            let front = fused.take(pool.len() as int);
            let j = choose|j: int| 0 <= j < front.len() && front[j] == rest[i];
            assert(fused[j] == fused[pool.len() + i]);
        }
    }
    lemma_nothing_seen(rest, head);
}

/// The keys of a kind are those of the list that have it, in order.
pub proof fn a_kind_is_picked_in_order(keys: Seq<Key>, kind: ResultKind)
    ensures
        of_kind(keys, kind) == keys.filter(|k: Key| k.0 == kind),
    decreases keys.len(),
{
    reveal(Seq::filter);
    if keys.len() > 0 {
        a_kind_is_picked_in_order(keys.drop_last(), kind);
    }
}

/// Where no more directories stand among the first `limit` keys than may be shown, these keys are
/// shown, in their order.
pub proof fn within_the_cap_the_head_is_shown(keys: Seq<Key>, limit: usize)
    requires
        of_kind(head_of(keys, limit as int), ResultKind::Dir).len() <= max_dirs(limit),
    ensures
        selected(keys, limit) == head_of(keys, limit as int),
{
    let n = if limit <= keys.len() {
        limit as int
    } else {
        keys.len() as int
    };
    if limit > 0 {
        lemma_sift_within(keys, limit, n);
        let (taken, held) = sift(keys, limit as nat, max_dirs(limit) as nat);
        lemma_sift_past(keys, limit, n);
        assert(taken == keys.take(n));
        if n < limit {
            assert(keys.take(n) =~= keys);
            assert(held.len() == 0);
        }
        assert(selected(keys, limit) =~= keys.take(n));
    } else {
        assert(selected(keys, limit) =~= head_of(keys, 0));
    }
}

proof fn lemma_dirs_in_prefix(keys: Seq<Key>, m: int, n: int)
    requires
        0 <= m <= n <= keys.len(),
    ensures
        of_kind(keys.take(m), ResultKind::Dir).len() <= of_kind(keys.take(n), ResultKind::Dir).len(),
    decreases n,
{
    if m < n {
        lemma_dirs_in_prefix(keys, m, n - 1);
        assert(keys.take(n).drop_last() =~= keys.take(n - 1));
    }
}

proof fn lemma_sift_within(keys: Seq<Key>, limit: usize, m: int)
    requires
        limit > 0,
        0 <= m <= keys.len(),
        m <= limit,
        of_kind(keys.take(m), ResultKind::Dir).len() <= max_dirs(limit),
    ensures
        sift(keys.take(m), limit as nat, max_dirs(limit) as nat) == (
            keys.take(m),
            Seq::<Key>::empty(),
        ),
    decreases m,
{
    if m > 0 {
        let key = keys[m - 1];
        lemma_dirs_in_prefix(keys, m - 1, m);
        assert(keys.take(m).drop_last() =~= keys.take(m - 1));
        assert(keys.take(m).last() == key);
        lemma_sift_within(keys, limit, m - 1);
        assert(keys.take(m - 1).push(key) =~= keys.take(m));
    } else {
        assert(keys.take(0) =~= Seq::<Key>::empty());
    }
}

proof fn lemma_sift_past(keys: Seq<Key>, limit: usize, n: int)
    requires
        limit > 0,
        0 <= n <= keys.len(),
        n < keys.len() ==> n == limit,
        sift(keys.take(n), limit as nat, max_dirs(limit) as nat) == (
            keys.take(n),
            Seq::<Key>::empty(),
        ),
    ensures
        sift(keys, limit as nat, max_dirs(limit) as nat) == (keys.take(n), Seq::<Key>::empty()),
    decreases keys.len() - n,
{
    if n < keys.len() {
        lemma_sift_stays(keys, limit, n, keys.len() as int);
    } else {
        assert(keys.take(n) =~= keys);
    }
    assert(keys.take(keys.len() as int) =~= keys);
}

proof fn lemma_sift_stays(keys: Seq<Key>, limit: usize, n: int, m: int)
    requires
        limit > 0,
        n == limit,
        0 <= n <= m <= keys.len(),
        sift(keys.take(n), limit as nat, max_dirs(limit) as nat) == (
            keys.take(n),
            Seq::<Key>::empty(),
        ),
    ensures
        sift(keys.take(m), limit as nat, max_dirs(limit) as nat) == (
            keys.take(n),
            Seq::<Key>::empty(),
        ),
    decreases m,
{
    if n < m {
        lemma_sift_stays(keys, limit, n, m - 1);
        assert(keys.take(m).drop_last() =~= keys.take(m - 1));
    }
}

/// Whether the keys of `part` stand in `whole` in the same order.
pub open spec fn in_order_of(part: Seq<Key>, whole: Seq<Key>) -> bool {
    exists|at: Seq<int>| #[trigger] picks(at, part, whole)
}

/// Whether `at` says, in rising order, where in `whole` the keys of `part` stand.
pub open spec fn picks(at: Seq<int>, part: Seq<Key>, whole: Seq<Key>) -> bool {
    &&& at.len() == part.len()
    &&& forall|i: int|
        0 <= i < at.len() ==> 0 <= (#[trigger] at[i]) < whole.len() && whole[at[i]] == part[i]
    &&& forall|i: int, j: int| 0 <= i < j < at.len() ==> (#[trigger] at[i]) < (#[trigger] at[j])
}

/// What is shown is first a part of the list in its own order, with no more directories than the
/// cap allows, and then only directories that were held back, in their own order too.
pub proof fn what_is_shown_keeps_the_order_of_the_list(keys: Seq<Key>, limit: usize) -> (n: int)
    ensures
        0 <= n <= selected(keys, limit).len(),
        in_order_of(selected(keys, limit).take(n), keys),
        in_order_of(selected(keys, limit).skip(n), keys),
        of_kind(selected(keys, limit).take(n), ResultKind::Dir).len() <= max_dirs(limit),
        forall|i: int|
            n <= i < selected(keys, limit).len() ==> (#[trigger] selected(keys, limit)[i]).0
                == ResultKind::Dir,
        n < selected(keys, limit).len() ==> of_kind(
            selected(keys, limit).take(n),
            ResultKind::Dir,
        ).len() == max_dirs(limit),
{
    let none = Seq::<Key>::empty();
    if limit == 0 {
        let s = selected(keys, limit);
        assert(picks(Seq::<int>::empty(), s.take(0), keys));
        assert(picks(Seq::<int>::empty(), s.skip(0), keys));
        0
    } else {
        let cap = max_dirs(limit) as nat;
        let (taken, held) = sift(keys, limit as nat, cap);
        lemma_sift_picks(keys, limit as nat, cap);
        lemma_sift_bound(keys, limit as nat, cap);
        let s = selected(keys, limit);
        let n = taken.len() as int;
        assert(s.take(n) =~= taken);
        let m = s.len() - n;
        assert(s.skip(n) =~= held.take(m));
        let at = choose|at: Seq<int>| #[trigger] picks(at, held, keys);
        assert(picks(at.take(m), held.take(m), keys));
        assert forall|i: int| n <= i < s.len() implies (#[trigger] s[i]).0 == ResultKind::Dir by {
            assert(s[i] == held[i - n]);
        }
        n
    }
}

proof fn lemma_picks_more(part: Seq<Key>, whole: Seq<Key>, key: Key)
    requires
        in_order_of(part, whole),
    ensures
        in_order_of(part, whole.push(key)),
        in_order_of(part.push(key), whole.push(key)),
{
    let at = choose|at: Seq<int>| #[trigger] picks(at, part, whole);
    let more = whole.push(key);
    assert(picks(at, part, more));
    let next = at.push(whole.len() as int);
    assert(picks(next, part.push(key), more)) by {
        assert forall|i: int|
            0 <= i < next.len() implies 0 <= (#[trigger] next[i]) < more.len() && more[next[i]]
            == part.push(key)[i] by {
            if i < at.len() {
                assert(next[i] == at[i]);
            }
        }
    }
}

proof fn lemma_sift_picks(keys: Seq<Key>, limit: nat, cap: nat)
    ensures
        in_order_of(sift(keys, limit, cap).0, keys),
        in_order_of(sift(keys, limit, cap).1, keys),
        of_kind(sift(keys, limit, cap).0, ResultKind::Dir).len() <= cap,
        forall|i: int|
            0 <= i < sift(keys, limit, cap).1.len() ==> (#[trigger] sift(keys, limit, cap).1[i]).0
                == ResultKind::Dir,
        sift(keys, limit, cap).1.len() > 0 ==> of_kind(
            sift(keys, limit, cap).0,
            ResultKind::Dir,
        ).len() == cap,
    decreases keys.len(),
{
    let none = Seq::<Key>::empty();
    if keys.len() == 0 {
        assert(picks(Seq::<int>::empty(), none, keys));
    } else {
        let init = keys.drop_last();
        let key = keys.last();
        lemma_sift_picks(init, limit, cap);
        let (taken, held) = sift(init, limit, cap);
        assert(init.push(key) =~= keys);
        lemma_picks_more(taken, init, key);
        lemma_picks_more(held, init, key);
        lemma_of_kind_push(taken, key, ResultKind::Dir);
    }
}

/// The reranker's order runs from its highest score down, and every candidate keeps its own score.
pub proof fn reranking_puts_higher_scores_first(pool: Seq<Key>, scores: Seq<u32>, i: int, j: int)
    requires
        pool.len() == scores.len(),
        pool.len() <= usize::MAX,
        0 <= i < j < pool.len(),
    ensures
        score::total_key(reranked(pool, scores)[i].1) >= score::total_key(
            reranked(pool, scores)[j].1,
        ),
        reranked(pool, scores).contains((pool[i], scores[i])),
        reranked(pool, scores).contains((pool[j], scores[j])),
{
    let all = judged(scores);
    let sorted = order::ranked(all);
    order::lemma_ranked(all);
    assert(order::by_rank::<Judged>()(sorted[i], sorted[j]));
    lemma_reranked_holds(pool, scores, i);
    lemma_reranked_holds(pool, scores, j);
}

proof fn lemma_reranked_holds(pool: Seq<Key>, scores: Seq<u32>, i: int)
    requires
        pool.len() == scores.len(),
        pool.len() <= usize::MAX,
        0 <= i < pool.len(),
    ensures
        reranked(pool, scores).contains((pool[i], scores[i])),
{
    let all = judged(scores);
    let sorted = order::ranked(all);
    order::lemma_ranked(all);
    assert(all.contains(all[i]));
    assert(sorted.contains(all[i]));
    let k = choose|k: int| 0 <= k < sorted.len() && sorted[k] == all[i];
    assert(reranked(pool, scores)[k] == (pool[i], scores[i]));
}

/// Without a reranker the fused list is shown under the cap. With one, what it chose comes first,
/// and behind it, in fused order, what it was not shown, as far as there is room.
pub proof fn the_rerankers_choice_comes_first(fused: Seq<Key>, pool: Seq<Key>, limit: usize)
    ensures
        final_keys(fused, None, limit) == selected(fused, limit),
        ({
            let all = final_keys(fused, Some(pool), limit);
            let head = selected(pool, limit);
            &&& all.len() >= head.len()
            &&& all.take(head.len() as int) == head
            &&& fused.len() <= pool.len() ==> all == head
            &&& fused.len() > pool.len() ==> {
                let rest = fused.skip(pool.len() as int).filter(|k: Key| !head.contains(k));
                let n = if head.len() + rest.len() <= limit {
                    rest.len() as int
                } else {
                    limit - head.len()
                };
                all.skip(head.len() as int) == rest.take(n)
            }
        }),
{
    let all = final_keys(fused, Some(pool), limit);
    let head = selected(pool, limit);
    selection_fills_the_limit(pool, limit);
    assert(all.take(head.len() as int) =~= head);
    if fused.len() > pool.len() {
        let rest = fused.skip(pool.len() as int);
        lemma_unseen_is_filter(rest, head);
        let u = unseen(rest, head);
        let n = if head.len() + u.len() <= limit {
            u.len() as int
        } else {
            limit - head.len()
        };
        assert(all.skip(head.len() as int) =~= u.take(n));
    } else {
        assert(all =~= head);
    }
}

proof fn lemma_unseen_is_filter(keys: Seq<Key>, seen: Seq<Key>)
    ensures
        unseen(keys, seen) == keys.filter(|k: Key| !seen.contains(k)),
    decreases keys.len(),
{
    reveal(Seq::filter);
    if keys.len() > 0 {
        lemma_unseen_is_filter(keys.drop_last(), seen);
    }
}

/// The last assignment to a key counts, and there is a value exactly where there is an assignment.
pub proof fn the_last_assignment_counts<T>(pairs: Seq<(Key, T)>, key: Key, i: int)
    requires
        0 <= i < pairs.len() ==> pairs[i].0 == key && forall|j: int|
            i < j < pairs.len() ==> (#[trigger] pairs[j]).0 != key,
        !(0 <= i < pairs.len()) ==> forall|j: int|
            0 <= j < pairs.len() ==> (#[trigger] pairs[j]).0 != key,
    ensures
        last_value(pairs, key) == if 0 <= i < pairs.len() {
            Some(pairs[i].1)
        } else {
            None
        },
    decreases pairs.len(),
{
    if pairs.len() > 0 {
        let init = pairs.drop_last();
        if i != pairs.len() - 1 {
            assert(pairs[pairs.len() - 1].0 != key);
            assert forall|j: int| 0 <= j < init.len() implies #[trigger] init[j] == pairs[j] by {}
            if 0 <= i < pairs.len() {
                the_last_assignment_counts(init, key, i);
            } else {
                the_last_assignment_counts(init, key, -1);
            }
        }
    }
}

/// Ranks are positions counted from 1, each list by itself.
pub proof fn each_list_is_ranked_from_one(first: Seq<Key>, second: Seq<Key>, i: int)
    requires
        first.len() < usize::MAX,
        second.len() < usize::MAX,
    ensures
        rank_pairs(first, second).len() == first.len() + second.len(),
        0 <= i < first.len() ==> rank_pairs(first, second)[i].0 == first[i] && rank_pairs(
            first,
            second,
        )[i].1 == i + 1,
        0 <= i < second.len() ==> rank_pairs(first, second)[first.len() + i].0 == second[i]
            && rank_pairs(first, second)[first.len() + i].1 == i + 1,
{
}

/// Of several occurrences of a key the first is kept: none is kept twice, none is lost, and what is
/// kept of the first keys begins what is kept of all.
pub proof fn first_occurrences_are_kept(a: Seq<Key>, b: Seq<Key>, key: Key)
    ensures
        first_seen(a).no_duplicates(),
        first_seen(a).contains(key) <==> a.contains(key),
        first_seen(a).len() <= first_seen(a + b).len(),
        first_seen(a + b).take(first_seen(a).len() as int) == first_seen(a),
    decreases a.len() + b.len(),
{
    if b.len() > 0 {
        first_occurrences_are_kept(a, b.drop_last(), key);
        assert((a + b).drop_last() =~= a + b.drop_last());
        let n = first_seen(a).len() as int;
        assert(first_seen(a + b).take(n) =~= first_seen(a + b.drop_last()).take(n));
    } else {
        assert(a + b =~= a);
        assert(first_seen(a).take(first_seen(a).len() as int) =~= first_seen(a));
        if a.len() > 0 {
            let init = a.drop_last();
            let none = Seq::<Key>::empty();
            first_occurrences_are_kept(init, none, key);
            first_occurrences_are_kept(init, none, a.last());
            let before = first_seen(init);
            let all = first_seen(a);
            if before.contains(key) {
                let k = choose|k: int| 0 <= k < before.len() && before[k] == key;
                assert(all[k] == key);
            }
            if init.contains(key) {
                let k = choose|k: int| 0 <= k < init.len() && init[k] == key;
                assert(a[k] == key);
            }
            if a.contains(key) {
                let k = choose|k: int| 0 <= k < a.len() && a[k] == key;
                if k < init.len() {
                    assert(init[k] == key);
                } else if !before.contains(key) {
                    assert(all[before.len() as int] == key);
                }
            }
            if all.contains(key) {
                let k = choose|k: int| 0 <= k < all.len() && all[k] == key;
                if k < before.len() {
                    assert(before[k] == key);
                } else {
                    assert(a[a.len() - 1] == key);
                }
            }
        }
    }
}

/// A file's place is that of its last occurrence, counted from 1; what does not occur has none.
pub proof fn a_place_is_counted_from_one(files: Seq<Key>, id: i64)
    requires
        files.len() <= usize::MAX,
    ensures
        match place_of(files, id) {
            Some(n) => {
                &&& 1 <= n <= files.len()
                &&& files[n - 1].1 == id
                &&& forall|j: int| n <= j < files.len() ==> (#[trigger] files[j]).1 != id
            },
            None => forall|j: int| 0 <= j < files.len() ==> (#[trigger] files[j]).1 != id,
        },
    decreases files.len(),
{
    if files.len() > 0 && files.last().1 != id {
        let init = files.drop_last();
        a_place_is_counted_from_one(init, id);
        assert forall|j: int| 0 <= j < init.len() implies #[trigger] files[j] == init[j] by {}
    }
}

/// Every ranked file credits its directory, at full weight and at its own rank, unless the
/// directory is a root; and nothing else gives credit.
pub proof fn every_ranked_file_credits_its_directory(
    files: Seq<Key>,
    rows: Seq<Parent>,
    roots: Seq<Seq<char>>,
)
    ensures
        credits(files, rows, roots) == rows.filter(
            |r: Parent| place_of(files, r.file) is Some && !rollup::is_root(r.path@, roots),
        ).map_values(
            |r: Parent|
                Met {
                    key: (ResultKind::Dir, r.dir),
                    term: Term { weight: 0x3f80_0000, rank: place_of(files, r.file)->0 },
                },
        ),
    decreases rows.len(),
{
    reveal(Seq::filter);
    let p = |r: Parent| place_of(files, r.file) is Some && !rollup::is_root(r.path@, roots);
    let f = |r: Parent|
        Met {
            key: (ResultKind::Dir, r.dir),
            term: Term { weight: 0x3f80_0000, rank: place_of(files, r.file)->0 },
        };
    if rows.len() > 0 {
        every_ranked_file_credits_its_directory(files, rows.drop_last(), roots);
        let rest = rows.drop_last().filter(p);
        if p(rows.last()) {
            assert(rest.push(rows.last()).map_values(f) =~= rest.map_values(f).push(f(rows.last())));
        }
    } else {
        assert(credits(files, rows, roots) =~= rows.filter(p).map_values(f));
    }
}

/// The directories with the most credit are brought up, as many as asked for or all, the most
/// credited first and of equally credited ones the lower id; whoever is left out has no more credit
/// than the last one that is not.
pub proof fn the_most_credited_directories_are_brought_up(
    all: Seq<Credit>,
    limit: usize,
    i: int,
    j: int,
)
    requires
        0 <= i < j < all.len(),
    ensures
        top_dirs(all, limit).len() == if all.len() <= limit {
            all.len()
        } else {
            limit as nat
        },
        order::ranked(all).len() == all.len(),
        order::ranked(all).contains(all[i]),
        i < limit ==> top_dirs(all, limit)[i] == (ResultKind::Dir, order::ranked(all)[i].id),
        score::total_key(order::ranked(all)[i].score) >= score::total_key(
            order::ranked(all)[j].score,
        ),
        order::ranked(all)[i].score == order::ranked(all)[j].score ==> order::ranked(all)[i].id
            <= order::ranked(all)[j].id,
{
    let sorted = order::ranked(all);
    order::lemma_ranked(all);
    assert(all.contains(all[i]));
    assert(order::by_rank::<Credit>()(sorted[i], sorted[j]));
}

/// About a third of what is shown may be directories: the cap is 0.34 of the limit, to the nearest
/// whole number, and at least one.
pub proof fn a_third_may_be_directories(limit: usize)
    requires
        limit <= 100_000,
    ensures
        max_dirs(limit) >= 1,
        limit >= 2 ==> 34 * limit - 51 <= 100 * max_dirs(limit) <= 34 * limit + 51,
        limit <= 1 ==> max_dirs(limit) == 1,
{
    let n = limit as nat;
    assert(unit24(n) == 1);
    assert(rounded24(n) == n) by {
        assert(n / 1 == n && n % 1 == 0);
        assert(n * 1 == n);
    }
    let x = n * DIR_SHARE as nat;
    let r = rounded24(x);
    lemma_rounded24(x);
    assert(x == n * 11_408_507);
    let share = (r + 0x100_0000) / 0x200_0000;
    assert(share * 0x200_0000 <= r + 0x100_0000 < (share + 1) * 0x200_0000);
}

/// Rounding to 24 bits moves a number by no more than its share of 2^-23.
proof fn lemma_rounded24(n: nat)
    ensures
        rounded24(n) * 0x80_0000 <= n * 0x80_0001,
        n * 0x7f_ffff <= rounded24(n) * 0x80_0000,
{
    let u = unit24(n);
    let q = n / u;
    let r = n % u;
    lemma_unit24(n);
    lemma_unit24_small(n);
    assert(n == q * u + r && r < u) by (nonlinear_arith)
        requires
            u >= 1,
            q == n / u,
            r == n % u,
    ;
    assert((q + 1) * u == q * u + u) by (nonlinear_arith);
    if u == 1 {
        assert(r == 0);
        assert(q * u == q) by (nonlinear_arith)
            requires
                u == 1,
        ;
    }
}

proof fn lemma_unit24_small(n: nat)
    ensures
        unit24(n) == 1 || unit24(n) * 0x80_0000 <= n,
    decreases n,
{
    if n >= 0x100_0000 {
        lemma_unit24_small(n / 2);
    }
}

/// A reranker is shown twice as many as are wanted, at least twenty and at most a hundred; and its
/// scores count only where there is one for each.
pub proof fn a_reranker_is_shown_twice_the_limit(
    limit: usize,
    n: usize,
    pool: Vec<Key>,
    scores: Vec<u32>,
    r: Result<Vec<(Key, u32)>, ScoreCount>,
)
    requires
        call_ensures(pool_size, (limit,), n),
        call_ensures(rerank_pool, (&pool, &scores), r),
    ensures
        limit <= 10 ==> n == 20,
        10 <= limit <= 50 ==> n == 2 * limit,
        limit >= 50 ==> n == 100,
        r is Ok <==> scores@.len() == pool@.len(),
{
}

} // verus!
