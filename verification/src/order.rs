//! Total orders on small records, and a merge sort that realises them.
use vstd::prelude::*;
use vstd::relations::*;

verus! {

/// A record with a total order: `a.ahead(b)` says that `a` comes no later than `b`.
pub trait Rank: Copy {
    /// Whether `self` comes no later than `other`.
    spec fn ahead(self, other: Self) -> bool;

    /// `ahead` is a total order, so a sorted arrangement is unique.
    proof fn order_laws()
        ensures
            total_ordering(|a: Self, b: Self| a.ahead(b)),
    ;

    /// Decides `ahead`.
    fn is_ahead(&self, other: &Self) -> (r: bool)
        ensures
            r == self.ahead(*other),
    ;
}

/// A total order on values that are compared by something outside them.
pub trait Order<T: Copy> {
    /// Whether `a` comes no later than `b`.
    spec fn before(&self, a: T, b: T) -> bool;

    /// `before` is a total order.
    proof fn laws(&self)
        ensures
            total_ordering(|a: T, b: T| self.before(a, b)),
    ;

    /// Decides `before`.
    fn is_before(&self, a: &T, b: &T) -> (r: bool)
        ensures
            r == self.before(*a, *b),
    ;
}

/// `o` as a relation.
pub open spec fn by_order<T: Copy, O: Order<T>>(o: &O) -> spec_fn(T, T) -> bool {
    |a: T, b: T| o.before(a, b)
}

/// The order of `T` as a relation.
pub open spec fn by_rank<T: Rank>() -> spec_fn(T, T) -> bool {
    |a: T, b: T| a.ahead(b)
}

/// `s` arranged by rank.
pub open spec fn ranked<T: Rank>(s: Seq<T>) -> Seq<T> {
    s.sort_by(by_rank::<T>())
}

/// A sorted arrangement of the elements of `s` is the arrangement by rank.
pub proof fn lemma_ranked_unique<T: Rank>(s: Seq<T>, r: Seq<T>)
    requires
        sorted_by(r, by_rank::<T>()),
        r.to_multiset() == s.to_multiset(),
    ensures
        r == ranked(s),
{
    T::order_laws();
    s.lemma_sort_by_ensures(by_rank::<T>());
    vstd::seq_lib::lemma_sorted_unique(r, ranked(s), by_rank::<T>());
}

/// Arranging by rank sorts, and neither loses nor invents an element.
pub proof fn lemma_ranked<T: Rank>(s: Seq<T>)
    ensures
        sorted_by(ranked(s), by_rank::<T>()),
        ranked(s).to_multiset() == s.to_multiset(),
        ranked(s).len() == s.len(),
        forall|x: T| #[trigger] ranked(s).contains(x) <==> s.contains(x),
{
    T::order_laws();
    s.lemma_sort_by_ensures(by_rank::<T>());
    s.to_multiset_ensures();
    ranked(s).to_multiset_ensures();
    assert forall|x: T| #[trigger] ranked(s).contains(x) <==> s.contains(x) by {
        assert(ranked(s).contains(x) <==> ranked(s).to_multiset().count(x) > 0);
        assert(s.contains(x) <==> s.to_multiset().count(x) > 0);
    }
}

/// Two sequences with the same elements are arranged the same way.
pub proof fn lemma_ranked_permutation<T: Rank>(s: Seq<T>, t: Seq<T>)
    requires
        s.to_multiset() == t.to_multiset(),
    ensures
        ranked(s) == ranked(t),
{
    lemma_ranked(s);
    lemma_ranked_unique(t, ranked(s));
}

/// Two sequences without repetition that hold the same elements are permutations of each other.
pub proof fn lemma_same_elements<T>(s: Seq<T>, t: Seq<T>)
    requires
        s.no_duplicates(),
        t.no_duplicates(),
        forall|x: T| s.contains(x) <==> #[trigger] t.contains(x),
    ensures
        s.to_multiset() == t.to_multiset(),
{
    s.lemma_multiset_has_no_duplicates();
    t.lemma_multiset_has_no_duplicates();
    s.to_multiset_ensures();
    t.to_multiset_ensures();
    assert forall|x: T| s.to_multiset().count(x) == t.to_multiset().count(x) by {
        assert(s.contains(x) <==> t.contains(x));
        assert(s.contains(x) <==> s.to_multiset().count(x) > 0);
        assert(t.contains(x) <==> t.to_multiset().count(x) > 0);
    }
    assert(s.to_multiset() =~= t.to_multiset());
}

proof fn lemma_take_push<T>(s: Seq<T>, i: int)
    requires
        0 <= i < s.len(),
    ensures
        s.take(i + 1) == s.take(i).push(s[i]),
{
    assert(s.take(i + 1) =~= s.take(i).push(s[i]));
}

/// Merges two sorted runs.
fn merge<T: Copy, O: Order<T>>(o: &O, a: &Vec<T>, b: &Vec<T>) -> (out: Vec<T>)
    requires
        sorted_by(a@, by_order(o)),
        sorted_by(b@, by_order(o)),
    ensures
        sorted_by(out@, by_order(o)),
        out@.to_multiset() == (a@ + b@).to_multiset(),
{
    let mut out: Vec<T> = Vec::new();
    let mut i: usize = 0;
    let mut j: usize = 0;
    proof {
        o.laws();
        assert(a@.take(0) + b@.take(0) =~= Seq::<T>::empty());
    }
    while i < a.len() || j < b.len()
        invariant
            sorted_by(a@, by_order(o)),
            sorted_by(b@, by_order(o)),
            total_ordering(by_order(o)),
            i <= a@.len(),
            j <= b@.len(),
            sorted_by(out@, by_order(o)),
            out@.to_multiset() == (a@.take(i as int) + b@.take(j as int)).to_multiset(),
            forall|k: int, m: int|
                0 <= k < out@.len() && i <= m < a@.len() ==> o.before(
                    #[trigger] out@[k],
                    #[trigger] a@[m],
                ),
            forall|k: int, m: int|
                0 <= k < out@.len() && j <= m < b@.len() ==> o.before(
                    #[trigger] out@[k],
                    #[trigger] b@[m],
                ),
        decreases (a@.len() - i) + (b@.len() - j),
    {
        let from_a = if i >= a.len() {
            false
        } else if j >= b.len() {
            true
        } else {
            o.is_before(&a[i], &b[j])
        };
        let ghost before = out@;
        let ghost rel = by_order(o);
        if from_a {
            let x = a[i];
            proof {
                vstd::seq_lib::lemma_multiset_commutative(a@.take(i as int), b@.take(j as int));
                vstd::seq_lib::lemma_multiset_commutative(a@.take(i + 1), b@.take(j as int));
                lemma_take_push(a@, i as int);
                a@.take(i as int).to_multiset_ensures();
                before.to_multiset_ensures();
                assert forall|m: int| i < m < a@.len() implies o.before(x, #[trigger] a@[m]) by {
                    assert(by_order(o)(a@[i as int], a@[m]));
                }
                assert forall|m: int| j <= m < b@.len() implies o.before(x, #[trigger] b@[m]) by {
                    assert(o.before(x, b@[j as int]));
                    if m > j {
                        assert(by_order(o)(b@[j as int], b@[m]));
                        assert(rel(x, b@[j as int]) && rel(b@[j as int], b@[m]));
                        assert(rel(x, b@[m]));
                    }
                }
            }
            out.push(x);
            i += 1;
            proof {
                assert(out@.to_multiset() =~= before.to_multiset().insert(x));
                assert((a@.take(i as int) + b@.take(j as int)).to_multiset()
                    =~= before.to_multiset().insert(x));
            }
        } else {
            let x = b[j];
            proof {
                vstd::seq_lib::lemma_multiset_commutative(a@.take(i as int), b@.take(j as int));
                vstd::seq_lib::lemma_multiset_commutative(a@.take(i as int), b@.take(j + 1));
                lemma_take_push(b@, j as int);
                b@.take(j as int).to_multiset_ensures();
                before.to_multiset_ensures();
                assert forall|m: int| j < m < b@.len() implies o.before(x, #[trigger] b@[m]) by {
                    assert(by_order(o)(b@[j as int], b@[m]));
                }
                assert forall|m: int| i <= m < a@.len() implies o.before(x, #[trigger] a@[m]) by {
                    assert(rel(a@[i as int], x) || rel(x, a@[i as int]));
                    if m > i {
                        assert(by_order(o)(a@[i as int], a@[m]));
                        assert(rel(x, a@[i as int]) && rel(a@[i as int], a@[m]));
                        assert(rel(x, a@[m]));
                    }
                }
            }
            out.push(x);
            j += 1;
            proof {
                assert(out@.to_multiset() =~= before.to_multiset().insert(x));
                assert((a@.take(i as int) + b@.take(j as int)).to_multiset()
                    =~= before.to_multiset().insert(x));
            }
        }
    }
    proof {
        assert(a@.take(i as int) =~= a@);
        assert(b@.take(j as int) =~= b@);
    }
    out
}

/// Sorts `v[lo..hi]`.
fn sort_span<T: Copy, O: Order<T>>(o: &O, v: &Vec<T>, lo: usize, hi: usize) -> (out: Vec<T>)
    requires
        lo <= hi <= v@.len(),
    ensures
        sorted_by(out@, by_order(o)),
        out@.to_multiset() == v@.subrange(lo as int, hi as int).to_multiset(),
    decreases hi - lo,
{
    if hi - lo <= 1 {
        let mut out: Vec<T> = Vec::new();
        if lo < hi {
            out.push(v[lo]);
        }
        proof {
            assert(out@ =~= v@.subrange(lo as int, hi as int));
        }
        return out;
    }
    let mid: usize = lo + (hi - lo) / 2;
    let left = sort_span(o, v, lo, mid);
    let right = sort_span(o, v, mid, hi);
    let out = merge(o, &left, &right);
    proof {
        let l = v@.subrange(lo as int, mid as int);
        let r = v@.subrange(mid as int, hi as int);
        assert(v@.subrange(lo as int, hi as int) =~= l + r);
        vstd::seq_lib::lemma_multiset_commutative(l, r);
        vstd::seq_lib::lemma_multiset_commutative(left@, right@);
    }
    out
}

/// The elements of `v`, arranged by `o`.
pub fn sort_by_order<T: Copy, O: Order<T>>(o: &O, v: &Vec<T>) -> (out: Vec<T>)
    ensures
        out@ == v@.sort_by(by_order(o)),
        sorted_by(out@, by_order(o)),
        out@.to_multiset() == v@.to_multiset(),
{
    let out = sort_span(o, v, 0, v.len());
    proof {
        assert(v@.subrange(0, v@.len() as int) =~= v@);
        o.laws();
        v@.lemma_sort_by_ensures(by_order(o));
        vstd::seq_lib::lemma_sorted_unique(out@, v@.sort_by(by_order(o)), by_order(o));
    }
    out
}

/// The order that the elements have of their own.
pub struct Natural;

impl<T: Rank> Order<T> for Natural {
    open spec fn before(&self, a: T, b: T) -> bool {
        a.ahead(b)
    }

    proof fn laws(&self) {
        T::order_laws();
        assert((|a: T, b: T| self.before(a, b)) =~= (|a: T, b: T| a.ahead(b)));
    }

    fn is_before(&self, a: &T, b: &T) -> (r: bool) {
        a.is_ahead(b)
    }
}

/// The elements of `v`, arranged by rank.
pub fn sort_ranked<T: Rank>(v: &Vec<T>) -> (out: Vec<T>)
    ensures
        out@ == ranked(v@),
{
    let o = Natural;
    let out = sort_by_order(&o, v);
    proof {
        assert(by_order::<T, Natural>(&o) =~= by_rank::<T>());
    }
    out
}

// ------------------------------------------------------------------ positions

/// The positions of `n` things, in order.
pub open spec fn positions(n: nat) -> Seq<usize> {
    Seq::new(n, |i: int| i as usize)
}

/// The positions from zero up to `n`, arranged by `o`.
pub fn sorted_positions<O: Order<usize>>(o: &O, n: usize) -> (out: Vec<usize>)
    ensures
        out@ == positions(n as nat).sort_by(by_order(o)),
        sorted_by(out@, by_order(o)),
        out@.len() == n,
        out@.no_duplicates(),
        forall|i: int| 0 <= i < n ==> (#[trigger] out@[i]) < n,
        forall|p: usize| p < n ==> #[trigger] out@.contains(p),
{
    let mut v: Vec<usize> = Vec::new();
    let mut i: usize = 0;
    while i < n
        invariant
            i <= n,
            v@ == positions(i as nat),
        decreases n - i,
    {
        v.push(i);
        i += 1;
        proof {
            assert(v@ =~= positions(i as nat));
        }
    }
    let out = sort_by_order(o, &v);
    proof {
        out@.to_multiset_ensures();
        v@.to_multiset_ensures();
        assert(out@.len() == n);
        assert forall|k: int| 0 <= k < n implies (#[trigger] out@[k]) < n by {
            assert(out@.contains(out@[k]));
            assert(out@.to_multiset().count(out@[k]) > 0);
            assert(v@.contains(out@[k]));
        }
        assert forall|p: usize| p < n implies #[trigger] out@.contains(p) by {
            assert(v@[p as int] == p);
            assert(v@.contains(p));
            assert(out@.to_multiset().count(p) > 0);
        }
        assert(v@.no_duplicates());
        v@.lemma_multiset_has_no_duplicates();
        out@.lemma_multiset_has_no_duplicates_conv();
    }
    out
}

/// Positions arranged by a number that each of them has; the earlier position first among equals.
pub struct ByNumber {
    pub keys: Vec<usize>,
    /// Whether the largest number comes first.
    pub down: bool,
}

impl ByNumber {
    /// The number at a position.
    pub open spec fn key(&self, i: usize) -> usize {
        if i < self.keys@.len() {
            self.keys@[i as int]
        } else {
            0
        }
    }

    fn key_at(&self, i: usize) -> (r: usize)
        ensures
            r == self.key(i),
    {
        if i < self.keys.len() {
            self.keys[i]
        } else {
            0
        }
    }
}

impl Order<usize> for ByNumber {
    open spec fn before(&self, a: usize, b: usize) -> bool {
        if self.key(a) == self.key(b) {
            a <= b
        } else {
            (self.key(a) < self.key(b)) != self.down
        }
    }

    proof fn laws(&self) {
    }

    fn is_before(&self, a: &usize, b: &usize) -> (r: bool) {
        let x: usize = self.key_at(*a);
        let y: usize = self.key_at(*b);
        if x == y {
            *a <= *b
        } else {
            (x < y) != self.down
        }
    }
}

/// Positions arranged by two numbers that each of them has, smallest first: by the first, then by
/// the second; the earlier position first among equals.
pub struct ByTwo {
    pub first: ByNumber,
    pub second: ByNumber,
}

impl Order<usize> for ByTwo {
    open spec fn before(&self, a: usize, b: usize) -> bool {
        if self.first.key(a) != self.first.key(b) {
            self.first.key(a) < self.first.key(b)
        } else if self.second.key(a) != self.second.key(b) {
            self.second.key(a) < self.second.key(b)
        } else {
            a <= b
        }
    }

    proof fn laws(&self) {
    }

    fn is_before(&self, a: &usize, b: &usize) -> (r: bool) {
        let x: usize = self.first.key_at(*a);
        let y: usize = self.first.key_at(*b);
        if x != y {
            return x < y;
        }
        let x: usize = self.second.key_at(*a);
        let y: usize = self.second.key_at(*b);
        if x != y {
            x < y
        } else {
            *a <= *b
        }
    }
}

} // verus!
