//! Dictionary order: of byte strings, and of paths by their components.
use crate::order::Order;
use crate::path;
use crate::text;
use vstd::prelude::*;
use vstd::relations::*;

verus! {

/// Whether `a` comes no later than `b` in dictionary order, where `le` orders what they are made
/// of.
pub open spec fn no_later<T>(a: Seq<T>, b: Seq<T>, le: spec_fn(T, T) -> bool) -> bool
    decreases a.len(),
{
    if a.len() == 0 {
        true
    } else if b.len() == 0 {
        false
    } else if a[0] == b[0] {
        no_later(a.drop_first(), b.drop_first(), le)
    } else {
        le(a[0], b[0])
    }
}

proof fn lemma_reflexive<T>(a: Seq<T>, le: spec_fn(T, T) -> bool)
    ensures
        no_later(a, a, le),
    decreases a.len(),
{
    if a.len() > 0 {
        lemma_reflexive(a.drop_first(), le);
    }
}

proof fn lemma_antisymmetric<T>(a: Seq<T>, b: Seq<T>, le: spec_fn(T, T) -> bool)
    requires
        total_ordering(le),
        no_later(a, b, le),
        no_later(b, a, le),
    ensures
        a == b,
    decreases a.len(),
{
    if a.len() > 0 && b.len() > 0 {
        if a[0] == b[0] {
            lemma_antisymmetric(a.drop_first(), b.drop_first(), le);
            assert(a =~= seq![a[0]] + a.drop_first());
            assert(b =~= seq![b[0]] + b.drop_first());
        } else {
            assert(le(a[0], b[0]) && le(b[0], a[0]));
        }
    } else {
        assert(a =~= b);
    }
}

proof fn lemma_transitive<T>(a: Seq<T>, b: Seq<T>, c: Seq<T>, le: spec_fn(T, T) -> bool)
    requires
        total_ordering(le),
        no_later(a, b, le),
        no_later(b, c, le),
    ensures
        no_later(a, c, le),
    decreases a.len(),
{
    if a.len() > 0 && b.len() > 0 && c.len() > 0 {
        if a[0] == b[0] && b[0] == c[0] {
            lemma_transitive(a.drop_first(), b.drop_first(), c.drop_first(), le);
        } else if a[0] != b[0] && b[0] != c[0] {
            assert(le(a[0], b[0]) && le(b[0], c[0]));
            assert(le(a[0], c[0]));
            if a[0] == c[0] {
                assert(le(b[0], a[0]));
            }
        }
    }
}

proof fn lemma_connected<T>(a: Seq<T>, b: Seq<T>, le: spec_fn(T, T) -> bool)
    requires
        total_ordering(le),
    ensures
        no_later(a, b, le) || no_later(b, a, le),
    decreases a.len(),
{
    if a.len() > 0 && b.len() > 0 {
        if a[0] == b[0] {
            lemma_connected(a.drop_first(), b.drop_first(), le);
        } else {
            assert(le(a[0], b[0]) || le(b[0], a[0]));
        }
    }
}

/// Dictionary order is total where the order of the parts is.
pub proof fn lemma_total<T>(le: spec_fn(T, T) -> bool)
    requires
        total_ordering(le),
    ensures
        total_ordering(|a: Seq<T>, b: Seq<T>| no_later(a, b, le)),
{
    let r = |a: Seq<T>, b: Seq<T>| no_later(a, b, le);
    assert forall|a: Seq<T>| #[trigger] r(a, a) by {
        lemma_reflexive(a, le);
    }
    assert forall|a: Seq<T>, b: Seq<T>| #[trigger] r(a, b) && #[trigger] r(b, a) implies a == b by {
        lemma_antisymmetric(a, b, le);
    }
    assert forall|a: Seq<T>, b: Seq<T>, c: Seq<T>| #[trigger] r(a, b) && #[trigger] r(
        b,
        c,
    ) implies r(a, c) by {
        lemma_transitive(a, b, c, le);
    }
    assert forall|a: Seq<T>, b: Seq<T>| #[trigger] r(a, b) || #[trigger] r(b, a) by {
        lemma_connected(a, b, le);
    }
}

/// What begins a sequence comes no later than it.
pub proof fn lemma_prefix_first<T>(a: Seq<T>, n: int, le: spec_fn(T, T) -> bool)
    requires
        0 <= n <= a.len(),
    ensures
        no_later(a.take(n), a, le),
    decreases n,
{
    if n > 0 {
        lemma_prefix_first(a.drop_first(), n - 1, le);
        assert(a.take(n).drop_first() =~= a.drop_first().take(n - 1));
    }
}

// ------------------------------------------------------------------ bytes

/// The order of bytes.
pub open spec fn byte_order() -> spec_fn(u8, u8) -> bool {
    |a: u8, b: u8| a <= b
}

/// The order of byte strings.
pub open spec fn bytes_order() -> spec_fn(Seq<u8>, Seq<u8>) -> bool {
    |a: Seq<u8>, b: Seq<u8>| no_later(a, b, byte_order())
}

/// The order of sequences of byte strings.
pub open spec fn lists_order() -> spec_fn(Seq<Seq<u8>>, Seq<Seq<u8>>) -> bool {
    |a: Seq<Seq<u8>>, b: Seq<Seq<u8>>| no_later(a, b, bytes_order())
}

/// The orders above are total.
pub proof fn lemma_orders()
    ensures
        total_ordering(byte_order()),
        total_ordering(bytes_order()),
        total_ordering(lists_order()),
{
    lemma_total(byte_order());
    assert(bytes_order() =~= (|a: Seq<u8>, b: Seq<u8>| no_later(a, b, byte_order())));
    lemma_total(bytes_order());
    assert(lists_order() =~= (|a: Seq<Seq<u8>>, b: Seq<Seq<u8>>| no_later(a, b, bytes_order())));
}

/// The byte strings of a list.
pub open spec fn byte_views(v: Seq<Vec<u8>>) -> Seq<Seq<u8>> {
    v.map_values(|b: Vec<u8>| b@)
}

/// How two sequences compare.
#[derive(Clone, Copy, PartialEq, Eq, Structural)]
enum Relation {
    Before,
    Same,
    After,
}

fn relate_bytes(a: &Vec<u8>, b: &Vec<u8>) -> (r: Relation)
    ensures
        match r {
            Relation::Before => a@ != b@ && no_later(a@, b@, byte_order()),
            Relation::Same => a@ == b@,
            Relation::After => a@ != b@ && !no_later(a@, b@, byte_order()),
        },
{
    let mut i: usize = 0;
    let ghost le = byte_order();
    proof {
        assert(a@.skip(0) =~= a@);
        assert(b@.skip(0) =~= b@);
    }
    while i < a.len() && i < b.len()
        invariant
            le == byte_order(),
            i <= a@.len(),
            i <= b@.len(),
            a@.take(i as int) == b@.take(i as int),
            no_later(a@, b@, le) == no_later(a@.skip(i as int), b@.skip(i as int), le),
        decreases a@.len() - i,
    {
        let ghost x = a@.skip(i as int);
        let ghost y = b@.skip(i as int);
        proof {
            assert(x[0] == a@[i as int]);
            assert(y[0] == b@[i as int]);
            assert(x.drop_first() =~= a@.skip(i + 1));
            assert(y.drop_first() =~= b@.skip(i + 1));
        }
        if a[i] != b[i] {
            proof {
                assert(le(x[0], y[0]) == (a@[i as int] <= b@[i as int]));
            }
            return if a[i] < b[i] {
                Relation::Before
            } else {
                Relation::After
            };
        }
        proof {
            assert(a@.take(i + 1) =~= a@.take(i as int).push(a@[i as int]));
            assert(b@.take(i + 1) =~= b@.take(i as int).push(b@[i as int]));
        }
        i += 1;
    }
    if a.len() == b.len() {
        proof {
            assert(a@.take(i as int) =~= a@);
            assert(b@.take(i as int) =~= b@);
        }
        Relation::Same
    } else if a.len() < b.len() {
        Relation::Before
    } else {
        Relation::After
    }
}

fn relate_lists(a: &Vec<Vec<u8>>, b: &Vec<Vec<u8>>) -> (r: Relation)
    ensures
        match r {
            Relation::Before => byte_views(a@) != byte_views(b@) && no_later(
                byte_views(a@),
                byte_views(b@),
                bytes_order(),
            ),
            Relation::Same => byte_views(a@) == byte_views(b@),
            Relation::After => byte_views(a@) != byte_views(b@) && !no_later(
                byte_views(a@),
                byte_views(b@),
                bytes_order(),
            ),
        },
{
    let mut i: usize = 0;
    let ghost le = bytes_order();
    let ghost va = byte_views(a@);
    let ghost vb = byte_views(b@);
    proof {
        assert(va.skip(0) =~= va);
        assert(vb.skip(0) =~= vb);
    }
    while i < a.len() && i < b.len()
        invariant
            le == bytes_order(),
            va == byte_views(a@),
            vb == byte_views(b@),
            va.len() == a@.len(),
            vb.len() == b@.len(),
            i <= va.len(),
            i <= vb.len(),
            va.take(i as int) == vb.take(i as int),
            no_later(va, vb, le) == no_later(va.skip(i as int), vb.skip(i as int), le),
        decreases va.len() - i,
    {
        let ghost x = va.skip(i as int);
        let ghost y = vb.skip(i as int);
        proof {
            assert(x[0] == a@[i as int]@);
            assert(y[0] == b@[i as int]@);
            assert(va[i as int] == a@[i as int]@);
            assert(vb[i as int] == b@[i as int]@);
            assert(x.drop_first() =~= va.skip(i + 1));
            assert(y.drop_first() =~= vb.skip(i + 1));
        }
        let r = relate_bytes(&a[i], &b[i]);
        if r != Relation::Same {
            proof {
                assert(le(x[0], y[0]) == no_later(x[0], y[0], byte_order()));
            }
            return r;
        }
        proof {
            assert(va.take(i + 1) =~= va.take(i as int).push(va[i as int]));
            assert(vb.take(i + 1) =~= vb.take(i as int).push(vb[i as int]));
        }
        i += 1;
    }
    if a.len() == b.len() {
        proof {
            assert(va.take(i as int) =~= va);
            assert(vb.take(i as int) =~= vb);
        }
        Relation::Same
    } else if a.len() < b.len() {
        Relation::Before
    } else {
        Relation::After
    }
}

// ------------------------------------------------------------------ paths

/// The place of a component's class: the root first, then `.`, then `..`, then names.
pub open spec fn class(part: Seq<char>) -> u8 {
    if part == seq!['/'] {
        0
    } else if part == seq!['.'] {
        1
    } else if part == seq!['.', '.'] {
        2
    } else {
        3
    }
}

/// What a component is compared by: its class, then its bytes.
pub open spec fn part_key(part: Seq<char>) -> Seq<u8> {
    seq![class(part)] + vstd::utf8::encode_utf8(part)
}

/// What a path is compared by.
pub open spec fn path_key(p: Seq<char>) -> Seq<Seq<u8>> {
    path::components(p).map_values(|part: Seq<char>| part_key(part))
}

/// Whether `a` comes no later than `b`, component by component.
pub open spec fn path_no_later(a: Seq<char>, b: Seq<char>) -> bool {
    no_later(path_key(a), path_key(b), bytes_order())
}

/// Distinct components have distinct keys.
proof fn lemma_part_key(a: Seq<char>, b: Seq<char>)
    requires
        part_key(a) == part_key(b),
    ensures
        a == b,
{
    let x = vstd::utf8::encode_utf8(a);
    let y = vstd::utf8::encode_utf8(b);
    assert(part_key(a).skip(1) =~= x);
    assert(part_key(b).skip(1) =~= y);
    vstd::utf8::encode_utf8_decode_utf8(a);
    vstd::utf8::encode_utf8_decode_utf8(b);
}

/// Paths with the same key have the same components.
pub proof fn lemma_path_key(a: Seq<char>, b: Seq<char>)
    ensures
        (path_key(a) == path_key(b)) == (path::components(a) == path::components(b)),
{
    let x = path::components(a);
    let y = path::components(b);
    if path_key(a) == path_key(b) {
        assert(path_key(a).len() == x.len());
        assert(path_key(b).len() == y.len());
        assert forall|i: int| 0 <= i < x.len() implies x[i] == y[i] by {
            assert(path_key(a)[i] == part_key(x[i]));
            assert(path_key(b)[i] == part_key(y[i]));
            lemma_part_key(x[i], y[i]);
        }
        assert(x =~= y);
    }
}

/// Paths of which neither comes later have the same components.
pub proof fn lemma_neither_later(a: Seq<char>, b: Seq<char>)
    requires
        path_no_later(a, b),
        path_no_later(b, a),
    ensures
        path::components(a) == path::components(b),
{
    lemma_orders();
    lemma_antisymmetric(path_key(a), path_key(b), bytes_order());
    lemma_path_key(a, b);
}

/// A path comes no later than what lies below it.
pub proof fn lemma_container_first(p: Seq<char>, base: Seq<char>)
    requires
        path::within(p, base),
    ensures
        path_no_later(base, p),
{
    let n = path::components(base).len() as int;
    assert(path_key(base) =~= path_key(p).take(n));
    lemma_prefix_first(path_key(p), n, bytes_order());
}

fn class_of(part: &str) -> (r: u8)
    ensures
        r == class(part@),
{
    let cs = text::chars_of(part);
    proof {
        assert(cs@.len() == 1 ==> cs@ =~= seq![cs@[0]]);
        assert(cs@.len() == 2 ==> cs@ =~= seq![cs@[0], cs@[1]]);
        assert(seq!['/'][0] == '/');
        assert(seq!['.'][0] == '.');
        assert(seq!['.', '.'][0] == '.' && seq!['.', '.'][1] == '.');
    }
    if cs.len() == 1 && cs[0] == '/' {
        0
    } else if cs.len() == 1 && cs[0] == '.' {
        1
    } else if cs.len() == 2 && cs[0] == '.' && cs[1] == '.' {
        2
    } else {
        3
    }
}

fn key_of_part(part: &str) -> (r: Vec<u8>)
    ensures
        r@ == part_key(part@),
{
    let mut out: Vec<u8> = Vec::new();
    out.push(class_of(part));
    let bytes = part.as_bytes();
    let n: usize = bytes.len();
    let ghost all = bytes@;
    let ghost head = out@;
    let mut i: usize = 0;
    proof {
        assert(head =~= seq![class(part@)]);
        assert(head =~= head + all.take(0));
    }
    while i < n
        invariant
            n == bytes@.len(),
            all == bytes@,
            i <= n,
            out@ == head + all.take(i as int),
        decreases n - i,
    {
        out.push(bytes[i]);
        i += 1;
        proof {
            assert(out@ =~= head + all.take(i as int));
        }
    }
    proof {
        assert(all.take(n as int) =~= all);
        assert(out@ =~= part_key(part@));
    }
    out
}

fn key_of_path(p: &str) -> (r: Vec<Vec<u8>>)
    ensures
        byte_views(r@) == path_key(p@),
{
    let parts = path::components_of(p);
    let ghost cs = path::components(p@);
    let mut out: Vec<Vec<u8>> = Vec::new();
    let mut i: usize = 0;
    proof {
        assert(text::views(parts@).len() == parts@.len());
    }
    while i < parts.len()
        invariant
            cs == text::views(parts@),
            cs.len() == parts@.len(),
            cs == path::components(p@),
            i <= parts@.len(),
            out@.len() == i,
            forall|k: int| 0 <= k < i ==> (#[trigger] out@[k])@ == part_key(cs[k]),
        decreases parts@.len() - i,
    {
        out.push(key_of_part(parts[i].as_str()));
        i += 1;
    }
    proof {
        assert(byte_views(out@) =~= path_key(p@));
    }
    out
}

/// Positions arranged by a path that each of them has; the earlier position first among equals.
pub struct ByPath {
    keys: Vec<Vec<Vec<u8>>>,
}

impl ByPath {
    /// What a position is compared by.
    pub closed spec fn key(&self, i: usize) -> Seq<Seq<u8>> {
        if i < self.keys@.len() {
            byte_views(self.keys@[i as int]@)
        } else {
            Seq::empty()
        }
    }

    /// The order of the given paths.
    pub fn new(paths: &Vec<String>) -> (r: Self)
        ensures
            forall|i: usize| i < paths@.len() ==> #[trigger] r.key(i) == path_key(paths@[i as int]@),
    {
        let mut keys: Vec<Vec<Vec<u8>>> = Vec::new();
        let mut i: usize = 0;
        while i < paths.len()
            invariant
                i <= paths@.len(),
                keys@.len() == i,
                forall|k: int|
                    0 <= k < i ==> byte_views((#[trigger] keys@[k])@) == path_key(paths@[k]@),
            decreases paths@.len() - i,
        {
            keys.push(key_of_path(paths[i].as_str()));
            i += 1;
        }
        ByPath { keys }
    }
}

impl Order<usize> for ByPath {
    open spec fn before(&self, a: usize, b: usize) -> bool {
        if self.key(a) == self.key(b) {
            a <= b
        } else {
            no_later(self.key(a), self.key(b), bytes_order())
        }
    }

    proof fn laws(&self) {
        lemma_orders();
        let le = lists_order();
        let r = |a: usize, b: usize| self.before(a, b);
        assert forall|a: usize, b: usize, c: usize| #[trigger] r(a, b) && #[trigger] r(
            b,
            c,
        ) implies r(a, c) by {
            assert(le(self.key(a), self.key(b)) || self.key(a) == self.key(b));
            assert(le(self.key(b), self.key(c)) || self.key(b) == self.key(c));
            assert(le(self.key(a), self.key(a)));
            assert(le(self.key(a), self.key(c)));
            if self.key(a) == self.key(c) && self.key(a) != self.key(b) {
                assert(le(self.key(b), self.key(a)));
            }
        }
        assert forall|a: usize, b: usize| #[trigger] r(a, b) && #[trigger] r(b, a) implies a == b by {
            if self.key(a) != self.key(b) {
                assert(le(self.key(a), self.key(b)) && le(self.key(b), self.key(a)));
            }
        }
        assert forall|a: usize, b: usize| #[trigger] r(a, b) || #[trigger] r(b, a) by {
            assert(le(self.key(a), self.key(b)) || le(self.key(b), self.key(a)));
        }
    }

    fn is_before(&self, a: &usize, b: &usize) -> (r: bool) {
        let n: usize = self.keys.len();
        if *a < n && *b < n {
            match relate_lists(&self.keys[*a], &self.keys[*b]) {
                Relation::Before => true,
                Relation::Same => *a <= *b,
                Relation::After => false,
            }
        } else if *a < n {
            proof {
                assert(self.key(*b).len() == 0);
                assert(self.key(*a).len() == self.keys@[*a as int]@.len());
                if self.keys@[*a as int]@.len() == 0 {
                    assert(self.key(*a) =~= self.key(*b));
                }
            }
            self.keys[*a].len() == 0 && *a <= *b
        } else if *b < n {
            proof {
                assert(self.key(*a).len() == 0);
                assert(self.key(*b).len() == self.keys@[*b as int]@.len());
                if self.keys@[*b as int]@.len() == 0 {
                    assert(self.key(*a) =~= self.key(*b));
                }
            }
            self.keys[*b].len() > 0 || *a <= *b
        } else {
            *a <= *b
        }
    }
}

// ------------------------------------------------------------------ laws

/// What differs first decides: after the same beginning, the lesser part comes first, and a
/// sequence that ends comes before one that goes on.
pub proof fn the_first_difference_decides(c: Seq<u8>, x: u8, a: Seq<u8>, y: u8, b: Seq<u8>)
    ensures
        no_later(c, c + b, byte_order()),
        no_later(c + seq![y] + b, c, byte_order()) == false,
        x < y ==> no_later(c + seq![x] + a, c + seq![y] + b, byte_order()),
        x < y ==> !no_later(c + seq![y] + b, c + seq![x] + a, byte_order()),
    decreases c.len(),
{
    let p = c + seq![x] + a;
    let q = c + seq![y] + b;
    if c.len() == 0 {
        assert(p[0] == x && q[0] == y);
    } else {
        let d = c.drop_first();
        the_first_difference_decides(d, x, a, y, b);
        assert(p.drop_first() =~= d + seq![x] + a);
        assert(q.drop_first() =~= d + seq![y] + b);
        assert((c + b).drop_first() =~= d + b);
        assert(p[0] == c[0] && q[0] == c[0] && (c + b)[0] == c[0]);
    }
}

/// Paths are arranged component by component, a directory before what lies in it; names by their
/// bytes.
pub proof fn paths_are_arranged_by_their_components(a: Seq<char>, b: Seq<char>)
    ensures
        path::within(b, a) ==> path_no_later(a, b),
        path_no_later(a, b) || path_no_later(b, a),
        path_no_later(a, b) && path_no_later(b, a) ==> path::components(a) == path::components(b),
        class(seq!['/']) < class(seq!['.']),
        class(seq!['.']) < class(seq!['.', '.']),
        a != seq!['/'] && a != seq!['.'] && a != seq!['.', '.'] ==> class(seq!['.', '.']) < class(a),
        part_key(a)[0] == class(a),
        part_key(a).skip(1) == vstd::utf8::encode_utf8(a),
{
    lemma_orders();
    assert(seq!['/'][0] == '/' && seq!['.'][0] == '.');
    assert(seq!['.', '.'].len() == 2 && seq!['.'].len() == 1 && seq!['/'].len() == 1);
    assert(part_key(a).skip(1) =~= vstd::utf8::encode_utf8(a));
    lemma_connected(path_key(a), path_key(b), bytes_order());
    if path_no_later(a, b) && path_no_later(b, a) {
        lemma_neither_later(a, b);
    }
    if path::within(b, a) {
        lemma_container_first(b, a);
    }
}

} // verus!
