//! Slash-separated paths as text.
//!
//! A path is read as components: the root, if it starts with a slash, then the names between
//! slashes. Repeated and trailing slashes separate nothing, and a `.` is no component unless the
//! path begins with it.
use crate::text;
use vstd::prelude::*;

verus! {

/// A part of a path, from one character position up to another.
pub struct Span {
    pub start: usize,
    pub end: usize,
}

/// Whether the name from `a` to `b` counts as a component.
pub open spec fn counts(p: Seq<char>, a: int, b: int) -> bool {
    a < b && !(b == a + 1 && p[a] == '.' && a > 0)
}

/// The components that are complete after reading `p`, and where the name that it ends in began.
pub open spec fn scanned(p: Seq<char>) -> (Seq<(int, int)>, int)
    decreases p.len(),
{
    if p.len() == 0 {
        (seq![], 0)
    } else {
        let (done, start) = scanned(p.drop_last());
        let n = p.len() - 1;
        if p.last() == '/' {
            if counts(p, start, n) {
                (done.push((start, n)), p.len() as int)
            } else {
                (done, p.len() as int)
            }
        } else {
            (done, start)
        }
    }
}

/// Where the named components of `p` stand.
pub open spec fn spans(p: Seq<char>) -> Seq<(int, int)> {
    let (done, start) = scanned(p);
    if counts(p, start, p.len() as int) {
        done.push((start, p.len() as int))
    } else {
        done
    }
}

/// Whether `p` starts at the root.
pub open spec fn absolute(p: Seq<char>) -> bool {
    p.len() > 0 && p[0] == '/'
}

/// The named components of `p`.
pub open spec fn names(p: Seq<char>) -> Seq<Seq<char>> {
    spans(p).map_values(|s: (int, int)| p.subrange(s.0, s.1))
}

/// The components of `p`, the root written as a slash.
pub open spec fn components(p: Seq<char>) -> Seq<Seq<char>> {
    if absolute(p) {
        seq![seq!['/']] + names(p)
    } else {
        names(p)
    }
}

proof fn lemma_scanned(p: Seq<char>)
    ensures
        0 <= scanned(p).1 <= p.len(),
        forall|i: int|
            0 <= i < scanned(p).0.len() ==> 0 <= (#[trigger] scanned(p).0[i]).0 < scanned(p).0[i].1
                <= p.len(),
        forall|i: int, j: int|
            0 <= i < j < scanned(p).0.len() ==> (#[trigger] scanned(p).0[i]).1 <= (
            #[trigger] scanned(p).0[j]).0,
        forall|i: int|
            0 <= i < scanned(p).0.len() ==> (#[trigger] scanned(p).0[i]).1 <= scanned(p).1,
    decreases p.len(),
{
    if p.len() > 0 {
        lemma_scanned(p.drop_last());
    }
}

/// Components stand one after the other within the path.
proof fn lemma_spans(p: Seq<char>)
    ensures
        forall|i: int|
            0 <= i < spans(p).len() ==> 0 <= (#[trigger] spans(p)[i]).0 < spans(p)[i].1 <= p.len(),
        forall|i: int, j: int|
            0 <= i < j < spans(p).len() ==> (#[trigger] spans(p)[i]).1 <= (#[trigger] spans(p)[j]).0,
{
    lemma_scanned(p);
}

/// The spans as positions.
pub open spec fn positions(v: Seq<Span>) -> Seq<(int, int)> {
    v.map_values(|s: Span| (s.start as int, s.end as int))
}

proof fn lemma_positions_push(v: Seq<Span>, s: Span)
    ensures
        positions(v.push(s)) == positions(v).push((s.start as int, s.end as int)),
{
    assert(positions(v.push(s)) =~= positions(v).push((s.start as int, s.end as int)));
}

fn find_spans(cs: &Vec<char>) -> (r: Vec<Span>)
    ensures
        positions(r@) == spans(cs@),
{
    let mut out: Vec<Span> = Vec::new();
    let mut start: usize = 0;
    let mut i: usize = 0;
    proof {
        assert(positions(out@) =~= Seq::<(int, int)>::empty());
    }
    while i < cs.len()
        invariant
            i <= cs@.len(),
            start <= i,
            scanned(cs@.take(i as int)) == (positions(out@), start as int),
        decreases cs@.len() - i,
    {
        proof {
            assert(cs@.take(i + 1).drop_last() =~= cs@.take(i as int));
            assert(cs@.take(i + 1).last() == cs@[i as int]);
            assert(start < i ==> cs@.take(i + 1)[start as int] == cs@[start as int]);
        }
        if cs[i] == '/' {
            if start < i && !(i == start + 1 && cs[start] == '.' && start > 0) {
                let s = Span { start, end: i };
                proof {
                    lemma_positions_push(out@, s);
                }
                out.push(s);
            }
            start = i + 1;
        }
        i += 1;
    }
    proof {
        assert(cs@.take(cs@.len() as int) =~= cs@);
    }
    let n: usize = cs.len();
    if start < n && !(n == start + 1 && cs[start] == '.' && start > 0) {
        let s = Span { start, end: n };
        proof {
            lemma_positions_push(out@, s);
        }
        out.push(s);
    }
    out
}

/// The components of `p`, the root written as a slash.
pub fn components_of(p: &str) -> (r: Vec<String>)
    ensures
        text::views(r@) == components(p@),
{
    let cs = text::chars_of(p);
    let sp = find_spans(&cs);
    let mut out: Vec<String> = Vec::new();
    let abs = cs.len() > 0 && cs[0] == '/';
    proof {
        lemma_spans(p@);
        assert(text::views(out@) =~= Seq::<Seq<char>>::empty());
    }
    if abs {
        let mut root = String::new();
        root.push('/');
        proof {
            assert(root@ =~= seq!['/']);
            text::lemma_views_push(out@, root);
        }
        out.push(root);
    }
    let ghost head = text::views(out@);
    let mut i: usize = 0;
    proof {
        assert(head =~= head + names(p@).take(0));
    }
    while i < sp.len()
        invariant
            cs@ == p@,
            positions(sp@) == spans(p@),
            positions(sp@).len() == sp@.len(),
            forall|i: int|
                0 <= i < spans(p@).len() ==> 0 <= (#[trigger] spans(p@)[i]).0 < spans(p@)[i].1
                    <= p@.len(),
            i <= sp@.len(),
            text::views(out@) == head + names(p@).take(i as int),
        decreases sp@.len() - i,
    {
        proof {
            assert(positions(sp@)[i as int] == (sp@[i as int].start as int, sp@[i as int].end as int));
        }
        let name = text::from_chars(&cs[sp[i].start..sp[i].end]);
        proof {
            assert(name@ == names(p@)[i as int]);
            text::lemma_views_push(out@, name);
            assert(names(p@).take(i + 1) =~= names(p@).take(i as int).push(name@));
            assert(text::views(out@).push(name@) =~= head + names(p@).take(i + 1));
        }
        out.push(name);
        i += 1;
    }
    proof {
        assert(names(p@).take(names(p@).len() as int) =~= names(p@));
        assert(text::views(out@) =~= components(p@));
    }
    out
}

/// Whether `p` starts at the root.
pub fn is_absolute(p: &str) -> (r: bool)
    ensures
        r == absolute(p@),
{
    let cs = text::chars_of(p);
    cs.len() > 0 && cs[0] == '/'
}

// ------------------------------------------------------------------ parts of a path

/// The path without its last named component, as it is spelled; `None` where there is none.
pub open spec fn parent_of(p: Seq<char>) -> Option<Seq<char>> {
    let s = spans(p);
    if s.len() == 0 {
        None
    } else if s.len() >= 2 {
        Some(p.take(s[s.len() - 2].1))
    } else if absolute(p) {
        Some(p.take(1))
    } else {
        Some(p.take(0))
    }
}

/// The path without its last component.
pub fn parent(p: &str) -> (r: Option<String>)
    ensures
        match r {
            Some(q) => parent_of(p@) == Some(q@),
            None => parent_of(p@) is None,
        },
{
    let cs = text::chars_of(p);
    let sp = find_spans(&cs);
    proof {
        lemma_spans(p@);
        assert(positions(sp@).len() == sp@.len());
    }
    let n: usize = sp.len();
    if n == 0 {
        return None;
    }
    let end: usize = if n >= 2 {
        proof {
            assert(positions(sp@)[n - 2] == (sp@[n - 2].start as int, sp@[n - 2].end as int));
        }
        sp[n - 2].end
    } else if cs.len() > 0 && cs[0] == '/' {
        1
    } else {
        0
    };
    proof {
        assert(cs@.subrange(0, end as int) =~= p@.take(end as int));
    }
    Some(text::from_chars(&cs[0..end]))
}

/// The last component, unless it is `.` or `..`.
pub open spec fn file_name_of(p: Seq<char>) -> Option<Seq<char>> {
    let n = names(p);
    if n.len() == 0 || n.last() == seq!['.'] || n.last() == seq!['.', '.'] {
        None
    } else {
        Some(n.last())
    }
}

/// The last component, unless it is `.` or `..`.
pub fn file_name(p: &str) -> (r: Option<String>)
    ensures
        match r {
            Some(q) => file_name_of(p@) == Some(q@),
            None => file_name_of(p@) is None,
        },
{
    let cs = text::chars_of(p);
    let sp = find_spans(&cs);
    proof {
        lemma_spans(p@);
        assert(positions(sp@).len() == sp@.len());
    }
    let n: usize = sp.len();
    if n == 0 {
        return None;
    }
    proof {
        assert(positions(sp@)[n - 1] == (sp@[n - 1].start as int, sp@[n - 1].end as int));
    }
    let a: usize = sp[n - 1].start;
    let b: usize = sp[n - 1].end;
    let ghost name = p@.subrange(a as int, b as int);
    proof {
        assert(names(p@).last() == name);
    }
    if b - a == 1 && cs[a] == '.' {
        proof {
            assert(name =~= seq!['.']);
        }
        return None;
    }
    if b - a == 2 && cs[a] == '.' && cs[a + 1] == '.' {
        proof {
            assert(name =~= seq!['.', '.']);
        }
        return None;
    }
    proof {
        if name == seq!['.'] {
            assert(name[0] == '.');
        }
        if name == seq!['.', '.'] {
            assert(name[0] == '.' && name[1] == '.');
        }
    }
    Some(text::from_chars(&cs[a..b]))
}

/// Where the last `c` of `s` stands.
pub open spec fn last_index(s: Seq<char>, c: char) -> Option<int>
    decreases s.len(),
{
    if s.len() == 0 {
        None
    } else if s.last() == c {
        Some(s.len() - 1)
    } else {
        last_index(s.drop_last(), c)
    }
}

/// The last `c` stands within and is one, with none after it; there is none only where none stands
/// anywhere.
pub proof fn lemma_last_index(s: Seq<char>, c: char)
    ensures
        last_index(s, c) matches Some(i) ==> 0 <= i < s.len() && s[i] == c,
        last_index(s, c) matches Some(i) ==> forall|k: int| i < k < s.len() ==> s[k] != c,
        last_index(s, c) is None <==> !s.contains(c),
    decreases s.len(),
{
    if s.len() > 0 {
        let init = s.drop_last();
        let n = s.len() - 1;
        lemma_last_index(init, c);
        if s.last() == c {
            assert(s[n] == c);
        } else {
            if s.contains(c) {
                let i = choose|i: int| 0 <= i < s.len() && s[i] == c;
                assert(init[i] == c);
            }
            if init.contains(c) {
                let i = choose|i: int| 0 <= i < init.len() && init[i] == c;
                assert(s[i] == c);
            }
            assert forall|k: int| last_index(s, c) is Some && last_index(s, c)->0 < k
                < s.len() implies s[k] != c by {
                if k < n {
                    assert(init[k] == s[k]);
                }
            }
        }
    }
}

/// Where the last `c` stands.
pub fn find_last(cs: &Vec<char>, c: char) -> (r: Option<usize>)
    ensures
        match r {
            Some(i) => last_index(cs@, c) == Some(i as int) && i < cs@.len(),
            None => last_index(cs@, c) is None,
        },
{
    let mut n: usize = cs.len();
    proof {
        assert(cs@.take(n as int) =~= cs@);
    }
    while n > 0
        invariant
            n <= cs@.len(),
            last_index(cs@, c) == last_index(cs@.take(n as int), c),
        decreases n,
    {
        proof {
            assert(cs@.take(n as int).drop_last() =~= cs@.take(n - 1));
            assert(cs@.take(n as int).last() == cs@[n - 1]);
        }
        if cs[n - 1] == c {
            return Some(n - 1);
        }
        n -= 1;
    }
    None
}

/// What stands after the last dot of a file name that does not begin with it.
pub open spec fn extension_of(p: Seq<char>) -> Option<Seq<char>> {
    match file_name_of(p) {
        None => None,
        Some(f) => match last_index(f, '.') {
            None => None,
            Some(i) => if i == 0 {
                None
            } else {
                Some(f.skip(i + 1))
            },
        },
    }
}

/// The extension of the file name, without its dot.
pub fn extension(p: &str) -> (r: Option<String>)
    ensures
        match r {
            Some(q) => extension_of(p@) == Some(q@),
            None => extension_of(p@) is None,
        },
{
    match file_name(p) {
        None => None,
        Some(f) => {
            let fs = text::chars_of(f.as_str());
            match find_last(&fs, '.') {
                None => None,
                Some(i) => {
                    if i == 0 {
                        return None;
                    }
                    proof {
                        assert(fs@.subrange(i + 1, fs@.len() as int) =~= fs@.skip(i + 1));
                    }
                    Some(text::from_chars(&fs[i + 1..fs.len()]))
                },
            }
        },
    }
}

/// The path with its file name's extension replaced by `ext`, or with `ext` added where it had
/// none; unchanged where there is no file name. `ext` is not empty.
pub open spec fn with_extension_of(p: Seq<char>, ext: Seq<char>) -> Seq<char> {
    match file_name_of(p) {
        None => p,
        Some(f) => {
            let start = spans(p).last().0;
            let stem = match last_index(f, '.') {
                None => f.len() as int,
                Some(i) => if i == 0 {
                    f.len() as int
                } else {
                    i
                },
            };
            p.take(start + stem) + seq!['.'] + ext
        },
    }
}

/// Replaces the extension of the file name.
pub fn with_extension(p: &str, ext: &str) -> (r: String)
    requires
        ext@.len() > 0,
    ensures
        r@ == with_extension_of(p@, ext@),
{
    match file_name(p) {
        None => p.to_owned(),
        Some(f) => {
            let cs = text::chars_of(p);
            let sp = find_spans(&cs);
            proof {
                lemma_spans(p@);
                assert(positions(sp@).len() == sp@.len());
                assert(positions(sp@)[sp@.len() - 1] == (
                    sp@[sp@.len() - 1].start as int,
                    sp@[sp@.len() - 1].end as int,
                ));
                lemma_last_index(f@, '.');
            }
            let start: usize = sp[sp.len() - 1].start;
            let fs = text::chars_of(f.as_str());
            let stem: usize = match find_last(&fs, '.') {
                None => fs.len(),
                Some(i) => if i == 0 {
                    fs.len()
                } else {
                    i
                },
            };
            proof {
                assert(f@.len() == spans(p@).last().1 - spans(p@).last().0);
            }
            let mut out = text::from_chars(&cs[0..start + stem]);
            out.push('.');
            out.append(ext);
            proof {
                assert(cs@.subrange(0, start + stem) =~= p@.take(start + stem));
                assert(out@ =~= with_extension_of(p@, ext@));
            }
            out
        },
    }
}

/// `b` as seen from `a`: `b` itself where it is absolute, else `a`, a slash unless one is there
/// already, and `b`.
pub open spec fn joined(a: Seq<char>, b: Seq<char>) -> Seq<char> {
    if absolute(b) {
        b
    } else if a.len() == 0 || a.last() == '/' {
        a + b
    } else {
        a.push('/') + b
    }
}

/// Joins two paths.
pub fn join(a: &str, b: &str) -> (r: String)
    ensures
        r@ == joined(a@, b@),
{
    if is_absolute(b) {
        return b.to_owned();
    }
    let cs = text::chars_of(a);
    let mut out = a.to_owned();
    if cs.len() > 0 && cs[cs.len() - 1] != '/' {
        out.push('/');
    }
    out.append(b);
    out
}

// ------------------------------------------------------------------ containment

/// Whether `p` is `base` or lies below it: the components of `base` come first in those of `p`.
pub open spec fn within(p: Seq<char>, base: Seq<char>) -> bool {
    let c = components(p);
    let b = components(base);
    b.len() <= c.len() && c.take(b.len() as int) == b
}

/// Whether `a` begins with the parts of `b`.
fn begins_with_parts(a: &Vec<String>, b: &Vec<String>) -> (r: bool)
    ensures
        r == (b@.len() <= a@.len() && text::views(a@).take(b@.len() as int) == text::views(b@)),
{
    if b.len() > a.len() {
        return false;
    }
    let mut i: usize = 0;
    while i < b.len()
        invariant
            b@.len() <= a@.len(),
            i <= b@.len(),
            forall|k: int| 0 <= k < i ==> a@[k]@ == b@[k]@,
        decreases b@.len() - i,
    {
        if a[i] != b[i] {
            proof {
                assert(text::views(a@).take(b@.len() as int)[i as int] == a@[i as int]@);
                assert(text::views(b@)[i as int] == b@[i as int]@);
            }
            return false;
        }
        i += 1;
    }
    proof {
        assert(text::views(a@).take(b@.len() as int) =~= text::views(b@));
    }
    true
}

/// Whether `p` is `base` or lies below it. `projects-old` starts with the text `projects` but does
/// not lie below it.
pub fn is_within(p: &str, base: &str) -> (r: bool)
    ensures
        r == within(p@, base@),
{
    let a = components_of(p);
    let b = components_of(base);
    proof {
        assert(text::views(a@).len() == a@.len());
        assert(text::views(b@).len() == b@.len());
    }
    begins_with_parts(&a, &b)
}

/// Whether two paths name the same place: they have the same components.
pub open spec fn same_place(a: Seq<char>, b: Seq<char>) -> bool {
    components(a) == components(b)
}

/// Whether two paths name the same place.
pub fn same_path(a: &str, b: &str) -> (r: bool)
    ensures
        r == same_place(a@, b@),
{
    let x = components_of(a);
    let y = components_of(b);
    proof {
        assert(text::views(x@).len() == x@.len());
        assert(text::views(y@).len() == y@.len());
        if x@.len() == y@.len() {
            assert(text::views(x@).take(y@.len() as int) =~= text::views(x@));
        }
    }
    x.len() == y.len() && begins_with_parts(&x, &y)
}

/// What was complete after a part of the path stays so.
proof fn lemma_scanned_end(p: Seq<char>, m: int)
    requires
        0 <= m < scanned(p).0.len(),
    ensures
        ({
            let (a, e) = scanned(p).0[m];
            &&& 0 <= a < e < p.len()
            &&& counts(p, a, e)
            &&& scanned(p.take(e)) == (scanned(p).0.take(m), a)
        }),
    decreases p.len(),
{
    let q = p.drop_last();
    let before = scanned(q).0;
    lemma_scanned(q);
    if m < before.len() {
        lemma_scanned_end(q, m);
        let e = before[m].1;
        assert(scanned(p).0[m] == before[m]);
        assert(q.take(e) =~= p.take(e));
        assert(scanned(p).0.take(m) =~= before.take(m));
    } else {
        assert(p.take(p.len() - 1) =~= q);
        assert(scanned(p).0.take(m) =~= before);
    }
}

/// The parent has the components of its child but the last, and is spelled shorter.
pub proof fn lemma_parent(p: Seq<char>)
    ensures
        match parent_of(p) {
            Some(q) => {
                &&& components(p).len() > 0
                &&& components(q) == components(p).drop_last()
                &&& names(p).len() > 0
                &&& names(q) == names(p).drop_last()
                &&& absolute(q) == absolute(p)
                &&& q.len() < p.len()
            },
            None => names(p).len() == 0,
        },
{
    lemma_spans(p);
    lemma_scanned(p);
    let s = spans(p);
    let n = s.len() as int;
    if n >= 2 {
        let done = scanned(p).0;
        let (a, e) = s[n - 2];
        assert(s[n - 2].1 <= s[n - 1].0);
        assert(done[n - 2] == s[n - 2]);
        lemma_scanned_end(p, n - 2);
        let q = p.take(e);
        assert(q[a] == p[a]);
        assert(q.len() == e);
        assert(spans(q) =~= s.drop_last());
        assert forall|i: int| 0 <= i < n - 1 implies #[trigger] names(q)[i] == names(p)[i] by {
            assert(spans(q)[i] == s[i]);
            assert(s[i].1 <= e) by {
                if i < n - 2 {
                    assert(s[i].1 <= s[n - 2].0);
                }
            }
            assert(q.subrange(s[i].0, s[i].1) =~= p.subrange(s[i].0, s[i].1));
        }
        assert(names(q) =~= names(p).drop_last());
        assert(q[0] == p[0]);
        assert(components(q) =~= components(p).drop_last());
    } else if n == 1 && absolute(p) {
        lemma_absolute_start(p);
        let q = p.take(1);
        assert(s[0].0 >= 1 && s[0].1 <= p.len());
        assert(q.drop_last() =~= Seq::<char>::empty());
        assert(scanned(q.drop_last()) == (Seq::<(int, int)>::empty(), 0int));
        assert(scanned(q).0 =~= Seq::<(int, int)>::empty());
        assert(spans(q) =~= s.drop_last());
        assert(names(q) =~= names(p).drop_last());
        assert(components(q) =~= components(p).drop_last());
    } else if n == 1 {
        let q = p.take(0);
        assert(s[0].0 < s[0].1 <= p.len());
        assert(spans(q) =~= s.drop_last());
        assert(names(q) =~= names(p).drop_last());
        assert(components(q) =~= components(p).drop_last());
    }
}

/// In an absolute path the root comes before every name.
proof fn lemma_absolute_start(p: Seq<char>)
    requires
        absolute(p),
    ensures
        scanned(p).1 >= 1,
        forall|i: int| 0 <= i < scanned(p).0.len() ==> (#[trigger] scanned(p).0[i]).0 >= 1,
        forall|i: int| 0 <= i < spans(p).len() ==> (#[trigger] spans(p)[i]).0 >= 1,
    decreases p.len(),
{
    if p.len() == 1 {
        assert(p.drop_last() =~= Seq::<char>::empty());
        assert(scanned(p.drop_last()) == (Seq::<(int, int)>::empty(), 0int));
    } else {
        assert(p.drop_last()[0] == p[0]);
        lemma_absolute_start(p.drop_last());
    }
}

/// Whether `f` can stand as a component of its own, and names something.
pub open spec fn is_name(f: Seq<char>) -> bool {
    f.len() > 0 && !f.contains('/') && f != seq!['.'] && f != seq!['.', '.']
}

/// A text without a slash completes no component.
proof fn lemma_scanned_appended(d: Seq<char>, f: Seq<char>)
    requires
        !f.contains('/'),
    ensures
        scanned(d + f) == scanned(d),
    decreases f.len(),
{
    if f.len() == 0 {
        assert(d + f =~= d);
    } else {
        let g = f.drop_last();
        assert forall|i: int| 0 <= i < g.len() implies g[i] != '/' by {
            assert(f.contains(f[i]));
        }
        assert(f.contains(f.last()));
        lemma_scanned_appended(d, g);
        assert((d + f).drop_last() =~= d + g);
    }
}

/// A name joined to a path is its last component.
pub proof fn lemma_joined_name(d: Seq<char>, f: Seq<char>)
    requires
        is_name(f),
    ensures
        components(joined(d, f)) == components(d).push(f),
        file_name_of(joined(d, f)) == Some(f),
        spans(joined(d, f)).last().0 == joined(d, f).len() - f.len(),
{
    assert(f.contains(f[0]));
    let base = if d.len() == 0 || d.last() == '/' {
        d
    } else {
        d.push('/')
    };
    let p = joined(d, f);
    assert(p == base + f);
    lemma_spans(d);
    lemma_scanned_appended(base, f);
    if d.len() > 0 && d.last() != '/' {
        assert(base.drop_last() =~= d);
        lemma_scanned(d);
        assert(base[scanned(d).1] == d[scanned(d).1] || scanned(d).1 == d.len());
        assert(scanned(base) == (spans(d), base.len() as int));
    } else {
        assert(scanned(d).1 == d.len());
        assert(scanned(base) == (spans(d), base.len() as int));
    }
    let n = base.len() as int;
    if f.len() == 1 && p[n] == '.' {
        assert(f =~= seq!['.']);
    }
    assert(spans(p) == spans(d).push((n, p.len() as int)));
    assert forall|i: int| 0 <= i < spans(d).len() implies #[trigger] names(p)[i] == names(d)[i] by {
        let s = spans(d)[i];
        assert(spans(p)[i] == s);
        assert(p.subrange(s.0, s.1) =~= d.subrange(s.0, s.1));
    }
    assert(p.subrange(n, p.len() as int) =~= f);
    assert(names(p) =~= names(d).push(f));
    assert(components(p) =~= components(d).push(f));
}

/// The part of `p` below `base`, as it is spelled; `None` where `p` does not lie below it.
pub open spec fn below(p: Seq<char>, base: Seq<char>) -> Option<Seq<char>> {
    if !within(p, base) {
        None
    } else {
        let s = spans(p);
        let k = names(base).len() as int;
        let end = if s.len() > 0 {
            s.last().1
        } else if absolute(p) {
            1
        } else {
            0
        };
        if components(base).len() == 0 {
            Some(p.take(end))
        } else if k < s.len() {
            Some(p.subrange(s[k].0, end))
        } else {
            Some(Seq::<char>::empty())
        }
    }
}

/// The part of `p` below `base`.
pub fn strip_prefix(p: &str, base: &str) -> (r: Option<String>)
    ensures
        match r {
            Some(q) => below(p@, base@) == Some(q@),
            None => below(p@, base@) is None,
        },
{
    if !is_within(p, base) {
        return None;
    }
    let cs = text::chars_of(p);
    let sp = find_spans(&cs);
    let bs = text::chars_of(base);
    let bsp = find_spans(&bs);
    proof {
        lemma_spans(p@);
        assert(positions(sp@).len() == sp@.len());
        assert(positions(bsp@).len() == bsp@.len());
        assert(names(base@).len() == bsp@.len());
    }
    let n: usize = sp.len();
    let k: usize = bsp.len();
    let end: usize = if n > 0 {
        proof {
            assert(positions(sp@)[n - 1] == (sp@[n - 1].start as int, sp@[n - 1].end as int));
        }
        sp[n - 1].end
    } else if cs.len() > 0 && cs[0] == '/' {
        1
    } else {
        0
    };
    if k == 0 && !(bs.len() > 0 && bs[0] == '/') {
        proof {
            assert(cs@.subrange(0, end as int) =~= p@.take(end as int));
        }
        return Some(text::from_chars(&cs[0..end]));
    }
    if k < n {
        proof {
            assert(positions(sp@)[k as int] == (sp@[k as int].start as int, sp@[k as int].end as int));
            if k < n - 1 {
                assert(spans(p@)[k as int].1 <= spans(p@)[n - 1].0);
            }
        }
        return Some(text::from_chars(&cs[sp[k].start..end]));
    }
    Some(String::new())
}

// ------------------------------------------------------------------ normalising

/// Where a walk along `steps` leads: `.` stays, `..` goes up, anything else goes down.
pub open spec fn walked(steps: Seq<Seq<char>>) -> Seq<Seq<char>>
    decreases steps.len(),
{
    if steps.len() == 0 {
        seq![]
    } else {
        let at = walked(steps.drop_last());
        let step = steps.last();
        if step == seq!['.'] {
            at
        } else if step == seq!['.', '.'] {
            if at.len() > 0 {
                at.drop_last()
            } else {
                at
            }
        } else {
            at.push(step)
        }
    }
}

/// `p` without `.`, `..`, and needless slashes, by its spelling alone.
pub open spec fn normal(p: Seq<char>) -> Seq<char> {
    let names = text::joined(walked(names(p)), seq!['/']);
    if absolute(p) {
        seq!['/'] + names
    } else {
        names
    }
}

fn is_dot(s: &str) -> (r: bool)
    ensures
        r == (s@ == seq!['.']),
{
    let cs = text::chars_of(s);
    if cs.len() == 1 && cs[0] == '.' {
        proof {
            assert(s@ =~= seq!['.']);
        }
        return true;
    }
    proof {
        if s@ == seq!['.'] {
            assert(s@[0] == '.');
        }
    }
    false
}

fn is_dot_dot(s: &str) -> (r: bool)
    ensures
        r == (s@ == seq!['.', '.']),
{
    let cs = text::chars_of(s);
    if cs.len() == 2 && cs[0] == '.' && cs[1] == '.' {
        proof {
            assert(s@ =~= seq!['.', '.']);
        }
        return true;
    }
    proof {
        if s@ == seq!['.', '.'] {
            assert(s@[0] == '.' && s@[1] == '.');
        }
    }
    false
}

/// Lexically removes `.`, `..` and trailing slashes. Symlinks are not resolved, since indexed paths
/// should read back the way the user typed them.
pub fn normalise(p: &str) -> (r: String)
    ensures
        r@ == normal(p@),
{
    let parts = components_of(p);
    let abs = is_absolute(p);
    let from: usize = if abs {
        1
    } else {
        0
    };
    let ghost steps = names(p@);
    proof {
        assert(text::views(parts@).len() == parts@.len());
        assert(parts@.len() == from + steps.len());
    }
    let mut at: Vec<String> = Vec::new();
    let mut i: usize = from;
    proof {
        assert(text::views(at@) =~= walked(steps.take(0)));
    }
    while i < parts.len()
        invariant
            from <= i <= parts@.len(),
            from == (if absolute(p@) {
                1int
            } else {
                0
            }),
            steps == names(p@),
            text::views(parts@) == components(p@),
            parts@.len() == from + steps.len(),
            text::views(at@) == walked(steps.take(i - from)),
        decreases parts@.len() - i,
    {
        let step = parts[i].as_str();
        proof {
            assert(text::views(parts@)[i as int] == step@);
            assert(steps[i - from] == step@);
            assert(steps.take(i + 1 - from).drop_last() =~= steps.take(i - from));
            assert(steps.take(i + 1 - from).last() == step@);
            assert(text::views(at@).len() == at@.len());
        }
        if is_dot(step) {
        } else if is_dot_dot(step) {
            if at.len() > 0 {
                let ghost before = text::views(at@);
                at.pop();
                proof {
                    assert(text::views(at@) =~= before.drop_last());
                }
            }
        } else {
            let s = step.to_owned();
            proof {
                text::lemma_views_push(at@, s);
            }
            at.push(s);
        }
        i += 1;
    }
    proof {
        assert(steps.take(steps.len() as int) =~= steps);
        reveal_strlit("/");
        assert("/"@ =~= seq!['/']);
    }
    let names = text::join(&at, "/");
    if abs {
        let mut out = String::new();
        out.push('/');
        out.append(names.as_str());
        proof {
            assert(out@ =~= seq!['/'] + names@);
        }
        out
    } else {
        names
    }
}

// ------------------------------------------------------------------ laws

/// A normalised path has no `.` and no `..` left in it.
pub proof fn normalising_leaves_no_dots(steps: Seq<Seq<char>>, i: int)
    requires
        0 <= i < walked(steps).len(),
    ensures
        walked(steps)[i] != seq!['.'],
        walked(steps)[i] != seq!['.', '.'],
    decreases steps.len(),
{
    if steps.len() > 0 {
        let at = walked(steps.drop_last());
        if i < at.len() {
            normalising_leaves_no_dots(steps.drop_last(), i);
            assert(walked(steps)[i] == at[i]);
        }
    }
}

/// Normalising a second time changes nothing.
pub proof fn normalising_is_done_once(steps: Seq<Seq<char>>)
    ensures
        walked(walked(steps)) == walked(steps),
{
    let all = walked(steps);
    assert forall|i: int| 0 <= i < all.len() implies #[trigger] all[i] != seq!['.'] && all[i]
        != seq!['.', '.'] by {
        normalising_leaves_no_dots(steps, i);
    }
    lemma_walked_without_dots(all);
}

/// A walk that only goes down ends where it went.
proof fn lemma_walked_without_dots(steps: Seq<Seq<char>>)
    requires
        forall|i: int|
            0 <= i < steps.len() ==> #[trigger] steps[i] != seq!['.'] && steps[i] != seq!['.', '.'],
    ensures
        walked(steps) == steps,
    decreases steps.len(),
{
    if steps.len() > 0 {
        let init = steps.drop_last();
        assert forall|i: int| 0 <= i < init.len() implies #[trigger] init[i] != seq!['.'] && init[i]
            != seq!['.', '.'] by {
            assert(steps[i] == init[i]);
        }
        assert(steps[steps.len() - 1] == steps.last());
        lemma_walked_without_dots(init);
        assert(walked(steps) =~= steps);
    }
}

/// A path without names has no components but the root; a slash at the end of a path adds none, and
/// neither does a dot after a slash.
pub proof fn slashes_and_dots_name_nothing(d: Seq<char>)
    ensures
        components(Seq::<char>::empty()) == Seq::<Seq<char>>::empty(),
        components(seq!['/']) == seq![seq!['/']],
        d.len() > 0 ==> components(d.push('/')) == components(d),
        d.len() > 0 && d.last() == '/' ==> components(d.push('.')) == components(d),
{
    assert(components(Seq::<char>::empty()) =~= Seq::<Seq<char>>::empty());
    let root = seq!['/'];
    assert(root.drop_last() =~= Seq::<char>::empty());
    assert(scanned(root.drop_last()) == (Seq::<(int, int)>::empty(), 0int));
    assert(spans(root) =~= Seq::<(int, int)>::empty());
    assert(components(root) =~= seq![seq!['/']]);
    if d.len() > 0 {
        lemma_scanned(d);
        lemma_spans(d);
        let e = d.push('/');
        assert(e.drop_last() =~= d);
        assert(spans(e) =~= spans(d)) by {
            assert(counts(e, scanned(d).1, d.len() as int) == counts(
                d,
                scanned(d).1,
                d.len() as int,
            ));
        }
        lemma_same_names(d, e);
        if d.last() == '/' {
            let f = d.push('.');
            assert(f.drop_last() =~= d);
            assert(scanned(d).1 == d.len());
            assert(!counts(f, d.len() as int, f.len() as int));
            assert(spans(f) =~= spans(d));
            lemma_same_names(d, f);
        }
    }
}

/// The same spans in what begins with the same text are the same names.
proof fn lemma_same_names(d: Seq<char>, e: Seq<char>)
    requires
        d.len() > 0,
        d.len() <= e.len(),
        e.take(d.len() as int) == d,
        spans(e) == spans(d),
    ensures
        components(e) == components(d),
{
    lemma_spans(d);
    assert(e[0] == e.take(d.len() as int)[0]);
    assert forall|i: int| 0 <= i < spans(d).len() implies #[trigger] names(e)[i] == names(d)[i] by {
        let s = spans(d)[i];
        assert forall|j: int| 0 <= j < d.len() implies e[j] == #[trigger] d[j] by {
            assert(e.take(d.len() as int)[j] == e[j]);
        }
        assert(e.subrange(s.0, s.1) =~= d.subrange(s.0, s.1));
    }
    assert(names(e) =~= names(d));
    assert(components(e) =~= components(d));
}

/// A path lies within another exactly where it has all of its components first; and joining a name
/// leads into the directory, to the name.
pub proof fn a_joined_name_lies_in_the_directory(d: Seq<char>, f: Seq<char>, b: Seq<char>)
    requires
        is_name(f),
    ensures
        within(joined(d, f), d),
        !within(d, joined(d, f)),
        components(joined(d, f)).last() == f,
        file_name_of(joined(d, f)) == Some(f),
        parent_of(joined(d, f)) is Some,
        components(parent_of(joined(d, f))->0) == components(d),
        absolute(b) ==> joined(d, b) == b,
        within(d, b) ==> within(joined(d, f), b),
        same_place(d, b) <==> within(d, b) && within(b, d),
{
    lemma_joined_name(d, f);
    lemma_parent(joined(d, f));
    let c = components(d);
    let j = components(joined(d, f));
    assert(j.take(c.len() as int) =~= c);
    assert(j.drop_last() =~= c);
    let e = components(b);
    if within(d, b) {
        assert(j.take(e.len() as int) =~= c.take(e.len() as int));
        if within(b, d) {
            assert(c.take(e.len() as int) =~= c);
        }
    }
    if same_place(d, b) {
        assert(c.take(c.len() as int) =~= c);
    }
}

/// The extension is what follows the last dot of the name, unless the name begins with it; and
/// putting another in its place changes nothing else.
pub proof fn the_extension_follows_the_last_dot(
    d: Seq<char>,
    stem: Seq<char>,
    e: Seq<char>,
    x: Seq<char>,
)
    requires
        stem.len() > 0,
        !stem.contains('/'),
        !e.contains('/'),
        !e.contains('.'),
        is_name(stem + seq!['.'] + e),
    ensures
        extension_of(joined(d, stem + seq!['.'] + e)) == Some(e),
        with_extension_of(joined(d, stem + seq!['.'] + e), x) == joined(d, stem + seq!['.'] + x),
{
    let f = stem + seq!['.'] + e;
    lemma_joined_name(d, f);
    lemma_dot_at(stem, e);
    assert(f.skip(stem.len() as int + 1) =~= e);
    let p = joined(d, f);
    assert(stem[0] != '/') by {
        assert(stem.contains(stem[0]));
    }
    assert(p.take(p.len() - f.len() + stem.len()) + seq!['.'] + x =~= joined(
        d,
        stem + seq!['.'] + x,
    ));
}

proof fn lemma_dot_at(stem: Seq<char>, e: Seq<char>)
    requires
        !e.contains('.'),
    ensures
        last_index(stem + seq!['.'] + e, '.') == Some(stem.len() as int),
    decreases e.len(),
{
    let f = stem + seq!['.'] + e;
    if e.len() > 0 {
        assert(e.contains(e.last()));
        let g = e.drop_last();
        assert forall|i: int| 0 <= i < g.len() implies g[i] != '.' by {
            assert(e.contains(e[i]));
        }
        assert(f.drop_last() =~= stem + seq!['.'] + g);
        lemma_dot_at(stem, g);
    }
}

/// A name without a dot, or with none but the one it begins with, has no extension; another is then
/// put behind it.
pub proof fn a_name_without_a_dot_has_no_extension(d: Seq<char>, f: Seq<char>, x: Seq<char>)
    requires
        is_name(f),
        !f.drop_first().contains('.'),
    ensures
        extension_of(joined(d, f)) is None,
        with_extension_of(joined(d, f), x) == joined(d, f + seq!['.'] + x),
{
    lemma_joined_name(d, f);
    lemma_last_index(f, '.');
    match last_index(f, '.') {
        Some(i) => {
            if i > 0 {
                assert(f.drop_first()[i - 1] == f[i]);
                assert(f.drop_first().contains('.'));
            }
        },
        None => {},
    }
    let p = joined(d, f);
    assert(f[0] != '/') by {
        assert(f.contains(f[0]));
    }
    assert(p.take(p.len() as int) + seq!['.'] + x =~= joined(d, f + seq!['.'] + x));
}

/// What lies directly in a directory is called by its name there; what lies deeper, by the name of
/// its own directory there, a slash, and its name. A directory has no name in itself, and what does
/// not lie in it has none there.
pub proof fn what_lies_below_is_called_by_its_names(base: Seq<char>, q: Seq<char>, f: Seq<char>)
    requires
        is_name(f),
        components(base).len() > 0,
    ensures
        below(joined(base, f), base) == Some(f),
        within(base, base) && below(base, base) == Some(Seq::<char>::empty()),
        !within(q, base) ==> below(q, base) is None,
        within(q, base) && components(q).len() > components(base).len() && spans(q).len() > 0
            && spans(q).last().1 == q.len() ==> below(joined(q, f), base) == Some(
            below(q, base)->0 + seq!['/'] + f,
        ),
{
    lemma_joined_name(base, f);
    let c = components(base);
    let p = joined(base, f);
    lemma_spans(p);
    lemma_joined_spans(base, f);
    assert(components(p).take(c.len() as int) =~= c);
    assert(p.subrange(p.len() - f.len(), p.len() as int) =~= f);
    assert(c.take(c.len() as int) =~= c);
    if within(q, base) && components(q).len() > c.len() && spans(q).len() > 0 && spans(q).last().1
        == q.len() {
        lemma_joined_name(q, f);
        lemma_joined_spans(q, f);
        lemma_spans(q);
        let j = joined(q, f);
        lemma_spans(j);
        assert(components(j).take(c.len() as int) =~= components(q).take(c.len() as int));
        let k = names(base).len() as int;
        lemma_absolute_within(q, base);
        assert(k < spans(q).len());
        lemma_no_slash_last(q);
        assert(q.last() != '/');
        assert(j == q.push('/') + f);
        assert(spans(j)[k] == spans(q)[k]);
        assert(j.subrange(spans(q)[k].0, j.len() as int) =~= q.subrange(
            spans(q)[k].0,
            q.len() as int,
        ) + seq!['/'] + f);
    }
}

/// What lies within an absolute path is absolute, and conversely.
proof fn lemma_absolute_within(q: Seq<char>, base: Seq<char>)
    requires
        within(q, base),
        components(base).len() > 0,
        spans(q).len() > 0,
        components(q).len() > components(base).len(),
    ensures
        names(base).len() < spans(q).len(),
{
    let c = components(q);
    let b = components(base);
    assert(b[0] == c.take(b.len() as int)[0]);
    lemma_names_hold_no_slash(q);
    lemma_names_hold_no_slash(base);
    if absolute(q) && !absolute(base) {
        assert(b[0] == names(base)[0]);
        assert(c[0] == seq!['/']);
        assert(names(base)[0].contains('/')) by {
            assert(names(base)[0][0] == '/');
        }
    }
    if !absolute(q) && absolute(base) {
        assert(c[0] == names(q)[0]);
        assert(names(q)[0].contains('/')) by {
            assert(names(q)[0][0] == '/');
        }
    }
}

/// The spans of a joined name are those before it, and its own.
proof fn lemma_joined_spans(d: Seq<char>, f: Seq<char>)
    requires
        is_name(f),
    ensures
        spans(joined(d, f)) == spans(d).push(
            (joined(d, f).len() - f.len(), joined(d, f).len() as int),
        ),
{
    assert(f.contains(f[0]));
    let base = if d.len() == 0 || d.last() == '/' {
        d
    } else {
        d.push('/')
    };
    let p = joined(d, f);
    lemma_scanned_appended(base, f);
    lemma_scanned(d);
    if d.len() > 0 && d.last() != '/' {
        assert(base.drop_last() =~= d);
        assert(base[scanned(d).1] == d[scanned(d).1] || scanned(d).1 == d.len());
        assert(scanned(base) == (spans(d), base.len() as int));
    } else {
        assert(scanned(d).1 == d.len());
        assert(scanned(base) == (spans(d), base.len() as int));
    }
    let n = base.len() as int;
    if f.len() == 1 && p[n] == '.' {
        assert(f =~= seq!['.']);
    }
}

/// No slash stands in a name.
pub proof fn lemma_names_hold_no_slash(p: Seq<char>)
    ensures
        forall|i: int| 0 <= i < names(p).len() ==> !(#[trigger] names(p)[i]).contains('/'),
        forall|i: int| 0 <= i < names(p).len() ==> (#[trigger] names(p)[i]).len() > 0,
{
    lemma_scanned_no_slash(p);
    lemma_spans(p);
    assert forall|i: int| 0 <= i < names(p).len() implies !(#[trigger] names(p)[i]).contains('/') by {
        let s = spans(p)[i];
        assert forall|j: int| 0 <= j < names(p)[i].len() implies names(p)[i][j] != '/' by {
            if i < scanned(p).0.len() {
                assert(scanned(p).0[i] == s);
                assert(p[s.0 + j] != '/');
            } else {
                assert(p[s.0 + j] != '/');
            }
        }
    }
}

proof fn lemma_scanned_no_slash(p: Seq<char>)
    ensures
        forall|k: int| scanned(p).1 <= k < p.len() ==> #[trigger] p[k] != '/',
        forall|i: int, k: int|
            0 <= i < scanned(p).0.len() && (#[trigger] scanned(p).0[i]).0 <= k < scanned(p).0[i].1
                ==> #[trigger] p[k] != '/',
        0 <= scanned(p).1 <= p.len(),
    decreases p.len(),
{
    lemma_scanned(p);
    if p.len() > 0 {
        let q = p.drop_last();
        lemma_scanned_no_slash(q);
        lemma_scanned(q);
        let (done, start) = scanned(q);
        assert forall|k: int| scanned(p).1 <= k < p.len() implies #[trigger] p[k] != '/' by {
            if k < q.len() {
                assert(q[k] == p[k]);
            }
        }
        assert forall|i: int, k: int|
            0 <= i < scanned(p).0.len() && (#[trigger] scanned(p).0[i]).0 <= k < scanned(
                p,
            ).0[i].1 implies #[trigger] p[k] != '/' by {
            if i < done.len() {
                assert(scanned(p).0[i] == done[i]);
                assert(q[k] == p[k]);
            } else {
                assert(q[k] == p[k]);
            }
        }
    }
}

proof fn lemma_no_slash_last(q: Seq<char>)
    requires
        spans(q).len() > 0,
        spans(q).last().1 == q.len(),
    ensures
        q.len() > 0,
        q.last() != '/',
{
    lemma_spans(q);
    lemma_names_hold_no_slash(q);
    let n = names(q).last();
    let s = spans(q).last();
    assert(names(q)[names(q).len() - 1] == n);
    assert(n.contains(n[n.len() - 1]));
    assert(n[n.len() - 1] == q[q.len() - 1]);
}

/// Walking down and up again leads back; a dot stays; going up from the top stays there; and a walk
/// without dots leads where it says.
pub proof fn going_up_undoes_going_down(a: Seq<Seq<char>>, f: Seq<char>, b: Seq<Seq<char>>)
    requires
        f != seq!['.'],
        f != seq!['.', '.'],
    ensures
        walked(a.push(f)) == walked(a).push(f),
        walked(a.push(f).push(seq!['.', '.'])) == walked(a),
        walked(a.push(seq!['.'])) == walked(a),
        walked(a).len() == 0 ==> walked(a.push(seq!['.', '.'])) == walked(a),
        walked(Seq::<Seq<char>>::empty()) == Seq::<Seq<char>>::empty(),
        (forall|i: int|
            0 <= i < b.len() ==> #[trigger] b[i] != seq!['.'] && b[i] != seq!['.', '.'])
            ==> walked(b) == b,
{
    let dot = seq!['.'];
    let up = seq!['.', '.'];
    assert(dot.len() == 1 && up.len() == 2);
    assert(a.push(f).drop_last() =~= a);
    assert(a.push(f).push(up).drop_last() =~= a.push(f));
    assert(walked(a).push(f).drop_last() =~= walked(a));
    assert(a.push(dot).drop_last() =~= a);
    assert(a.push(up).drop_last() =~= a);
    if forall|i: int| 0 <= i < b.len() ==> #[trigger] b[i] != seq!['.'] && b[i] != seq!['.', '.'] {
        lemma_walked_without_dots(b);
    }
}

/// A normalised path has slashes between the names that its walk leads to, and begins with one
/// exactly where the path did.
pub proof fn a_normalised_path_spells_its_walk(p: Seq<char>)
    ensures
        absolute(p) ==> normal(p) == seq!['/'] + text::joined(walked(names(p)), seq!['/']),
        !absolute(p) ==> normal(p) == text::joined(walked(names(p)), seq!['/']),
        absolute(p) <==> p.len() > 0 && p[0] == '/',
{
}

} // verus!
