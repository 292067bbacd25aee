//! Directories as search results: how many files each one holds, what it is called, and which of
//! them are answers to a query.
use crate::chars;
use crate::config;
use crate::config::deepest_root;
use crate::extract;
use crate::order;
use crate::order::{sorted_positions, ByNumber};
use crate::path;
use crate::text;
use std::collections::HashMap;
use vstd::prelude::*;
use vstd::relations::*;

verus! {

/// A directory's row.
#[derive(Debug, Clone)]
pub struct DirRow {
    pub id: i64,
    pub path: String,
    /// The row of the directory above it, if that has one.
    pub parent: Option<i64>,
}

/// How deep a directory lies.
pub open spec fn depth(p: Seq<char>) -> int {
    path::components(p).len() as int
}

/// Deeper directories first, and of equally deep ones the earlier row.
pub open spec fn deeper(rows: Seq<DirRow>) -> spec_fn(usize, usize) -> bool {
    |a: usize, b: usize|
        {
            let x = depth(rows[a as int].path@);
            let y = depth(rows[b as int].path@);
            if x == y {
                a <= b
            } else {
                x > y
            }
        }
}

/// The order of the rollup: deepest first, so a parent is always processed after every one of its
/// children.
pub fn rollup_order(rows: &Vec<DirRow>) -> (r: Vec<usize>)
    ensures
        sorted_by(r@, deeper(rows@)),
        r@.len() == rows@.len(),
        r@.no_duplicates(),
        forall|i: int| 0 <= i < r@.len() ==> (#[trigger] r@[i]) < rows@.len(),
        forall|p: usize| p < rows@.len() ==> #[trigger] r@.contains(p),
{
    let mut keys: Vec<usize> = Vec::new();
    let mut i: usize = 0;
    while i < rows.len()
        invariant
            i <= rows@.len(),
            keys@.len() == i,
            forall|k: int| 0 <= k < i ==> #[trigger] keys@[k] == depth(rows@[k].path@),
        decreases rows@.len() - i,
    {
        let parts = path::components_of(rows[i].path.as_str());
        proof {
            assert(text::views(parts@).len() == parts@.len());
        }
        keys.push(parts.len());
        i += 1;
    }
    let o = ByNumber { keys, down: true };
    let r = sorted_positions(&o, rows.len());
    proof {
        let le = deeper(rows@);
        assert forall|a: int, b: int| 0 <= a < b < r@.len() implies #[trigger] le(r@[a], r@[b]) by {
            assert(order::by_order(&o)(r@[a], r@[b]));
            assert(o.key(r@[a]) == depth(rows@[r@[a] as int].path@));
            assert(o.key(r@[b]) == depth(rows@[r@[b] as int].path@));
        }
    }
    r
}

// ------------------------------------------------------------------ file counts

/// The count under an id; none is zero.
pub open spec fn count_of(t: Map<i64, int>, id: i64) -> int {
    if t.contains_key(id) {
        t[id]
    } else {
        0
    }
}

/// The counts after one more directory: its own files are added to it, and then all it holds to its
/// parent.
pub open spec fn counted(t: Map<i64, int>, row: DirRow, own: int) -> Map<i64, int> {
    let mine = count_of(t, row.id) + own;
    let with = t.insert(row.id, mine);
    match row.parent {
        Some(p) => with.insert(p, count_of(with, p) + mine),
        None => with,
    }
}

/// The counts after the directories at the positions in `order`, one after the other.
pub open spec fn counts(rows: Seq<DirRow>, own: Seq<usize>, order: Seq<usize>) -> Map<i64, int>
    decreases order.len(),
{
    if order.len() == 0 {
        Map::empty()
    } else {
        let k = order.last() as int;
        counted(counts(rows, own, order.drop_last()), rows[k], own[k] as int)
    }
}

/// Whether no count on the way exceeds the machine's range.
pub open spec fn countable(rows: Seq<DirRow>, own: Seq<usize>, order: Seq<usize>) -> bool
    decreases order.len(),
{
    if order.len() == 0 {
        true
    } else {
        let k = order.last() as int;
        let t = counts(rows, own, order);
        &&& countable(rows, own, order.drop_last())
        &&& count_of(counts(rows, own, order.drop_last()), rows[k].id) + own[k] <= usize::MAX
        &&& match rows[k].parent {
            Some(p) => count_of(t, p) <= usize::MAX,
            None => true,
        }
    }
}

/// What `m` holds, as counts.
spec fn as_counts(m: Map<i64, usize>) -> Map<i64, int> {
    m.map_values(|v: usize| v as int)
}

fn look_up(m: &HashMap<i64, usize>, id: i64) -> (r: usize)
    ensures
        r == count_of(as_counts(m@), id),
{
    broadcast use vstd::std_specs::hash::group_hash_axioms;

    match m.get(&id) {
        Some(v) => *v,
        None => 0,
    }
}

/// A prefix of what can be counted can be.
proof fn lemma_countable_prefix(rows: Seq<DirRow>, own: Seq<usize>, order: Seq<usize>, n: int)
    requires
        0 <= n <= order.len(),
        countable(rows, own, order),
    ensures
        countable(rows, own, order.take(n)),
    decreases order.len(),
{
    if n == order.len() {
        assert(order.take(n) =~= order);
    } else {
        lemma_countable_prefix(rows, own, order.drop_last(), n);
        assert(order.drop_last().take(n) =~= order.take(n));
    }
}

/// The number of files with a vector in each directory, including everything beneath it; `own` is
/// the number directly in it. `None` where a count exceeds the machine's range.
pub fn file_counts(rows: &Vec<DirRow>, own: &Vec<usize>, order: &Vec<usize>) -> (r: Option<
    Vec<usize>,
>)
    requires
        own@.len() == rows@.len(),
        forall|i: int| 0 <= i < order@.len() ==> (#[trigger] order@[i]) < rows@.len(),
    ensures
        r is Some == countable(rows@, own@, order@),
        match r {
            Some(v) => {
                &&& v@.len() == rows@.len()
                &&& forall|i: int|
                    0 <= i < v@.len() ==> #[trigger] v@[i] == count_of(
                        counts(rows@, own@, order@),
                        rows@[i].id,
                    )
            },
            None => true,
        },
{
    broadcast use vstd::std_specs::hash::group_hash_axioms;

    let mut m: HashMap<i64, usize> = HashMap::new();
    let mut i: usize = 0;
    proof {
        assert(as_counts(m@) =~= Map::empty());
    }
    while i < order.len()
        invariant
            own@.len() == rows@.len(),
            forall|i: int| 0 <= i < order@.len() ==> (#[trigger] order@[i]) < rows@.len(),
            i <= order@.len(),
            as_counts(m@) == counts(rows@, own@, order@.take(i as int)),
            countable(rows@, own@, order@.take(i as int)),
        decreases order@.len() - i,
    {
        let k: usize = order[i];
        let ghost t = as_counts(m@);
        proof {
            assert(order@.take(i + 1).drop_last() =~= order@.take(i as int));
            assert(order@.take(i + 1).last() == k);
            if countable(rows@, own@, order@) {
                lemma_countable_prefix(rows@, own@, order@, i + 1);
            }
        }
        let have: usize = look_up(&m, rows[k].id);
        let mine: usize = match have.checked_add(own[k]) {
            Some(x) => x,
            None => {
                return None;
            },
        };
        m.insert(rows[k].id, mine);
        proof {
            assert(as_counts(m@) =~= t.insert(rows@[k as int].id, mine as int));
        }
        match rows[k].parent {
            Some(p) => {
                let held: usize = look_up(&m, p);
                let total: usize = match held.checked_add(mine) {
                    Some(x) => x,
                    None => {
                        return None;
                    },
                };
                let ghost with = as_counts(m@);
                m.insert(p, total);
                proof {
                    assert(as_counts(m@) =~= with.insert(p, total as int));
                }
            },
            None => {},
        }
        i += 1;
    }
    proof {
        assert(order@.take(order@.len() as int) =~= order@);
    }
    let mut out: Vec<usize> = Vec::new();
    let mut j: usize = 0;
    while j < rows.len()
        invariant
            as_counts(m@) == counts(rows@, own@, order@),
            j <= rows@.len(),
            out@.len() == j,
            forall|i: int|
                0 <= i < j ==> #[trigger] out@[i] == count_of(
                    counts(rows@, own@, order@),
                    rows@[i].id,
                ),
        decreases rows@.len() - j,
    {
        out.push(look_up(&m, rows[j].id));
        j += 1;
    }
    Some(out)
}

// ------------------------------------------------------------------ names and answers

/// What a directory is called: the words of its path below its root, or, for a root, whose relative
/// path is empty, its final component.
pub open spec fn label(p: Seq<char>, roots: Seq<Seq<char>>) -> Seq<char> {
    let base = match config::deepest(roots, p) {
        Some(r) => roots[r],
        None => "/"@,
    };
    let tokens = extract::token_text(p, base);
    if chars::trimmed(tokens).len() > 0 {
        tokens
    } else {
        match path::file_name_of(p) {
            Some(n) => n,
            None => p,
        }
    }
}

/// What a directory is called.
pub fn dir_label(p: &str, roots: &Vec<String>) -> (r: String)
    ensures
        r@ == label(p@, text::views(roots@)),
{
    let base = match deepest_root(roots, p) {
        Some(b) => b,
        None => "/".to_owned(),
    };
    let tokens = extract::name_tokens(p, base.as_str());
    if chars::is_blank(tokens.as_str()) {
        match path::file_name(p) {
            Some(n) => n,
            None => p.to_owned(),
        }
    } else {
        tokens
    }
}

/// Whether a directory is a configured root: the container the user chose to search, never an
/// answer to a query.
pub open spec fn is_root(p: Seq<char>, roots: Seq<Seq<char>>) -> bool {
    exists|i: int| 0 <= i < roots.len() && #[trigger] path::same_place(roots[i], p)
}

/// Whether a directory can be an answer to a query, and so gets a vector and a full-text row.
pub fn is_answer(p: &str, roots: &Vec<String>) -> (r: bool)
    ensures
        r == !is_root(p@, text::views(roots@)),
{
    let mut i: usize = 0;
    while i < roots.len()
        invariant
            i <= roots@.len(),
            forall|k: int|
                0 <= k < i ==> !#[trigger] path::same_place(text::views(roots@)[k], p@),
        decreases roots@.len() - i,
    {
        proof {
            assert(text::views(roots@)[i as int] == roots@[i as int]@);
        }
        if path::same_path(roots[i].as_str(), p) {
            return false;
        }
        i += 1;
    }
    true
}

// ------------------------------------------------------------------ laws

/// Whether the rows have ids of their own, and each comes after the rows of its children.
pub open spec fn children_first(rows: Seq<DirRow>, order: Seq<usize>) -> bool {
    &&& forall|a: int, b: int|
        0 <= a < order.len() && 0 <= b < order.len() && a != b ==> (#[trigger] rows[order[a] as int]).id
            != (#[trigger] rows[order[b] as int]).id
    &&& forall|a: int, b: int|
        0 <= a < order.len() && 0 <= b < order.len() && (#[trigger] rows[order[a] as int]).parent
            == Some((#[trigger] rows[order[b] as int]).id) ==> a < b
}

/// What the children of a directory hold together.
pub open spec fn held_by_children(
    rows: Seq<DirRow>,
    order: Seq<usize>,
    t: Map<i64, int>,
    id: i64,
) -> int
    decreases order.len(),
{
    if order.len() == 0 {
        0
    } else {
        let row = rows[order.last() as int];
        held_by_children(rows, order.drop_last(), t, id) + if row.parent == Some(id) {
            count_of(t, row.id)
        } else {
            0
        }
    }
}

proof fn lemma_held_agree(
    rows: Seq<DirRow>,
    order: Seq<usize>,
    t: Map<i64, int>,
    u: Map<i64, int>,
    id: i64,
)
    requires
        forall|a: int|
            0 <= a < order.len() ==> count_of(t, (#[trigger] rows[order[a] as int]).id) == count_of(
                u,
                rows[order[a] as int].id,
            ),
    ensures
        held_by_children(rows, order, t, id) == held_by_children(rows, order, u, id),
    decreases order.len(),
{
    if order.len() > 0 {
        let init = order.drop_last();
        assert forall|a: int| 0 <= a < init.len() implies count_of(
            t,
            (#[trigger] rows[init[a] as int]).id,
        ) == count_of(u, rows[init[a] as int].id) by {
            assert(init[a] == order[a]);
            assert(rows[order[a] as int] == rows[init[a] as int]);
        }
        lemma_held_agree(rows, init, t, u, id);
        assert(rows[order[order.len() - 1] as int] == rows[order.last() as int]);
    }
}

/// After each step: a directory that was processed has its own files and what its children hold;
/// one that was not has what its children so far hold.
proof fn lemma_counts(rows: Seq<DirRow>, own: Seq<usize>, order: Seq<usize>, n: int)
    requires
        children_first(rows, order),
        0 <= n <= order.len(),
    ensures
        forall|b: int|
            0 <= b < order.len() ==> ({
                let t = counts(rows, own, order.take(n));
                let row = #[trigger] rows[order[b] as int];
                count_of(t, row.id) == held_by_children(rows, order.take(n), t, row.id) + if b < n {
                    own[order[b] as int] as int
                } else {
                    0
                }
            }),
    decreases n,
{
    if n > 0 {
        let done = order.take(n - 1);
        let all = order.take(n);
        let t = counts(rows, own, done);
        let u = counts(rows, own, all);
        let now = rows[order[n - 1] as int];
        let mine = count_of(t, now.id) + own[order[n - 1] as int];
        lemma_counts(rows, own, order, n - 1);
        assert(all.drop_last() =~= done);
        assert(all.last() == order[n - 1]);
        assert(u == counted(t, now, own[order[n - 1] as int] as int));
        assert(now.parent != Some(now.id)) by {
            if now.parent == Some(now.id) {
                assert(rows[order[n - 1] as int].parent == Some(rows[order[n - 1] as int].id));
            }
        }
        assert(count_of(u, now.id) == mine);
        assert forall|a: int| 0 <= a < done.len() implies count_of(
            t,
            (#[trigger] rows[done[a] as int]).id,
        ) == count_of(u, rows[done[a] as int].id) by {
            assert(done[a] == order[a]);
            let row = rows[order[a] as int];
            assert(row.id != rows[order[n - 1] as int].id);
            if now.parent == Some(row.id) {
                assert(rows[order[n - 1] as int].parent == Some(rows[order[a] as int].id));
            }
        }
        assert forall|b: int| 0 <= b < order.len() implies ({
            let row = #[trigger] rows[order[b] as int];
            count_of(u, row.id) == held_by_children(rows, all, u, row.id) + if b < n {
                own[order[b] as int] as int
            } else {
                0
            }
        }) by {
            let row = rows[order[b] as int];
            lemma_held_agree(rows, done, t, u, row.id);
            assert(held_by_children(rows, all, u, row.id) == held_by_children(
                rows,
                done,
                u,
                row.id,
            ) + if now.parent == Some(row.id) {
                mine
            } else {
                0
            });
            if b != n - 1 {
                assert(row.id != rows[order[n - 1] as int].id);
            }
            if now.parent == Some(row.id) {
                assert(rows[order[n - 1] as int].parent == Some(rows[order[b] as int].id));
                assert(b > n - 1);
            }
        }
    } else {
        assert(order.take(0) =~= Seq::<usize>::empty());
    }
}

/// A directory holds its own files and all that its subdirectories hold.
pub proof fn a_directory_holds_what_its_subdirectories_hold(
    rows: Seq<DirRow>,
    own: Seq<usize>,
    order: Seq<usize>,
    b: int,
)
    requires
        children_first(rows, order),
        0 <= b < order.len(),
    ensures
        ({
            let t = counts(rows, own, order);
            let row = rows[order[b] as int];
            count_of(t, row.id) == own[order[b] as int] + held_by_children(rows, order, t, row.id)
        }),
{
    lemma_counts(rows, own, order, order.len() as int);
    assert(order.take(order.len() as int) =~= order);
    assert(rows[order[b] as int] == rows[order[b] as int]);
}

/// The deepest directories first is an order in which children come first, where ids are distinct
/// and each parent is the directory right above.
pub proof fn deepest_first_puts_children_first(rows: Seq<DirRow>, order: Seq<usize>)
    requires
        sorted_by(order, deeper(rows)),
        order.no_duplicates(),
        forall|i: int| 0 <= i < order.len() ==> (#[trigger] order[i]) < rows.len(),
        forall|i: int, j: int|
            0 <= i < rows.len() && 0 <= j < rows.len() && i != j ==> (#[trigger] rows[i]).id != (
            #[trigger] rows[j]).id,
        forall|i: int, j: int|
            0 <= i < rows.len() && 0 <= j < rows.len() && (#[trigger] rows[i]).parent == Some(
                (#[trigger] rows[j]).id,
            ) ==> path::parent_of(rows[i].path@) == Some(rows[j].path@),
    ensures
        children_first(rows, order),
{
    let le = deeper(rows);
    assert forall|a: int, b: int|
        0 <= a < order.len() && 0 <= b < order.len() && (#[trigger] rows[order[a] as int]).parent
            == Some((#[trigger] rows[order[b] as int]).id) implies a < b by {
        let x = rows[order[a] as int];
        let y = rows[order[b] as int];
        path::lemma_parent(x.path@);
        assert(depth(y.path@) < depth(x.path@));
        if b < a {
            assert(le(order[b], order[a]));
        }
    }
    assert forall|a: int, b: int|
        0 <= a < order.len() && 0 <= b < order.len() && a
            != b implies (#[trigger] rows[order[a] as int]).id != (#[trigger] rows[order[b] as int]).id by {
        assert(order[a] != order[b]);
    }
}

/// A directory is a root exactly where a root has its components, however it is spelled.
pub proof fn roots_are_told_by_their_components(p: Seq<char>, roots: Seq<Seq<char>>)
    ensures
        is_root(p, roots) <==> exists|i: int|
            0 <= i < roots.len() && path::components(#[trigger] roots[i]) == path::components(p),
{
    if is_root(p, roots) {
        let i = choose|i: int| 0 <= i < roots.len() && #[trigger] path::same_place(roots[i], p);
        assert(path::components(roots[i]) == path::components(p));
    }
    if exists|i: int|
        0 <= i < roots.len() && path::components(#[trigger] roots[i]) == path::components(p) {
        let i = choose|i: int|
            0 <= i < roots.len() && path::components(#[trigger] roots[i]) == path::components(p);
        assert(path::same_place(roots[i], p));
    }
}

/// A directory is called by the words of its path below its root; where there are none, by its last
/// component, and the topmost directory by its path.
pub proof fn directories_are_called_by_their_words(p: Seq<char>, roots: Seq<Seq<char>>, r: int)
    requires
        config::deepest(roots, p) == Some(r),
    ensures
        chars::all_whitespace(extract::token_text(p, roots[r])) ==> label(p, roots) == match path::file_name_of(
            p,
        ) {
            Some(n) => n,
            None => p,
        },
        !chars::all_whitespace(extract::token_text(p, roots[r])) ==> label(p, roots)
            == extract::token_text(p, roots[r]),
{
    let t = extract::token_text(p, roots[r]);
    chars::trimming_takes_only_white_space(t);
    let u = chars::trimmed(t);
    let (a, b) = choose|a: int, b: int|
        0 <= a <= b <= t.len() && u == #[trigger] t.subrange(a, b) && chars::all_whitespace(
            t.take(a),
        ) && chars::all_whitespace(t.skip(b));
    if u.len() == 0 {
        assert forall|i: int| 0 <= i < t.len() implies chars::whitespace(#[trigger] t[i]) by {
            if i < a {
                assert(t.take(a)[i] == t[i]);
            } else {
                assert(t.skip(b)[i - b] == t[i]);
            }
        }
    } else {
        assert(u[0] == t[a]);
    }
}

/// The order of the rollup puts what lies deeper first, and keeps the rows of one depth in their
/// order.
pub proof fn what_lies_deeper_comes_first(rows: Seq<DirRow>, order: Seq<usize>, i: int, j: int)
    requires
        sorted_by(order, deeper(rows)),
        0 <= i < j < order.len(),
    ensures
        ({
            let a = path::components(rows[order[i] as int].path@).len();
            let b = path::components(rows[order[j] as int].path@).len();
            a >= b && (a == b ==> order[i] <= order[j])
        }),
{
    assert(deeper(rows)(order[i], order[j]));
}

} // verus!
