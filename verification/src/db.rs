//! The metadata store's rules: what its statements say, what its key/value pairs mean, and which
//! rows a scan may delete. The statements are run by the caller.
use crate::chars;
use crate::text;
use vstd::prelude::*;

verus! {

pub const SCHEMA_VERSION: i64 = 2;

/// Sentinel for "this row has no vector yet".
pub const NO_VEC: i64 = -1;

/// Measured end-to-end indexing throughput in documents per second, including extraction and
/// database work. Written by a completed scan.
pub const META_INDEX_RATE: &'static str = "measured_index_docs_per_sec";

/// Measured model-only throughput in documents per second.
pub const META_MODEL_RATE: &'static str = "measured_model_docs_per_sec";

/// A file row as needed by change detection.
#[derive(Debug, Clone)]
pub struct FileStat {
    pub id: i64,
    pub mtime_ns: i64,
    pub size: i64,
    pub content_hash: Option<Vec<u8>>,
    pub vec_row: i64,
}

// ------------------------------------------------------------------ path ranges

/// The character after `c`. The codes from U+D800 to U+DFFF are no characters.
pub open spec fn next_char(c: char) -> char {
    if c == '\u{d7ff}' {
        '\u{e000}'
    } else {
        (c as u32 + 1) as char
    }
}

/// The least string above every string that starts with `prefix`: its last character raised,
/// without those at the end that cannot be. `None` where none can be raised, since then there is no
/// such string.
pub open spec fn raised(prefix: Seq<char>) -> Option<Seq<char>>
    decreases prefix.len(),
{
    if prefix.len() == 0 {
        None
    } else if prefix.last() == '\u{10ffff}' {
        raised(prefix.drop_last())
    } else {
        Some(prefix.drop_last().push(next_char(prefix.last())))
    }
}

/// The upper bound of the range of strings that start with `prefix`: the least string above them
/// all. Where there is none, because the prefix is empty or made of the highest character alone,
/// one more highest character stands for it.
pub open spec fn upper_bound(prefix: Seq<char>) -> Seq<char> {
    match raised(prefix) {
        Some(h) => h,
        None => prefix.push('\u{10ffff}'),
    }
}

fn raise(c: char) -> (r: char)
    requires
        c != '\u{10ffff}',
    ensures
        r == next_char(c),
{
    proof {
        chars::lemma_char_bounds(c);
        vstd::utf8::char_is_scalar(c);
    }
    if c == '\u{d7ff}' {
        '\u{e000}'
    } else {
        let n: u32 = c as u32 + 1;
        match char::from_u32(n) {
            Some(d) => {
                proof {
                    vstd::utf8::char_u32_cast(d, n);
                }
                d
            },
            None => c,
        }
    }
}

/// Text is compared bytewise, so a prefix scan is `>= p AND < p+1`.
pub fn prefix_range(prefix: &str) -> (r: (String, String))
    ensures
        r.0@ == prefix@,
        r.1@ == upper_bound(prefix@),
        raised(prefix@) is Some ==> forall|s: Seq<char>| #[trigger]
            in_range(s, r.0@, r.1@) <==> chars::begins_with(s, prefix@),
{
    let lo = prefix.to_owned();
    let cs = text::chars_of(prefix);
    let mut n: usize = cs.len();
    proof {
        assert(cs@.take(n as int) =~= prefix@);
    }
    while n > 0 && cs[n - 1] == '\u{10ffff}'
        invariant
            cs@ == prefix@,
            n <= cs@.len(),
            raised(prefix@) == raised(cs@.take(n as int)),
        decreases n,
    {
        proof {
            assert(cs@.take(n as int).drop_last() =~= cs@.take(n - 1));
        }
        n -= 1;
    }
    proof {
        if raised(prefix@) is Some {
            assert forall|s: Seq<char>| #[trigger]
                in_range(s, prefix@, upper_bound(prefix@)) <==> chars::begins_with(s, prefix@) by {
                range_is_the_prefix(prefix@, s);
            }
        }
    }
    if n == 0 {
        let mut up = prefix.to_owned();
        up.push('\u{10ffff}');
        return (lo, up);
    }
    let mut up = text::from_chars(&cs[0..n - 1]);
    proof {
        assert(up@ =~= cs@.take(n as int).drop_last());
    }
    up.push(raise(cs[n - 1]));
    (lo, up)
}

/// The directory prefix of everything strictly inside `dir`. The trailing separator is what stops
/// `/p` from also matching `/p-old`.
pub open spec fn inside(dir: Seq<char>) -> Seq<char> {
    chars::strip_end(dir, '/').push('/')
}

/// The path of `dir` with exactly one trailing separator.
pub fn dir_prefix(dir: &str) -> (r: String)
    ensures
        r@ == inside(dir@),
{
    let mut p = chars::trim_end_char(dir, '/');
    p.push('/');
    p
}

/// Half-open key range covering everything strictly inside `dir`.
pub fn dir_prefix_range(dir: &str) -> (r: (String, String))
    ensures
        r.0@ == inside(dir@),
        r.1@ == chars::strip_end(dir@, '/').push('0'),
{
    let p = dir_prefix(dir);
    let r = prefix_range(p.as_str());
    proof {
        assert(p@.drop_last() =~= chars::strip_end(dir@, '/'));
        assert(('/' as u32 + 1) as char == '0');
    }
    r
}

/// Paths are stored as text.
pub fn path_str(p: &str) -> (r: String)
    ensures
        r@ == p@,
{
    p.to_owned()
}

/// Bytewise order.
pub open spec fn bytes_less(a: Seq<u8>, b: Seq<u8>) -> bool
    decreases a.len(),
{
    if b.len() == 0 {
        false
    } else if a.len() == 0 {
        true
    } else if a[0] != b[0] {
        a[0] < b[0]
    } else {
        bytes_less(a.drop_first(), b.drop_first())
    }
}

/// Whether a stored path lies in the half-open range from `lo` to `hi`.
pub open spec fn in_range(path: Seq<char>, lo: Seq<char>, hi: Seq<char>) -> bool {
    let p = vstd::utf8::encode_utf8(path);
    &&& !bytes_less(p, vstd::utf8::encode_utf8(lo))
    &&& bytes_less(p, vstd::utf8::encode_utf8(hi))
}

/// The order of characters by their codes, carried to strings.
pub open spec fn chars_less(a: Seq<char>, b: Seq<char>) -> bool
    decreases a.len(),
{
    if b.len() == 0 {
        false
    } else if a.len() == 0 {
        true
    } else if a[0] != b[0] {
        (a[0] as u32) < (b[0] as u32)
    } else {
        chars_less(a.drop_first(), b.drop_first())
    }
}

proof fn lemma_leading_bytes(c: u32)
    by (bit_vector)
    requires
        c <= 0x10ffff,
    ensures
        vstd::utf8::has_width_1_encoding(c) ==> vstd::utf8::leading_byte_width_1(c) <= 0x7f,
        vstd::utf8::has_width_2_encoding(c) ==> 0xc0 <= vstd::utf8::leading_byte_width_2(c) <= 0xdf,
        vstd::utf8::has_width_3_encoding(c) ==> 0xe0 <= vstd::utf8::leading_byte_width_3(c) <= 0xef,
        vstd::utf8::has_width_4_encoding(c) ==> 0xf0 <= vstd::utf8::leading_byte_width_4(c) <= 0xf7,
{
}

proof fn lemma_order_of_width_1(c: u32, d: u32)
    by (bit_vector)
    requires
        c < d,
        vstd::utf8::has_width_1_encoding(d),
    ensures
        vstd::utf8::leading_byte_width_1(c) < vstd::utf8::leading_byte_width_1(d),
{
}

proof fn lemma_order_of_width_2(c: u32, d: u32)
    by (bit_vector)
    requires
        c < d,
        vstd::utf8::has_width_2_encoding(c),
        vstd::utf8::has_width_2_encoding(d),
    ensures
        vstd::utf8::leading_byte_width_2(c) < vstd::utf8::leading_byte_width_2(d) || (
        vstd::utf8::leading_byte_width_2(c) == vstd::utf8::leading_byte_width_2(d)
            && vstd::utf8::last_continuation_byte(c) < vstd::utf8::last_continuation_byte(d)),
{
}

proof fn lemma_order_of_width_3(c: u32, d: u32)
    by (bit_vector)
    requires
        c < d,
        vstd::utf8::has_width_3_encoding(c),
        vstd::utf8::has_width_3_encoding(d),
    ensures
        vstd::utf8::leading_byte_width_3(c) < vstd::utf8::leading_byte_width_3(d) || (
        vstd::utf8::leading_byte_width_3(c) == vstd::utf8::leading_byte_width_3(d) && (
        vstd::utf8::second_last_continuation_byte(c) < vstd::utf8::second_last_continuation_byte(d)
            || (vstd::utf8::second_last_continuation_byte(c)
            == vstd::utf8::second_last_continuation_byte(d)
            && vstd::utf8::last_continuation_byte(c) < vstd::utf8::last_continuation_byte(d)))),
{
}

proof fn lemma_order_of_width_4(c: u32, d: u32)
    by (bit_vector)
    requires
        c < d,
        vstd::utf8::has_width_4_encoding(c),
        vstd::utf8::has_width_4_encoding(d),
    ensures
        vstd::utf8::leading_byte_width_4(c) < vstd::utf8::leading_byte_width_4(d) || (
        vstd::utf8::leading_byte_width_4(c) == vstd::utf8::leading_byte_width_4(d) && (
        vstd::utf8::third_last_continuation_byte(c) < vstd::utf8::third_last_continuation_byte(d)
            || (vstd::utf8::third_last_continuation_byte(c)
            == vstd::utf8::third_last_continuation_byte(d) && (
        vstd::utf8::second_last_continuation_byte(c) < vstd::utf8::second_last_continuation_byte(d)
            || (vstd::utf8::second_last_continuation_byte(c)
            == vstd::utf8::second_last_continuation_byte(d)
            && vstd::utf8::last_continuation_byte(c) < vstd::utf8::last_continuation_byte(d)))))),
{
}

/// Where the encodings of two characters first differ, the lower character has the lower byte.
proof fn lemma_scalar_order(c: u32, d: u32) -> (k: int)
    requires
        c < d,
        vstd::utf8::is_scalar(c),
        vstd::utf8::is_scalar(d),
    ensures
        0 <= k < vstd::utf8::encode_scalar(c).len(),
        k < vstd::utf8::encode_scalar(d).len(),
        forall|j: int|
            0 <= j < k ==> #[trigger] vstd::utf8::encode_scalar(c)[j] == vstd::utf8::encode_scalar(
                d,
            )[j],
        vstd::utf8::encode_scalar(c)[k] < vstd::utf8::encode_scalar(d)[k],
{
    lemma_leading_bytes(c);
    lemma_leading_bytes(d);
    let x = vstd::utf8::encode_scalar(c);
    let y = vstd::utf8::encode_scalar(d);
    if vstd::utf8::has_width_1_encoding(d) {
        lemma_order_of_width_1(c, d);
    } else if vstd::utf8::has_width_2_encoding(c) && vstd::utf8::has_width_2_encoding(d) {
        lemma_order_of_width_2(c, d);
    } else if vstd::utf8::has_width_3_encoding(c) && vstd::utf8::has_width_3_encoding(d) {
        lemma_order_of_width_3(c, d);
    } else if vstd::utf8::has_width_4_encoding(c) && vstd::utf8::has_width_4_encoding(d) {
        lemma_order_of_width_4(c, d);
    }
    if x[0] != y[0] {
        0
    } else if x[1] != y[1] {
        1
    } else if x[2] != y[2] {
        2
    } else {
        3
    }
}

/// What two byte strings have in common at the start does not matter to their order.
proof fn lemma_less_after(x: Seq<u8>, a: Seq<u8>, b: Seq<u8>)
    ensures
        bytes_less(x + a, x + b) == bytes_less(a, b),
    decreases x.len(),
{
    if x.len() == 0 {
        assert(x + a =~= a);
        assert(x + b =~= b);
    } else {
        lemma_less_after(x.drop_first(), a, b);
        assert((x + a).drop_first() =~= x.drop_first() + a);
        assert((x + b).drop_first() =~= x.drop_first() + b);
    }
}

/// The first place where two byte strings differ decides.
proof fn lemma_less_at(a: Seq<u8>, b: Seq<u8>, k: int)
    requires
        0 <= k < a.len(),
        k < b.len(),
        forall|j: int| 0 <= j < k ==> #[trigger] a[j] == b[j],
        a[k] != b[k],
    ensures
        bytes_less(a, b) == (a[k] < b[k]),
    decreases k,
{
    if k > 0 {
        assert(a[0] == b[0]);
        assert forall|j: int| 0 <= j < k - 1 implies #[trigger] a.drop_first()[j]
            == b.drop_first()[j] by {
            assert(a[j + 1] == b[j + 1]);
        }
        lemma_less_at(a.drop_first(), b.drop_first(), k - 1);
    }
}

/// The bytewise order of text is the order of its characters.
pub proof fn bytes_order_as_characters_do(a: Seq<char>, b: Seq<char>)
    ensures
        bytes_less(vstd::utf8::encode_utf8(a), vstd::utf8::encode_utf8(b)) == chars_less(a, b),
    decreases a.len(),
{
    let x = vstd::utf8::encode_utf8(a);
    let y = vstd::utf8::encode_utf8(b);
    if b.len() == 0 {
    } else if a.len() == 0 {
        vstd::utf8::encode_utf8_first_scalar(b);
        assert(y.len() > 0);
    } else {
        let c = a[0] as u32;
        let d = b[0] as u32;
        let ec = vstd::utf8::encode_scalar(c);
        let ed = vstd::utf8::encode_scalar(d);
        vstd::utf8::char_is_scalar(a[0]);
        vstd::utf8::char_is_scalar(b[0]);
        vstd::utf8::char_u32_cast(a[0], c);
        vstd::utf8::char_u32_cast(b[0], d);
        if a[0] == b[0] {
            bytes_order_as_characters_do(a.drop_first(), b.drop_first());
            lemma_less_after(
                ec,
                vstd::utf8::encode_utf8(a.drop_first()),
                vstd::utf8::encode_utf8(b.drop_first()),
            );
        } else if c < d {
            let k = lemma_scalar_order(c, d);
            assert forall|j: int| 0 <= j < k implies #[trigger] x[j] == y[j] by {
                assert(ec[j] == ed[j]);
            }
            assert(x[k] == ec[k] && y[k] == ed[k]);
            lemma_less_at(x, y, k);
        } else {
            assert(d < c);
            let k = lemma_scalar_order(d, c);
            assert forall|j: int| 0 <= j < k implies #[trigger] x[j] == y[j] by {
                assert(ed[j] == ec[j]);
            }
            assert(x[k] == ec[k] && y[k] == ed[k]);
            lemma_less_at(x, y, k);
        }
    }
}

/// Nothing lies between a character and the next.
proof fn lemma_next_char(c: char, x: char)
    requires
        c != '\u{10ffff}',
    ensures
        next_char(c) as u32 > c as u32,
        (x as u32) < (next_char(c) as u32) <==> x as u32 <= c as u32,
{
    chars::lemma_char_bounds(c);
    chars::lemma_char_bounds(x);
    vstd::utf8::char_is_scalar(c);
    vstd::utf8::char_is_scalar(x);
}

/// The strings from a prefix up to its bound are those that start with it.
proof fn lemma_between(prefix: Seq<char>, s: Seq<char>)
    requires
        raised(prefix) is Some,
    ensures
        (!chars_less(s, prefix) && chars_less(s, raised(prefix)->0)) <==> chars::begins_with(
            s,
            prefix,
        ),
    decreases prefix.len(),
{
    let c = prefix[0];
    let q = prefix.drop_first();
    let h = raised(prefix)->0;
    lemma_raised_tail(prefix);
    if s.len() == 0 {
        assert(chars_less(s, prefix));
    } else {
        chars::lemma_char_bounds(s[0]);
        vstd::utf8::char_u32_cast(s[0], s[0] as u32);
        vstd::utf8::char_u32_cast(c, c as u32);
        let t = s.drop_first();
        if chars::begins_with(s, prefix) {
            assert(s.take(prefix.len() as int)[0] == s[0]);
            assert(t.take(q.len() as int) =~= s.take(prefix.len() as int).drop_first());
        }
        if s[0] == c && chars::begins_with(t, q) {
            assert(s.take(prefix.len() as int) =~= seq![c] + t.take(q.len() as int));
            assert(prefix =~= seq![c] + q);
        }
        assert(chars::begins_with(s, prefix) <==> s[0] == c && chars::begins_with(t, q));
        if raised(q) is Some {
            lemma_between(q, t);
            assert(chars_less(s, h) <==> if s[0] == c {
                chars_less(t, raised(q)->0)
            } else {
                (s[0] as u32) < (c as u32)
            });
        } else {
            lemma_highest(q, t);
            lemma_next_char(c, s[0]);
            vstd::utf8::char_u32_cast(h[0], h[0] as u32);
            assert(h.drop_first() =~= Seq::<char>::empty());
            assert(!chars_less(t, h.drop_first()));
            assert(chars_less(s, h) <==> s[0] as u32 <= c as u32);
        }
    }
}

/// The bound of a prefix is made from its first character, or from the rest.
proof fn lemma_raised_tail(prefix: Seq<char>)
    requires
        raised(prefix) is Some,
    ensures
        prefix.len() > 0,
        ({
            let q = prefix.drop_first();
            let h = raised(prefix)->0;
            &&& h.len() > 0
            &&& raised(q) is Some ==> h[0] == prefix[0] && h.drop_first() == raised(q)->0
            &&& raised(q) is None ==> prefix[0] != '\u{10ffff}' && h == seq![next_char(prefix[0])]
        }),
    decreases prefix.len(),
{
    let q = prefix.drop_first();
    if prefix.len() == 1 {
        assert(q =~= Seq::<char>::empty());
        assert(prefix.drop_last() =~= Seq::<char>::empty());
        if prefix.last() == '\u{10ffff}' {
            assert(raised(prefix.drop_last()) is None);
        }
        assert(prefix.drop_last().push(next_char(prefix.last())) =~= seq![next_char(prefix[0])]);
    } else {
        assert(q.last() == prefix.last());
        assert(q.drop_last() =~= prefix.drop_last().drop_first());
        if prefix.last() == '\u{10ffff}' {
            lemma_raised_tail(prefix.drop_last());
        } else {
            let h = raised(prefix)->0;
            assert(h.drop_first() =~= q.drop_last().push(next_char(q.last())));
        }
    }
}

/// What has no bound is made of the highest character alone, so nothing is above what starts with
/// it.
proof fn lemma_highest(q: Seq<char>, t: Seq<char>)
    requires
        raised(q) is None,
    ensures
        !chars_less(t, q) <==> chars::begins_with(t, q),
    decreases q.len(),
{
    if q.len() == 0 {
        assert(t.take(0) =~= q);
    } else {
        lemma_all_highest(q);
        let u = q.drop_first();
        assert(raised(u) is None) by {
            lemma_none_raised(u);
        }
        if t.len() > 0 {
            chars::lemma_char_bounds(t[0]);
            vstd::utf8::char_u32_cast(t[0], t[0] as u32);
            lemma_highest(u, t.drop_first());
            if chars::begins_with(t, q) {
                assert(t.take(q.len() as int)[0] == t[0]);
                assert(t.drop_first().take(u.len() as int) =~= t.take(q.len() as int).drop_first());
            }
            if t[0] == q[0] && chars::begins_with(t.drop_first(), u) {
                assert(t.take(q.len() as int) =~= seq![q[0]] + t.drop_first().take(u.len() as int));
                assert(q =~= seq![q[0]] + u);
            }
        }
    }
}

proof fn lemma_all_highest(q: Seq<char>)
    requires
        raised(q) is None,
    ensures
        forall|i: int| 0 <= i < q.len() ==> #[trigger] q[i] == '\u{10ffff}',
    decreases q.len(),
{
    if q.len() > 0 {
        lemma_all_highest(q.drop_last());
        assert forall|i: int| 0 <= i < q.len() implies #[trigger] q[i] == '\u{10ffff}' by {
            if i < q.len() - 1 {
                assert(q.drop_last()[i] == q[i]);
            }
        }
    }
}

proof fn lemma_none_raised(q: Seq<char>)
    requires
        forall|i: int| 0 <= i < q.len() ==> #[trigger] q[i] == '\u{10ffff}',
    ensures
        raised(q) is None,
    decreases q.len(),
{
    if q.len() > 0 {
        assert(q[q.len() - 1] == q.last());
        lemma_none_raised(q.drop_last());
    }
}

/// The range of a prefix holds exactly the strings that start with it, whatever it ends in. Left
/// out is a prefix without a bound: an empty one, or one made of the highest character alone.
pub proof fn range_is_the_prefix(prefix: Seq<char>, s: Seq<char>)
    requires
        raised(prefix) is Some,
    ensures
        in_range(s, prefix, upper_bound(prefix)) <==> chars::begins_with(s, prefix),
{
    bytes_order_as_characters_do(s, prefix);
    bytes_order_as_characters_do(s, upper_bound(prefix));
    lemma_between(prefix, s);
}

/// The range of a directory holds exactly the paths inside it: neither the directory itself, nor a
/// sibling that merely shares its spelling.
pub proof fn range_is_the_subtree(dir: Seq<char>, path: Seq<char>)
    ensures
        in_range(path, inside(dir), chars::strip_end(dir, '/').push('0')) <==> chars::begins_with(
            path,
            inside(dir),
        ),
{
    let p = inside(dir);
    assert(p.drop_last() =~= chars::strip_end(dir, '/'));
    assert(('/' as u32 + 1) as char == '0');
    range_is_the_prefix(p, path);
}

// ------------------------------------------------------------------ key/value pairs

/// Per-root generation key: the last scan generation that covered `root`.
pub fn root_gen_key(root: &str) -> (r: String)
    ensures
        r@ == "scan_gen:"@ + root@,
{
    let mut s = "scan_gen:".to_owned();
    s.append(root);
    s
}

/// Last wall-clock scan time for one root, for per-root freshness.
pub fn root_last_scan_key(root: &str) -> (r: String)
    ensures
        r@ == "last_scan_at:"@ + root@,
{
    let mut s = "last_scan_at:".to_owned();
    s.append(root);
    s
}

/// The number stored under a key, if there is one and it reads as a number.
pub open spec fn meta_number(v: Option<String>) -> Option<i64> {
    match v {
        Some(s) => text::parsed(s@),
        None => None,
    }
}

/// The number stored under a key, if there is one and it reads as a number.
pub fn meta_i64(v: &Option<String>) -> (r: Option<i64>)
    ensures
        r == meta_number(*v),
{
    match v {
        Some(s) => text::parse_i64(s.as_str()),
        None => None,
    }
}

/// The scan generation after the stored one: one more, counting from zero.
pub fn next_scan_gen(stored: &Option<String>) -> (r: i64)
    requires
        meta_number(*stored) != Some(i64::MAX),
    ensures
        r == (match meta_number(*stored) {
            Some(n) => n + 1,
            None => 1,
        }),
{
    match meta_i64(stored) {
        Some(n) => n + 1,
        None => 1,
    }
}

/// What to do with a database that was just opened.
#[derive(Debug, Clone, Copy, PartialEq, Eq, Structural)]
pub enum Migration {
    /// No tables yet: create them.
    Create,
    /// The tables are the ones this build uses.
    Ready,
    /// The full-text table is of the kind that stores no text of its own.
    ForeignFullText,
    /// Another schema version.
    Version { have: i64 },
}

impl Migration {
    /// Why the database cannot be used, if it cannot.
    pub open spec fn refusal_spec(self) -> Option<Seq<char>> {
        match self {
            Migration::Create => None,
            Migration::Ready => None,
            Migration::ForeignFullText => Some(
                "this index was built with an incompatible full-text schema. Run `wom index --rebuild` to discard and rebuild it."@,
            ),
            Migration::Version { have } => Some(
                "index schema is version "@ + text::signed_decimal(have as int)
                    + ", this build expects "@ + text::signed_decimal(SCHEMA_VERSION as int)
                    + ". Run `wom index --rebuild` to discard and rebuild the index."@,
            ),
        }
    }

    /// Why the database cannot be used, if it cannot.
    pub fn refusal(&self) -> (r: Option<String>)
        ensures
            match r {
                Some(s) => self.refusal_spec() == Some(s@),
                None => self.refusal_spec() is None,
            },
    {
        match *self {
            Migration::Create => None,
            Migration::Ready => None,
            Migration::ForeignFullText => Some(
                "this index was built with an incompatible full-text schema. Run `wom index --rebuild` to discard and rebuild it.".to_owned(),
            ),
            Migration::Version { have } => {
                let mut s = "index schema is version ".to_owned();
                s.append(text::dec_signed(have).as_str());
                s.append(", this build expects ");
                s.append(text::dec_signed(SCHEMA_VERSION).as_str());
                s.append(". Run `wom index --rebuild` to discard and rebuild the index.");
                proof {
                    assert(Some(s@) == self.refusal_spec());
                }
                Some(s)
            },
        }
    }
}

/// Decides what an opened database needs, from the number of its `meta` tables, the definition of
/// its full-text table and its stored schema version.
pub fn migration(meta_tables: i64, fts_sql: &str, version: &Option<String>) -> (r: Migration)
    ensures
        r == (if meta_tables == 0 {
            Migration::Create
        } else if chars::has_substring(fts_sql@, "content="@) {
            Migration::ForeignFullText
        } else {
            let have = match meta_number(*version) {
                Some(n) => n,
                None => 0,
            };
            if have != SCHEMA_VERSION {
                Migration::Version { have }
            } else {
                Migration::Ready
            }
        }),
{
    if meta_tables == 0 {
        return Migration::Create;
    }
    if chars::contains(fts_sql, "content=") {
        return Migration::ForeignFullText;
    }
    let have: i64 = match meta_i64(version) {
        Some(n) => n,
        None => 0,
    };
    if have != SCHEMA_VERSION {
        return Migration::Version { have };
    }
    Migration::Ready
}

/// A stored number reads as it was written, and what is no number reads as none.
pub proof fn stored_numbers_read_back(s: String, n: i64)
    ensures
        meta_number(None) is None,
        text::spelled(s@) is None ==> meta_number(Some(s)) is None,
        text::spelled(s@) == Some(n as int) ==> meta_number(Some(s)) == Some(n),
{
}

/// What lies in a directory begins with its path and one slash, however many stood at its end.
pub proof fn the_inside_begins_after_one_slash(p: Seq<char>)
    ensures
        inside(p) == chars::strip_end(p, '/') + seq!['/'],
{
    assert(inside(p) =~= chars::strip_end(p, '/') + seq!['/']);
}

/// A database is refused exactly where its tables are of another kind or version.
pub proof fn only_foreign_databases_are_refused(have: i64)
    ensures
        Migration::Create.refusal_spec() is None,
        Migration::Ready.refusal_spec() is None,
        Migration::ForeignFullText.refusal_spec() is Some,
        (Migration::Version { have }).refusal_spec() is Some,
{
}

/// An empty database gets its tables; one with another full-text table, or another version, is not
/// touched; and only one of this very version is ready.
pub proof fn only_the_same_version_is_ready(
    meta_tables: i64,
    fts_sql: &str,
    version: Option<String>,
    r: Migration,
)
    requires
        call_ensures(migration, (meta_tables, fts_sql, &version), r),
    ensures
        r == Migration::Create <==> meta_tables == 0,
        r == Migration::ForeignFullText <==> meta_tables != 0 && chars::has_substring(
            fts_sql@,
            "content="@,
        ),
        r == Migration::Ready <==> meta_tables != 0 && !chars::has_substring(fts_sql@, "content="@)
            && version is Some && text::parsed(version->0@) == Some(SCHEMA_VERSION),
{
}

/// Scans are counted from one.
pub proof fn scans_are_counted_from_one(stored: Option<String>, r: i64)
    requires
        call_ensures(next_scan_gen, (&stored,), r),
    ensures
        stored is None ==> r == 1,
        meta_number(stored) is None ==> r == 1,
        meta_number(stored) is Some ==> r == meta_number(stored)->0 + 1,
{
}

/// A message about the version says which there is and which is wanted.
pub proof fn a_refusal_says_both_versions(have: i64)
    ensures
        (Migration::Version { have }).refusal_spec() == Some(
            "index schema is version "@ + text::signed_decimal(have as int)
                + ", this build expects "@ + text::signed_decimal(SCHEMA_VERSION as int)
                + ". Run `wom index --rebuild` to discard and rebuild the index."@,
        ),
{
}

/// What is written in the index of itself: its version, what stands for no vector, and the names
/// under which rates are kept.
pub proof fn the_index_describes_itself()
    ensures
        SCHEMA_VERSION == 2,
        NO_VEC == -1,
        META_INDEX_RATE@ == "measured_index_docs_per_sec"@,
        META_MODEL_RATE@ == "measured_model_docs_per_sec"@,
{
}

} // verus!
