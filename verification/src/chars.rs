//! Character classes, and what is made of strings character by character.
use crate::text;
use vstd::prelude::*;

verus! {

/// What `char::is_alphanumeric` says of a character beyond ASCII.
pub uninterp spec fn wide_alphanumeric(c: char) -> bool;

/// Whether a character is a letter or a digit: in ASCII by its code, beyond as the standard library
/// has it.
pub open spec fn alphanumeric(c: char) -> bool {
    if (c as u32) < 128 {
        ascii_alphanumeric(c)
    } else {
        wide_alphanumeric(c)
    }
}

/// `char::is_alphanumeric`: a fixed property of the character; of the ASCII characters it holds
/// for the letters and the digits.
pub assume_specification[ char::is_alphanumeric ](c: char) -> (r: bool)
    ensures
        (c as u32) < 128 ==> r == ascii_alphanumeric(c),
        (c as u32) >= 128 ==> r == wide_alphanumeric(c),
;

/// Whether a character has the Unicode property White_Space: U+0009 to U+000D, the space, the next
/// line, the no-break spaces, the Ogham space, the spaces from U+2000 to U+200A, the line and
/// paragraph separators, the mathematical and the ideographic space.
pub open spec fn whitespace(c: char) -> bool {
    let n = c as u32;
    ||| 0x09 <= n <= 0x0d
    ||| n == 0x20
    ||| n == 0x85
    ||| n == 0xa0
    ||| n == 0x1680
    ||| 0x2000 <= n <= 0x200a
    ||| n == 0x2028
    ||| n == 0x2029
    ||| n == 0x202f
    ||| n == 0x205f
    ||| n == 0x3000
}

/// `char::is_whitespace`: whether the character has the property White_Space.
pub assume_specification[ char::is_whitespace ](c: char) -> (r: bool)
    ensures
        r == whitespace(c),
;

/// What `char::is_uppercase` says of a character beyond ASCII.
pub uninterp spec fn wide_uppercase(c: char) -> bool;

/// Whether a character is an upper-case letter: in ASCII `A` to `Z`, beyond as the standard library
/// has it.
pub open spec fn uppercase(c: char) -> bool {
    if (c as u32) < 128 {
        'A' <= c <= 'Z'
    } else {
        wide_uppercase(c)
    }
}

/// `char::is_uppercase`: a fixed property of the character; of the ASCII characters it holds for
/// `A` to `Z`.
pub assume_specification[ char::is_uppercase ](c: char) -> (r: bool)
    ensures
        (c as u32) < 128 ==> r == ('A' <= c <= 'Z'),
        (c as u32) >= 128 ==> r == wide_uppercase(c),
;

/// What `char::is_lowercase` says of a character beyond ASCII.
pub uninterp spec fn wide_lowercase(c: char) -> bool;

/// Whether a character is a lower-case letter: in ASCII `a` to `z`, beyond as the standard library
/// has it.
pub open spec fn lowercase(c: char) -> bool {
    if (c as u32) < 128 {
        'a' <= c <= 'z'
    } else {
        wide_lowercase(c)
    }
}

/// `char::is_lowercase`: a fixed property of the character; of the ASCII characters it holds for
/// `a` to `z`.
pub assume_specification[ char::is_lowercase ](c: char) -> (r: bool)
    ensures
        (c as u32) < 128 ==> r == ('a' <= c <= 'z'),
        (c as u32) >= 128 ==> r == wide_lowercase(c),
;

/// `char::is_control`: the control codes, U+0000 to U+001F and U+007F to U+009F.
pub assume_specification[ char::is_control ](c: char) -> (r: bool)
    ensures
        r == control(c),
;

/// The control codes.
pub open spec fn control(c: char) -> bool {
    (c as u32) < 32 || 127 <= c as u32 <= 159
}

/// The ASCII letters and digits.
pub open spec fn ascii_alphanumeric(c: char) -> bool {
    ('0' <= c <= '9') || ('A' <= c <= 'Z') || ('a' <= c <= 'z')
}

/// `char::from_u32`: the character with a code; `None` exactly where the code is above U+10FFFF or
/// one of the surrogates U+D800 to U+DFFF.
pub assume_specification[ char::from_u32 ](i: u32) -> (r: Option<char>)
    ensures
        r is Some <==> i < 0xd800 || 0xe000 <= i <= 0x10ffff,
        r is Some ==> r->0 as u32 == i,
;

/// What `str::to_lowercase` makes of a string that is not all ASCII.
pub uninterp spec fn wide_lower(s: Seq<char>) -> Seq<char>;

/// Whether a string is all ASCII.
pub open spec fn all_ascii(s: Seq<char>) -> bool {
    forall|i: int| 0 <= i < s.len() ==> (#[trigger] s[i] as u32) < 128
}

/// A string in lower case: an ASCII string letter by letter, any other as the standard library has
/// it.
pub open spec fn lower(s: Seq<char>) -> Seq<char> {
    if all_ascii(s) {
        ascii_lower(s)
    } else {
        wide_lower(s)
    }
}

/// `str::to_lowercase`: a fixed function of the string, which on ASCII strings lowers each letter
/// and keeps every other character. No character has a quotation mark for its lower case, so there
/// is none in what comes out unless one went in.
pub assume_specification[ str::to_lowercase ](s: &str) -> (r: String)
    ensures
        all_ascii(s@) ==> r@ == ascii_lower(s@),
        !all_ascii(s@) ==> r@ == wide_lower(s@),
        !s@.contains('"') ==> !r@.contains('"'),
;

/// An ASCII capital becomes its small letter; any other character stays.
pub open spec fn lower_ascii_char(c: char) -> char {
    if 'A' <= c <= 'Z' {
        (c as u32 + 32) as char
    } else {
        c
    }
}

/// ASCII capitals become small letters, character by character.
pub open spec fn ascii_lower(s: Seq<char>) -> Seq<char> {
    s.map_values(|c: char| lower_ascii_char(c))
}

/// Lowers one ASCII capital.
pub fn to_ascii_lower(c: char) -> (r: char)
    ensures
        r == lower_ascii_char(c),
{
    if 'A' <= c && c <= 'Z' {
        (c as u8 + 32) as char
    } else {
        c
    }
}

/// Lowers the ASCII capitals of `s`.
pub fn to_ascii_lowercase(s: &str) -> (r: String)
    ensures
        r@ == ascii_lower(s@),
{
    let cs = text::chars_of(s);
    let mut out = String::new();
    let mut i: usize = 0;
    while i < cs.len()
        invariant
            cs@ == s@,
            i <= cs@.len(),
            out@ == ascii_lower(cs@.take(i as int)),
        decreases cs@.len() - i,
    {
        out.push(to_ascii_lower(cs[i]));
        i += 1;
        proof {
            assert(out@ =~= ascii_lower(cs@.take(i as int)));
        }
    }
    proof {
        assert(cs@.take(cs@.len() as int) =~= cs@);
    }
    out
}

// ------------------------------------------------------------------ trimming

/// `s` without its leading white space.
pub open spec fn trim_start(s: Seq<char>) -> Seq<char>
    decreases s.len(),
{
    if s.len() > 0 && whitespace(s[0]) {
        trim_start(s.drop_first())
    } else {
        s
    }
}

/// `s` without its trailing white space.
pub open spec fn trim_end(s: Seq<char>) -> Seq<char>
    decreases s.len(),
{
    if s.len() > 0 && whitespace(s.last()) {
        trim_end(s.drop_last())
    } else {
        s
    }
}

/// `s` without the white space at either end.
pub open spec fn trimmed(s: Seq<char>) -> Seq<char> {
    trim_end(trim_start(s))
}

/// `s` without the white space at either end.
pub fn trim(s: &str) -> (r: String)
    ensures
        r@ == trimmed(s@),
{
    let cs = text::chars_of(s);
    let mut lo: usize = 0;
    let mut hi: usize = cs.len();
    proof {
        assert(cs@.subrange(0, cs@.len() as int) =~= cs@);
    }
    while lo < hi && cs[lo].is_whitespace()
        invariant
            lo <= hi,
            hi == cs@.len(),
            trim_start(cs@) == trim_start(cs@.subrange(lo as int, hi as int)),
        decreases hi - lo,
    {
        proof {
            assert(cs@.subrange(lo as int, hi as int).drop_first() =~= cs@.subrange(
                lo + 1,
                hi as int,
            ));
        }
        lo += 1;
    }
    while lo < hi && cs[hi - 1].is_whitespace()
        invariant
            lo <= hi <= cs@.len(),
            trim_end(trim_start(cs@)) == trim_end(cs@.subrange(lo as int, hi as int)),
        decreases hi - lo,
    {
        proof {
            assert(cs@.subrange(lo as int, hi as int).drop_last() =~= cs@.subrange(
                lo as int,
                hi - 1,
            ));
        }
        hi -= 1;
    }
    text::from_chars(&cs[lo..hi])
}

/// Whether `s` is nothing but white space.
pub fn is_blank(s: &str) -> (r: bool)
    ensures
        r == (trimmed(s@).len() == 0),
{
    let t = trim(s);
    t.as_str().is_empty()
}

/// `s` without its trailing `c`s.
pub open spec fn strip_end(s: Seq<char>, c: char) -> Seq<char>
    decreases s.len(),
{
    if s.len() > 0 && s.last() == c {
        strip_end(s.drop_last(), c)
    } else {
        s
    }
}

/// `s` without its trailing `c`s.
pub fn trim_end_char(s: &str, c: char) -> (r: String)
    ensures
        r@ == strip_end(s@, c),
{
    let cs = text::chars_of(s);
    let mut hi: usize = cs.len();
    proof {
        assert(cs@.take(hi as int) =~= cs@);
    }
    while hi > 0 && cs[hi - 1] == c
        invariant
            hi <= cs@.len(),
            strip_end(cs@, c) == strip_end(cs@.take(hi as int), c),
        decreases hi,
    {
        proof {
            assert(cs@.take(hi as int).drop_last() =~= cs@.take(hi - 1));
        }
        hi -= 1;
    }
    proof {
        assert(cs@.subrange(0, hi as int) =~= cs@.take(hi as int));
    }
    text::from_chars(&cs[0..hi])
}

// ------------------------------------------------------------------ prefixes and parts

/// Whether `s` begins with `p`.
pub open spec fn begins_with(s: Seq<char>, p: Seq<char>) -> bool {
    p.len() <= s.len() && s.take(p.len() as int) == p
}

/// Whether `s` ends with `p`.
pub open spec fn finishes_with(s: Seq<char>, p: Seq<char>) -> bool {
    p.len() <= s.len() && s.skip(s.len() - p.len()) == p
}

/// Whether `p` stands in `s` at `at`.
fn stands_at(s: &Vec<char>, p: &Vec<char>, at: usize) -> (r: bool)
    requires
        at + p@.len() <= s@.len(),
    ensures
        r == (s@.subrange(at as int, at + p@.len()) == p@),
{
    let n: usize = s.len();
    let mut i: usize = 0;
    while i < p.len()
        invariant
            n == s@.len(),
            at + p@.len() <= n,
            i <= p@.len(),
            forall|k: int| 0 <= k < i ==> s@[at + k] == p@[k],
        decreases p@.len() - i,
    {
        if s[at + i] != p[i] {
            proof {
                assert(s@.subrange(at as int, at + p@.len())[i as int] != p@[i as int]);
            }
            return false;
        }
        i += 1;
    }
    proof {
        assert(s@.subrange(at as int, at + p@.len()) =~= p@);
    }
    true
}

/// Whether `s` begins with `p`.
pub fn starts_with(s: &str, p: &str) -> (r: bool)
    ensures
        r == begins_with(s@, p@),
{
    let a = text::chars_of(s);
    let b = text::chars_of(p);
    if b.len() > a.len() {
        return false;
    }
    proof {
        assert(a@.subrange(0, b@.len() as int) =~= a@.take(b@.len() as int));
    }
    stands_at(&a, &b, 0)
}

/// Whether `s` ends with `p`.
pub fn ends_with(s: &str, p: &str) -> (r: bool)
    ensures
        r == finishes_with(s@, p@),
{
    let a = text::chars_of(s);
    let b = text::chars_of(p);
    if b.len() > a.len() {
        return false;
    }
    let at: usize = a.len() - b.len();
    proof {
        assert(a@.subrange(at as int, at + b@.len()) =~= a@.skip(at as int));
    }
    stands_at(&a, &b, at)
}

/// Whether `c` occurs in `s`.
pub fn contains_char(s: &str, c: char) -> (r: bool)
    ensures
        r == s@.contains(c),
{
    let cs = text::chars_of(s);
    let mut i: usize = 0;
    while i < cs.len()
        invariant
            cs@ == s@,
            i <= cs@.len(),
            forall|k: int| 0 <= k < i ==> cs@[k] != c,
        decreases cs@.len() - i,
    {
        if cs[i] == c {
            proof {
                assert(s@[i as int] == c);
            }
            return true;
        }
        i += 1;
    }
    false
}

/// The first `n` characters of `s`, or all of them.
pub open spec fn first_chars(s: Seq<char>, n: nat) -> Seq<char> {
    if n <= s.len() {
        s.take(n as int)
    } else {
        s
    }
}

/// The first `n` characters of `s`, or all of them.
pub fn take_chars(s: &str, n: usize) -> (r: String)
    ensures
        r@ == first_chars(s@, n as nat),
{
    let cs = text::chars_of(s);
    let hi: usize = if n <= cs.len() {
        n
    } else {
        cs.len()
    };
    proof {
        assert(cs@.subrange(0, hi as int) =~= first_chars(s@, n as nat));
    }
    text::from_chars(&cs[0..hi])
}

/// What `String::from_utf8_lossy` makes of bytes that are not valid UTF-8.
pub uninterp spec fn mended(bytes: Seq<u8>) -> Seq<char>;

/// The text of `bytes`: valid UTF-8 as it stands, anything else as the standard library mends it.
pub open spec fn lossy(bytes: Seq<u8>) -> Seq<char> {
    if vstd::utf8::valid_utf8(bytes) {
        vstd::utf8::decode_utf8(bytes)
    } else {
        mended(bytes)
    }
}

/// Calls `String::from_utf8_lossy`: a fixed function of the bytes, which decodes valid UTF-8 as it
/// stands.
#[verifier::external_body]
pub(crate) fn from_utf8_lossy(bytes: &[u8]) -> (r: String)
    ensures
        vstd::utf8::valid_utf8(bytes@) ==> r@ == vstd::utf8::decode_utf8(bytes@),
        !vstd::utf8::valid_utf8(bytes@) ==> r@ == mended(bytes@),
{
    String::from_utf8_lossy(bytes).into_owned()
}

/// Whether every character of `s` is white space.
pub open spec fn all_whitespace(s: Seq<char>) -> bool {
    forall|i: int| 0 <= i < s.len() ==> whitespace(#[trigger] s[i])
}

/// Whether every character of `s` is white space.
pub fn is_all_whitespace(s: &str) -> (r: bool)
    ensures
        r == all_whitespace(s@),
{
    let cs = text::chars_of(s);
    let mut i: usize = 0;
    while i < cs.len()
        invariant
            cs@ == s@,
            i <= cs@.len(),
            forall|k: int| 0 <= k < i ==> whitespace(#[trigger] s@[k]),
        decreases cs@.len() - i,
    {
        if !cs[i].is_whitespace() {
            proof {
                assert(!whitespace(s@[i as int]));
            }
            return false;
        }
        i += 1;
    }
    true
}

/// Whether `p` occurs in `s`.
pub open spec fn has_substring(s: Seq<char>, p: Seq<char>) -> bool {
    exists|at: int|
        0 <= at <= s.len() - p.len() && #[trigger] s.subrange(at, at + p.len()) == p
}

/// Whether `p` occurs in `s`.
pub fn contains(s: &str, p: &str) -> (r: bool)
    ensures
        r == has_substring(s@, p@),
{
    let a = text::chars_of(s);
    let b = text::chars_of(p);
    if b.len() > a.len() {
        return false;
    }
    let last: usize = a.len() - b.len();
    let mut at: usize = 0;
    while at <= last
        invariant
            a@ == s@,
            b@ == p@,
            last == a@.len() - b@.len(),
            at <= last + 1,
            last < usize::MAX || b@.len() == 0,
            forall|k: int| 0 <= k < at ==> #[trigger] s@.subrange(k, k + p@.len()) != p@,
        decreases last + 1 - at,
    {
        if stands_at(&a, &b, at) {
            proof {
                assert(s@.subrange(at as int, at + p@.len()) == p@);
            }
            return true;
        }
        if at == last {
            proof {
                assert forall|k: int| 0 <= k <= s@.len() - p@.len() implies #[trigger] s@.subrange(
                    k,
                    k + p@.len(),
                ) != p@ by {}
            }
            return false;
        }
        at += 1;
    }
    false
}

/// Every character is a code point.
pub proof fn lemma_char_bounds(c: char)
    ensures
        0 <= c as int <= 0x10ffff,
        c as u32 == c as int,
{
}

/// Encoding goes piece by piece.
pub proof fn lemma_encode_concat(a: Seq<char>, b: Seq<char>)
    ensures
        vstd::utf8::encode_utf8(a + b) == vstd::utf8::encode_utf8(a) + vstd::utf8::encode_utf8(b),
    decreases a.len(),
{
    if a.len() == 0 {
        assert(a + b =~= b);
        assert(vstd::utf8::encode_utf8(a) + vstd::utf8::encode_utf8(b)
            =~= vstd::utf8::encode_utf8(b));
    } else {
        lemma_encode_concat(a.drop_first(), b);
        assert((a + b).drop_first() =~= a.drop_first() + b);
        assert((a + b)[0] == a[0]);
        assert(vstd::utf8::encode_utf8(a + b) =~= vstd::utf8::encode_utf8(a)
            + vstd::utf8::encode_utf8(b));
    }
}

/// Of two strings, one begins with the other exactly if its bytes do.
pub proof fn lemma_prefix_of_bytes(s: Seq<char>, p: Seq<char>)
    ensures
        ({
            let bs = vstd::utf8::encode_utf8(s);
            let bp = vstd::utf8::encode_utf8(p);
            begins_with(s, p) <==> bp.len() <= bs.len() && bs.take(bp.len() as int) == bp
        }),
    decreases p.len(),
{
    let bs = vstd::utf8::encode_utf8(s);
    let bp = vstd::utf8::encode_utf8(p);
    if begins_with(s, p) {
        let rest = s.skip(p.len() as int);
        assert(s =~= p + rest);
        lemma_encode_concat(p, rest);
        assert(bs.take(bp.len() as int) =~= bp);
    }
    if bp.len() <= bs.len() && bs.take(bp.len() as int) == bp {
        if p.len() == 0 {
            assert(s.take(0) =~= p);
        } else {
            vstd::utf8::encode_utf8_first_scalar(p);
            assert(bp.len() > 0);
            assert(s.len() > 0);
            vstd::utf8::encode_utf8_first_scalar(s);
            assert forall|i: int| 0 <= i < bp.len() implies #[trigger] bs[i] == bp[i] by {
                assert(bs.take(bp.len() as int)[i] == bp[i]);
            }
            let width = vstd::utf8::length_of_first_scalar(bp);
            assert(1 <= width <= bp.len());
            assert(bs[0] == bp[0]);
            if width >= 2 {
                assert(bs[1] == bp[1]);
            }
            if width >= 3 {
                assert(bs[2] == bp[2]);
            }
            if width >= 4 {
                assert(bs[3] == bp[3]);
            }
            assert(vstd::utf8::decode_first_scalar(bs) == vstd::utf8::decode_first_scalar(bp));
            assert(s[0] as u32 == p[0] as u32);
            assert(s[0] == p[0]) by {
                vstd::utf8::char_u32_cast(s[0], s[0] as u32);
                vstd::utf8::char_u32_cast(p[0], p[0] as u32);
            }
            let n = vstd::utf8::encode_scalar(p[0] as u32).len() as int;
            let ts = s.drop_first();
            let tp = p.drop_first();
            let es = vstd::utf8::encode_utf8(ts);
            let ep = vstd::utf8::encode_utf8(tp);
            assert(bs =~= vstd::utf8::encode_scalar(p[0] as u32) + es);
            assert(bp =~= vstd::utf8::encode_scalar(p[0] as u32) + ep);
            assert forall|i: int| 0 <= i < ep.len() implies #[trigger] es[i] == ep[i] by {
                assert(bs[n + i] == bp[n + i]);
            }
            assert(es.take(ep.len() as int) =~= ep);
            lemma_prefix_of_bytes(ts, tp);
            assert(s.take(p.len() as int) =~= seq![p[0]] + ts.take(tp.len() as int));
            assert(p =~= seq![p[0]] + tp);
        }
    }
}

// ------------------------------------------------------------------ laws

/// Trimming takes white space off both ends and nothing else: what is left stands in the text,
/// between white space, and neither begins nor ends with any.
pub proof fn trimming_takes_only_white_space(s: Seq<char>)
    ensures
        ({
            let t = trimmed(s);
            &&& exists|a: int, b: int|
                0 <= a <= b <= s.len() && t == #[trigger] s.subrange(a, b) && all_whitespace(
                    s.take(a),
                ) && all_whitespace(s.skip(b))
            &&& t.len() > 0 ==> !whitespace(t[0]) && !whitespace(t.last())
        }),
{
    lemma_trim_start(s);
    let u = trim_start(s);
    lemma_trim_end(u);
    let a = s.len() - u.len();
    let t = trim_end(u);
    let b = a + t.len();
    assert(u =~= s.skip(a));
    assert(t =~= s.subrange(a, b));
    assert(s.skip(b) =~= u.skip(t.len() as int));
    if t.len() > 0 {
        assert(t[0] == u[0]);
    }
}

proof fn lemma_trim_start(s: Seq<char>)
    ensures
        trim_start(s).len() <= s.len(),
        trim_start(s) == s.skip(s.len() - trim_start(s).len()),
        all_whitespace(s.take(s.len() - trim_start(s).len())),
        trim_start(s).len() > 0 ==> !whitespace(trim_start(s)[0]),
    decreases s.len(),
{
    if s.len() > 0 && whitespace(s[0]) {
        let r = s.drop_first();
        lemma_trim_start(r);
        let n = s.len() - trim_start(s).len();
        assert(r.skip(n - 1) =~= s.skip(n));
        assert forall|i: int| 0 <= i < n implies whitespace(#[trigger] s.take(n)[i]) by {
            if i > 0 {
                assert(r.take(n - 1)[i - 1] == s.take(n)[i]);
            }
        }
    } else {
        assert(s.skip(0) =~= s);
    }
}

proof fn lemma_trim_end(s: Seq<char>)
    ensures
        trim_end(s).len() <= s.len(),
        trim_end(s) == s.take(trim_end(s).len() as int),
        all_whitespace(s.skip(trim_end(s).len() as int)),
        trim_end(s).len() > 0 ==> !whitespace(trim_end(s).last()),
    decreases s.len(),
{
    if s.len() > 0 && whitespace(s.last()) {
        let r = s.drop_last();
        lemma_trim_end(r);
        let n = trim_end(s).len() as int;
        assert(r.take(n) =~= s.take(n));
        assert forall|i: int| 0 <= i < s.len() - n implies whitespace(#[trigger] s.skip(n)[i]) by {
            if i < r.len() - n {
                assert(r.skip(n)[i] == s.skip(n)[i]);
            }
        }
    } else {
        assert(s.take(s.len() as int) =~= s);
    }
}

/// Stripping a character takes it off the end as often as it stands there, and nothing else.
pub proof fn stripping_takes_only_the_character(s: Seq<char>, c: char)
    ensures
        ({
            let t = strip_end(s, c);
            &&& t.len() <= s.len()
            &&& t == s.take(t.len() as int)
            &&& forall|i: int| t.len() <= i < s.len() ==> #[trigger] s[i] == c
            &&& t.len() > 0 ==> t.last() != c
        }),
    decreases s.len(),
{
    if s.len() > 0 && s.last() == c {
        stripping_takes_only_the_character(s.drop_last(), c);
        let t = strip_end(s, c);
        assert(s.drop_last().take(t.len() as int) =~= s.take(t.len() as int));
        assert forall|i: int| t.len() <= i < s.len() implies #[trigger] s[i] == c by {
            if i < s.len() - 1 {
                assert(s.drop_last()[i] == s[i]);
            }
        }
    } else {
        assert(s.take(s.len() as int) =~= s);
    }
}

/// The first characters of a text are as many as asked for, or all.
pub proof fn the_first_characters_begin_the_text(s: Seq<char>, n: nat)
    ensures
        ({
            let t = first_chars(s, n);
            &&& t.len() == if n < s.len() {
                n
            } else {
                s.len()
            }
            &&& forall|i: int| 0 <= i < t.len() ==> #[trigger] t[i] == s[i]
        }),
{
}

/// A text begins with what is put before another, ends with what is put behind it, and holds what
/// stands between; and conversely.
pub proof fn parts_are_found_where_they_were_put(a: Seq<char>, p: Seq<char>, b: Seq<char>)
    ensures
        begins_with(p + b, p),
        finishes_with(a + p, p),
        has_substring(a + p + b, p),
        begins_with(a, p) ==> exists|r: Seq<char>| a == #[trigger] (p + r),
        finishes_with(a, p) ==> exists|r: Seq<char>| a == #[trigger] (r + p),
        has_substring(a, p) ==> exists|l: Seq<char>, r: Seq<char>| a == #[trigger] (l + p + r),
{
    assert((p + b).take(p.len() as int) =~= p);
    assert((a + p).skip(a.len() as int) =~= p);
    assert((a + p + b).subrange(a.len() as int, (a.len() + p.len()) as int) =~= p);
    if begins_with(a, p) {
        assert(a =~= p + a.skip(p.len() as int));
    }
    if finishes_with(a, p) {
        assert(a =~= a.take(a.len() - p.len()) + p);
    }
    if has_substring(a, p) {
        let at = choose|at: int|
            0 <= at <= a.len() - p.len() && #[trigger] a.subrange(at, at + p.len()) == p;
        assert(a =~= (a.take(at) + p) + a.skip(at + p.len()));
    }
}

/// Lowering ASCII capitals changes them into the small letters, and nothing else.
pub proof fn only_ascii_capitals_are_lowered(s: Seq<char>, i: int)
    requires
        0 <= i < s.len(),
    ensures
        ascii_lower(s).len() == s.len(),
        'A' <= s[i] <= 'Z' ==> ascii_lower(s)[i] as int == s[i] as int + ('a' as int - 'A' as int),
        !('A' <= s[i] <= 'Z') ==> ascii_lower(s)[i] == s[i],
        all_ascii(s) ==> lower(s) == ascii_lower(s),
{
}

/// Of the ASCII characters, the letters have their case, the figures and letters are what a word is
/// made of, and the blanks and the control codes are those below U+0021 and U+007F.
pub proof fn ascii_characters_are_of_their_class(c: char)
    requires
        (c as u32) < 128,
    ensures
        uppercase(c) <==> 65 <= c as u32 <= 90,
        lowercase(c) <==> 97 <= c as u32 <= 122,
        alphanumeric(c) <==> uppercase(c) || lowercase(c) || 48 <= c as u32 <= 57,
        control(c) <==> c as u32 <= 31 || c as u32 == 127,
        whitespace(c) <==> c == ' ' || 9 <= c as u32 <= 13,
        uppercase(c) ==> ascii_lower(seq![c])[0] as u32 == c as u32 + 32,
        !uppercase(c) ==> ascii_lower(seq![c])[0] == c,
{
}

/// A text is all ASCII exactly where each of its characters is.
pub proof fn one_wide_character_is_enough(a: Seq<char>, c: char, b: Seq<char>)
    ensures
        all_ascii(seq![]),
        all_ascii(a + seq![c] + b) <==> all_ascii(a) && (c as u32) < 128 && all_ascii(b),
{
    let s = a + seq![c] + b;
    if all_ascii(s) {
        assert(s[a.len() as int] == c);
        assert forall|i: int| 0 <= i < a.len() implies (#[trigger] a[i] as u32) < 128 by {
            assert(s[i] == a[i]);
        }
        assert forall|i: int| 0 <= i < b.len() implies (#[trigger] b[i] as u32) < 128 by {
            assert(s[a.len() + 1 + i] == b[i]);
        }
    }
}

} // verus!
