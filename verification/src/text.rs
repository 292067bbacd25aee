//! Strings as character sequences: conversion, comparison, joining, numbers.
//!
//! Every function here states its result over the `Seq<char>` view of a string.
use vstd::prelude::*;

verus! {

/// `String::push` appends one character to the end of the string.
pub assume_specification[ String::push ](s: &mut String, ch: char)
    ensures
        final(s)@ == old(s)@.push(ch),
;

/// The characters of `s`, in order.
pub fn chars_of(s: &str) -> (r: Vec<char>)
    ensures
        r@ == s@,
{
    let mut v: Vec<char> = Vec::new();
    for c in it: s.chars()
        invariant
            it.seq() == s@,
            v@ == it.seq().take(it.index()),
    {
        v.push(c);
        proof {
            assert(s@.take(it.index() + 1) =~= s@.take(it.index()).push(c));
        }
    }
    proof {
        assert(s@.take(s@.len() as int) =~= s@);
    }
    v
}

/// The string whose characters are `chars`.
pub fn from_chars(chars: &[char]) -> (r: String)
    ensures
        r@ == chars@,
{
    let mut out = String::new();
    let mut i: usize = 0;
    while i < chars.len()
        invariant
            i <= chars@.len(),
            out@ == chars@.take(i as int),
        decreases chars@.len() - i,
    {
        out.push(chars[i]);
        proof {
            assert(chars@.take(i + 1) =~= chars@.take(i as int).push(chars@[i as int]));
        }
        i += 1;
    }
    out
}

/// Whether two strings hold the same characters.
pub fn same(a: &str, b: &str) -> (r: bool)
    ensures
        r == (a@ == b@),
{
    let x = chars_of(a);
    let y = chars_of(b);
    if x.len() != y.len() {
        return false;
    }
    let mut i: usize = 0;
    while i < x.len()
        invariant
            x@ == a@,
            y@ == b@,
            x@.len() == y@.len(),
            i <= x@.len(),
            forall|k: int| 0 <= k < i ==> x@[k] == y@[k],
        decreases x@.len() - i,
    {
        if x[i] != y[i] {
            return false;
        }
        i += 1;
    }
    proof {
        assert(x@ =~= y@);
    }
    true
}

/// The decimal digit for `n`.
pub open spec fn digit(n: int) -> char
    recommends
        0 <= n < 10,
{
    (n + 48) as char
}

/// `n` in decimal, without leading zeros.
pub open spec fn decimal(n: nat) -> Seq<char>
    decreases n,
{
    if n < 10 {
        seq![digit(n as int)]
    } else {
        decimal(n / 10).push(digit((n % 10) as int))
    }
}

/// `n` in decimal.
pub fn dec(n: u64) -> (r: String)
    ensures
        r@ == decimal(n as nat),
    decreases n,
{
    if n < 10 {
        let mut s = String::new();
        s.push((n as u8 + 48) as char);
        proof {
            assert(s@ =~= decimal(n as nat));
        }
        s
    } else {
        let mut s = dec(n / 10);
        s.push(((n % 10) as u8 + 48) as char);
        s
    }
}

/// A signed number in decimal: a minus sign before the digits of a negative one.
pub open spec fn signed_decimal(n: int) -> Seq<char> {
    if n < 0 {
        seq!['-'] + decimal((-n) as nat)
    } else {
        decimal(n as nat)
    }
}

/// `n` in decimal, with its sign.
pub fn dec_signed(n: i64) -> (r: String)
    ensures
        r@ == signed_decimal(n as int),
{
    if n < 0 {
        let mut s = String::new();
        s.push('-');
        let m: u64 = (-(n as i128)) as u64;
        let d = dec(m);
        s.append(d.as_str());
        proof {
            assert(s@ =~= signed_decimal(n as int));
        }
        s
    } else {
        dec(n as u64)
    }
}

/// `parts` with `sep` between neighbours.
pub open spec fn joined(parts: Seq<Seq<char>>, sep: Seq<char>) -> Seq<char>
    decreases parts.len(),
{
    if parts.len() == 0 {
        seq![]
    } else if parts.len() == 1 {
        parts[0]
    } else {
        joined(parts.drop_last(), sep) + sep + parts.last()
    }
}

/// The views of the strings in `v`.
pub open spec fn views(v: Seq<String>) -> Seq<Seq<char>> {
    v.map_values(|s: String| s@)
}

/// The views after one more string.
pub proof fn lemma_views_push(v: Seq<String>, s: String)
    ensures
        views(v.push(s)) == views(v).push(s@),
{
    assert(views(v.push(s)) =~= views(v).push(s@));
}

/// The strings of `v` with `sep` between neighbours.
pub fn join(v: &Vec<String>, sep: &str) -> (r: String)
    ensures
        r@ == joined(views(v@), sep@),
{
    let mut out = String::new();
    let mut i: usize = 0;
    while i < v.len()
        invariant
            i <= v@.len(),
            out@ == joined(views(v@.take(i as int)), sep@),
        decreases v@.len() - i,
    {
        if i > 0 {
            out.append(sep);
        }
        out.append(v[i].as_str());
        proof {
            let next = views(v@.take(i + 1));
            assert(next.drop_last() =~= views(v@.take(i as int)));
            assert(next.last() == v@[i as int]@);
            assert(out@ =~= joined(next, sep@));
        }
        i += 1;
    }
    proof {
        assert(v@.take(v@.len() as int) =~= v@);
    }
    out
}

// ------------------------------------------------------------------ columns

/// `n` spaces.
pub open spec fn blanks(n: int) -> Seq<char> {
    Seq::new(
        if n > 0 {
            n as nat
        } else {
            0
        },
        |i: int| ' ',
    )
}

/// `s` at the left of a column of `width`; a longer text runs over.
pub open spec fn flush_left(s: Seq<char>, width: nat) -> Seq<char> {
    s + blanks(width - s.len())
}

/// `s` at the right of a column of `width`; a longer text runs over.
pub open spec fn flush_right(s: Seq<char>, width: nat) -> Seq<char> {
    blanks(width - s.len()) + s
}

fn push_blanks(out: &mut String, taken: usize, width: usize)
    ensures
        final(out)@ == old(out)@ + blanks(width - taken),
{
    let ghost before = out@;
    let mut n: usize = taken;
    proof {
        assert(out@ =~= before + blanks(0));
    }
    while n < width
        invariant
            taken <= n,
            taken <= width ==> n <= width,
            width < taken ==> n == taken,
            out@ == before + blanks(n - taken),
        decreases width - n,
    {
        out.push(' ');
        n += 1;
        proof {
            assert(out@ =~= before + blanks(n - taken));
        }
    }
    proof {
        assert(blanks(n - taken) =~= blanks(width - taken));
    }
}

/// Puts `s` at the left of a column.
pub fn to_left(s: &str, width: usize) -> (r: String)
    ensures
        r@ == flush_left(s@, width as nat),
{
    let n: usize = chars_of(s).len();
    let mut out = s.to_owned();
    push_blanks(&mut out, n, width);
    out
}

/// Puts `s` at the right of a column.
pub fn to_right(s: &str, width: usize) -> (r: String)
    ensures
        r@ == flush_right(s@, width as nat),
{
    let n: usize = chars_of(s).len();
    let mut out = String::new();
    push_blanks(&mut out, n, width);
    out.append(s);
    proof {
        assert(out@ =~= flush_right(s@, width as nat));
    }
    out
}

// ------------------------------------------------------------------ reading numbers

/// The ASCII digits.
pub open spec fn is_digit(c: char) -> bool {
    '0' <= c <= '9'
}

/// Whether `s` is one or more ASCII digits.
pub open spec fn all_digits(s: Seq<char>) -> bool {
    &&& s.len() > 0
    &&& forall|i: int| 0 <= i < s.len() ==> is_digit(#[trigger] s[i])
}

/// The number that decimal digits spell.
pub open spec fn number(s: Seq<char>) -> int
    decreases s.len(),
{
    if s.len() == 0 {
        0
    } else {
        number(s.drop_last()) * 10 + (s.last() as int - 48)
    }
}

/// The number that `s` spells: digits, behind a sign or none.
pub open spec fn spelled(s: Seq<char>) -> Option<int> {
    if s.len() > 0 && s[0] == '-' {
        if all_digits(s.drop_first()) {
            Some(-number(s.drop_first()))
        } else {
            None
        }
    } else if s.len() > 0 && s[0] == '+' {
        if all_digits(s.drop_first()) {
            Some(number(s.drop_first()))
        } else {
            None
        }
    } else if all_digits(s) {
        Some(number(s))
    } else {
        None
    }
}

/// The number that `s` spells, where it fits 64 bits.
pub open spec fn parsed(s: Seq<char>) -> Option<i64> {
    match spelled(s) {
        Some(n) => if i64::MIN <= n <= i64::MAX {
            Some(n as i64)
        } else {
            None
        },
        None => None,
    }
}

proof fn lemma_number_grows(s: Seq<char>, n: int)
    requires
        0 <= n <= s.len(),
        forall|i: int| 0 <= i < s.len() ==> is_digit(#[trigger] s[i]),
    ensures
        0 <= number(s.take(n)) <= number(s),
    decreases s.len(),
{
    if s.len() > 0 {
        let init = s.drop_last();
        assert forall|i: int| 0 <= i < init.len() implies is_digit(#[trigger] init[i]) by {
            assert(is_digit(s[i]));
        }
        assert(is_digit(s[s.len() - 1]));
        if n == s.len() {
            lemma_number_grows(init, init.len() as int);
            assert(init.take(init.len() as int) =~= init);
            assert(s.take(n) =~= s);
        } else {
            lemma_number_grows(init, n);
            assert(init.take(n) =~= s.take(n));
        }
    }
}

/// Reads the digits of `s` from `from` on, up to the magnitude of the smallest 64-bit number.
fn read_digits(s: &Vec<char>, from: usize) -> (r: Option<u64>)
    requires
        from <= s@.len(),
    ensures
        r == (if all_digits(s@.skip(from as int)) && number(s@.skip(from as int))
            <= 0x8000_0000_0000_0000 {
            Some(number(s@.skip(from as int)) as u64)
        } else {
            None::<u64>
        }),
{
    let ghost d = s@.skip(from as int);
    if from == s.len() {
        return None;
    }
    let mut acc: u64 = 0;
    let mut i: usize = from;
    while i < s.len()
        invariant
            d == s@.skip(from as int),
            from <= i <= s@.len(),
            acc == number(d.take(i - from)),
            acc <= 0x8000_0000_0000_0000,
            forall|k: int| 0 <= k < i - from ==> is_digit(#[trigger] d[k]),
        decreases s@.len() - i,
    {
        let c = s[i];
        proof {
            assert(d[i - from] == c);
            assert(d.take(i - from + 1).drop_last() =~= d.take(i - from));
        }
        if !('0' <= c && c <= '9') {
            return None;
        }
        let v: u64 = (c as u8 - 48) as u64;
        let next: u128 = acc as u128 * 10 + v as u128;
        if next > 0x8000_0000_0000_0000 {
            proof {
                if all_digits(d) {
                    lemma_number_grows(d, i - from + 1);
                }
            }
            return None;
        }
        acc = next as u64;
        i += 1;
    }
    proof {
        assert(d.take(d.len() as int) =~= d);
    }
    Some(acc)
}

/// Reads a 64-bit number, as `str::parse::<i64>` does.
pub fn parse_i64(s: &str) -> (r: Option<i64>)
    ensures
        r == parsed(s@),
{
    let cs = chars_of(s);
    proof {
        if s@.len() > 0 {
            assert(s@.skip(1) =~= s@.drop_first());
        }
        assert(s@.skip(0) =~= s@);
        if all_digits(s@) {
            lemma_number_grows(s@, 0);
            assert(is_digit(s@[0]));
        }
        if s@.len() > 0 && all_digits(s@.drop_first()) {
            lemma_number_grows(s@.drop_first(), 0);
        }
    }
    if cs.len() > 0 && cs[0] == '-' {
        return match read_digits(&cs, 1) {
            Some(n) => Some((-(n as i128)) as i64),
            None => None,
        };
    }
    let from: usize = if cs.len() > 0 && cs[0] == '+' {
        1
    } else {
        0
    };
    match read_digits(&cs, from) {
        Some(n) => if n <= 0x7fff_ffff_ffff_ffff {
            Some(n as i64)
        } else {
            None
        },
        None => None,
    }
}

proof fn lemma_decimal_reads_back(n: nat)
    ensures
        all_digits(decimal(n)),
        number(decimal(n)) == n,
    decreases n,
{
    let d = decimal(n);
    if n < 10 {
        assert(d.drop_last() =~= Seq::<char>::empty());
        assert(d.last() == digit(n as int));
        assert(number(d.drop_last()) == 0);
        assert(d.last() as int == n + 48);
    } else {
        lemma_decimal_reads_back(n / 10);
        assert(d.drop_last() =~= decimal(n / 10));
        assert(d.last() == digit((n % 10) as int));
        assert(d.last() as int == n % 10 + 48);
        assert(number(d) == number(decimal(n / 10)) * 10 + n % 10);
        assert forall|i: int| 0 <= i < d.len() implies is_digit(#[trigger] d[i]) by {
            if i < d.len() - 1 {
                assert(d[i] == decimal(n / 10)[i]);
            }
        }
    }
}

/// A number written in decimal reads back as itself.
pub proof fn written_numbers_read_back(n: i64)
    ensures
        parsed(signed_decimal(n as int)) == Some(n),
{
    if n < 0 {
        let d = decimal((-n) as nat);
        lemma_decimal_reads_back((-n) as nat);
        assert(signed_decimal(n as int).drop_first() =~= d);
    } else {
        let d = decimal(n as nat);
        lemma_decimal_reads_back(n as nat);
        assert(is_digit(d[0]));
    }
}

// ------------------------------------------------------------------ laws

/// A number below ten is its one digit; any other is written as its tens, then its ones.
pub proof fn decimals_are_written_digit_by_digit(n: nat, d: nat)
    requires
        d < 10,
    ensures
        decimal(d).len() == 1,
        decimal(d)[0] as int == '0' as int + d,
        n > 0 ==> decimal(10 * n + d) == decimal(n) + decimal(d),
        signed_decimal(n as int) == decimal(n),
        n > 0 ==> signed_decimal(-n) == seq!['-'] + decimal(n),
{
    if n > 0 {
        assert((10 * n + d) / 10 == n);
        assert((10 * n + d) % 10 == d);
        assert(decimal(n).push(digit(d as int)) =~= decimal(n) + decimal(d));
    }
}

/// Nothing joined is nothing, one text joined is itself, and two lists joined are joined by the
/// separator.
pub proof fn joining_puts_separators_between(
    a: Seq<Seq<char>>,
    b: Seq<Seq<char>>,
    s: Seq<char>,
    sep: Seq<char>,
)
    ensures
        joined(Seq::<Seq<char>>::empty(), sep) == Seq::<char>::empty(),
        joined(seq![s], sep) == s,
        a.len() > 0 && b.len() > 0 ==> joined(a + b, sep) == joined(a, sep) + sep + joined(b, sep),
    decreases b.len(),
{
    if a.len() > 0 && b.len() > 0 {
        assert((a + b).drop_last() =~= a + b.drop_last());
        if b.len() == 1 {
            assert(a + b.drop_last() =~= a);
        } else {
            joining_puts_separators_between(a, b.drop_last(), s, sep);
            assert(joined(a, sep) + sep + joined(b.drop_last(), sep) + sep + b.last() =~= joined(
                a,
                sep,
            ) + sep + joined(b, sep));
        }
    }
}

/// A text set flush in a column fills it with spaces on the other side, and is never cut.
pub proof fn columns_are_filled_with_spaces(s: Seq<char>, width: nat)
    ensures
        ({
            let n = if s.len() < width {
                width
            } else {
                s.len()
            };
            let l = flush_left(s, width);
            let r = flush_right(s, width);
            &&& l.len() == n
            &&& r.len() == n
            &&& l.take(s.len() as int) == s
            &&& r.skip(n - s.len()) == s
            &&& forall|i: int| s.len() <= i < n ==> #[trigger] l[i] == ' '
            &&& forall|i: int| 0 <= i < n - s.len() ==> #[trigger] r[i] == ' '
        }),
{
    let n = if s.len() < width {
        width
    } else {
        s.len()
    };
    assert(flush_left(s, width).take(s.len() as int) =~= s);
    assert(flush_right(s, width).skip(n - s.len()) =~= s);
}

/// A number reads back behind a minus or a plus, and by itself; with anything but digits in it, or
/// none, there is no number.
pub proof fn signs_are_read(s: Seq<char>, i: int)
    requires
        s.len() > 0,
    ensures
        all_digits(s) ==> {
            &&& spelled(s) == Some(number(s))
            &&& spelled(seq!['+'] + s) == Some(number(s))
            &&& spelled(seq!['-'] + s) == Some(-number(s))
            &&& number(seq!['0'] + s) == number(s)
        },
        spelled(Seq::<char>::empty()) is None,
        0 < i < s.len() && !('0' <= s[i] <= '9') ==> spelled(s) is None,
        !('0' <= s[0] <= '9') && s[0] != '+' && s[0] != '-' ==> spelled(s) is None,
        s.len() == 1 && !('0' <= s[0] <= '9') ==> spelled(s) is None,
{
    if all_digits(s) {
        assert((seq!['+'] + s).drop_first() =~= s);
        assert((seq!['-'] + s).drop_first() =~= s);
        assert(is_digit(s[0]));
        lemma_leading_zero(s);
    }
    if 0 < i < s.len() && !('0' <= s[i] <= '9') {
        assert(!is_digit(s[i]));
        assert(s.drop_first()[i - 1] == s[i]);
        assert(!is_digit(s.drop_first()[i - 1]));
    }
    if !('0' <= s[0] <= '9') {
        assert(!is_digit(s[0]));
    }
}

proof fn lemma_leading_zero(s: Seq<char>)
    ensures
        number(seq!['0'] + s) == number(s),
    decreases s.len(),
{
    let z = seq!['0'] + s;
    if s.len() > 0 {
        assert(z.drop_last() =~= seq!['0'] + s.drop_last());
        lemma_leading_zero(s.drop_last());
        assert(z.last() == s.last());
    } else {
        assert(z.drop_last() =~= Seq::<char>::empty());
        assert(number(z.drop_last()) == 0);
        assert(z.last() == '0');
        assert('0' as int == 48);
    }
}

} // verus!
