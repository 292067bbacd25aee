//! The map of a normaliser in the manner of SentencePiece: a trie over bytes, kept as a double
//! array, and the texts that stand for what it finds. A map is read from a tokenizer's file as it
//! is, so it is looked at before it is used: no text may lead out of the array, or to the middle of
//! a character.
use crate::le;
use crate::text;
use vstd::prelude::*;

verus! {

// ------------------------------------------------------------------ base64

/// The number that a digit of base64 stands for.
pub open spec fn sextet(c: char) -> Option<u8> {
    let n = c as u32;
    if 'A' <= c <= 'Z' {
        Some((n - 65) as u8)
    } else if 'a' <= c <= 'z' {
        Some((n - 71) as u8)
    } else if '0' <= c <= '9' {
        Some((n + 4) as u8)
    } else if c == '+' {
        Some(62)
    } else if c == '/' {
        Some(63)
    } else {
        None
    }
}

/// The number that a digit of base64 stands for.
fn sextet_of(c: char) -> (r: Option<u8>)
    ensures
        r == sextet(c),
{
    let n: u32 = c as u32;
    if 'A' <= c && c <= 'Z' {
        Some((n - 65) as u8)
    } else if 'a' <= c && c <= 'z' {
        Some((n - 71) as u8)
    } else if '0' <= c && c <= '9' {
        Some((n + 4) as u8)
    } else if c == '+' {
        Some(62)
    } else if c == '/' {
        Some(63)
    } else {
        None
    }
}

/// How many equals signs fill the last group of four, two at most.
pub open spec fn filled(s: Seq<char>) -> nat {
    if s.len() >= 2 && s.last() == '=' {
        if s[s.len() - 2] == '=' {
            2
        } else {
            1
        }
    } else {
        0
    }
}

/// Whether `s` is base64: groups of four digits, the last one filled up.
pub open spec fn is_base64(s: Seq<char>) -> bool {
    &&& s.len() % 4 == 0
    &&& forall|i: int| 0 <= i < s.len() - filled(s) ==> sextet(#[trigger] s[i]) is Some
}

/// The number at place `i`; zero for what fills a group.
pub open spec fn digit(s: Seq<char>, i: int) -> int {
    match sextet(s[i]) {
        Some(v) => v as int,
        None => 0,
    }
}

/// The byte at place `k` of what `s` encodes: three bytes to every four digits.
pub open spec fn encoded_byte(s: Seq<char>, k: int) -> u8 {
    let g = k / 3 * 4;
    let b = if k % 3 == 0 {
        digit(s, g) * 4 + digit(s, g + 1) / 16
    } else if k % 3 == 1 {
        digit(s, g + 1) % 16 * 16 + digit(s, g + 2) / 4
    } else {
        digit(s, g + 2) % 4 * 64 + digit(s, g + 3)
    };
    b as u8
}

/// The bytes that `s` encodes.
pub open spec fn decoded(s: Seq<char>) -> Seq<u8> {
    Seq::new((s.len() / 4 * 3 - filled(s)) as nat, |k: int| encoded_byte(s, k))
}

fn digit_at(cs: &Vec<char>, i: usize) -> (r: u8)
    requires
        i < cs@.len(),
    ensures
        r == digit(cs@, i as int),
        r < 64,
{
    match sextet_of(cs[i]) {
        Some(v) => v,
        None => 0,
    }
}

/// Reads base64.
pub fn decode(s: &str) -> (r: Option<Vec<u8>>)
    ensures
        match r {
            Some(b) => is_base64(s@) && b@ == decoded(s@),
            None => !is_base64(s@),
        },
{
    let cs = text::chars_of(s);
    let n: usize = cs.len();
    if n % 4 != 0 {
        return None;
    }
    let fill: usize = if n >= 2 && cs[n - 1] == '=' {
        if cs[n - 2] == '=' {
            2
        } else {
            1
        }
    } else {
        0
    };
    let mut i: usize = 0;
    while i < n - fill
        invariant
            cs@ == s@,
            n == cs@.len(),
            fill == filled(s@),
            fill <= n,
            i <= n - fill,
            forall|k: int| 0 <= k < i ==> sextet(#[trigger] s@[k]) is Some,
        decreases n - i,
    {
        if sextet_of(cs[i]).is_none() {
            proof {
                assert(sextet(s@[i as int]) is None);
            }
            return None;
        }
        i += 1;
    }
    let total: usize = n / 4 * 3 - fill;
    let mut out: Vec<u8> = Vec::new();
    let mut k: usize = 0;
    while k < total
        invariant
            cs@ == s@,
            n == cs@.len(),
            n % 4 == 0,
            fill <= 2,
            total == n / 4 * 3 - fill,
            k <= total,
            out@.len() == k,
            forall|j: int| 0 <= j < k ==> #[trigger] out@[j] == encoded_byte(s@, j),
        decreases total - k,
    {
        let g: usize = k / 3 * 4;
        proof {
            assert(k < n / 4 * 3);
            assert(k / 3 < n / 4);
            assert(g + 4 <= n);
        }
        let b: u8 = if k % 3 == 0 {
            digit_at(&cs, g) * 4 + digit_at(&cs, g + 1) / 16
        } else if k % 3 == 1 {
            digit_at(&cs, g + 1) % 16 * 16 + digit_at(&cs, g + 2) / 4
        } else {
            digit_at(&cs, g + 2) % 4 * 64 + digit_at(&cs, g + 3)
        };
        out.push(b);
        k += 1;
    }
    proof {
        assert(out@ =~= decoded(s@));
    }
    Some(out)
}

// ------------------------------------------------------------------ the trie

/// How many units the trie has, as the map's first four bytes say.
pub open spec fn unit_count(map: Seq<u8>) -> int {
    le::value(map.take(4)) as int / 4
}

/// The unit at place `p`.
pub open spec fn unit(map: Seq<u8>, p: int) -> int {
    le::value(map.subrange(4 + 4 * p, 8 + 4 * p)) as int
}

/// The texts that stand for what the trie finds, one after the other.
pub open spec fn texts(map: Seq<u8>) -> Seq<u8> {
    map.skip(4 + 4 * unit_count(map))
}

/// Whether a unit is one that a byte of a text can lead to: it carries that byte, which is not
/// zero.
pub open spec fn carries(u: int) -> bool {
    u < 0x8000_0000 && u % 256 != 0
}

/// How far from a unit what follows it lies.
pub open spec fn leap(u: int) -> int {
    if u / 512 % 2 == 1 {
        u / 1024 * 256
    } else {
        u / 1024
    }
}

/// Where what follows the unit at `p` lies.
pub open spec fn following(map: Seq<u8>, p: int) -> int {
    ((p as u64) ^ (leap(unit(map, p)) as u64)) as int
}

/// Whether something is found at a unit.
pub open spec fn finds(u: int) -> bool {
    u / 256 % 2 == 1
}

/// Whether a character begins at `i`, or the bytes end there.
pub open spec fn begins_character(t: Seq<u8>, i: int) -> bool {
    i == t.len() || (i < t.len() && t[i] / 64 != 2)
}

/// Whether nothing leads astray from the unit at `p`: the 256 units among which the next byte picks
/// are all there, and where something is found, its text begins where a character does.
pub open spec fn leads_well(map: Seq<u8>, p: int) -> bool {
    let u = unit(map, p);
    let next = following(map, p);
    &&& (next / 256 + 1) * 256 <= unit_count(map)
    &&& carries(u) && finds(u) ==> begins_character(
        texts(map),
        unit(map, next) % 0x8000_0000,
    )
}

/// Whether a map can be used on every text: it has a first unit, all its units are there, and
/// neither the first nor any that a byte can lead to leads astray.
pub open spec fn is_sound(map: Seq<u8>) -> bool {
    &&& map.len() >= 4
    &&& 0 < unit_count(map)
    &&& 4 + 4 * unit_count(map) <= map.len()
    &&& forall|p: int|
        0 <= p < unit_count(map) && (p == 0 || carries(unit(map, p))) ==> #[trigger] leads_well(
            map,
            p,
        )
}

fn unit_at(map: &Vec<u8>, p: usize) -> (r: u64)
    requires
        8 + 4 * p <= map@.len(),
    ensures
        r == unit(map@, p as int),
        r < 0x1_0000_0000,
{
    let n: usize = map.len();
    proof {
        le::lemma_limits();
        le::lemma_value_fits(map@.subrange(4 + 4 * p, 8 + 4 * p));
    }
    le::from_le(&map[4 + 4 * p..8 + 4 * p])
}

/// Whether a map can be used on every text.
pub fn sound(map: &Vec<u8>) -> (r: bool)
    ensures
        r == is_sound(map@),
{
    if map.len() < 4 {
        return false;
    }
    proof {
        le::lemma_limits();
        le::lemma_value_fits(map@.take(4));
        assert(map@.take(4) =~= map@.subrange(0, 4));
    }
    let n: u64 = le::from_le(&map[0..4]) / 4;
    if n == 0 || 4 + 4 * n > map.len() as u64 {
        return false;
    }
    let n: usize = n as usize;
    let start: usize = 4 + 4 * n;
    let mut p: usize = 0;
    while p < n
        invariant
            n == unit_count(map@),
            n < 0x4000_0000,
            start == 4 + 4 * n,
            start <= map@.len(),
            p <= n,
            forall|q: int|
                0 <= q < p && (q == 0 || carries(unit(map@, q))) ==> #[trigger] leads_well(map@, q),
        decreases n - p,
    {
        let u: u64 = unit_at(map, p);
        let carries: bool = u < 0x8000_0000 && u % 256 != 0;
        if p == 0 || carries {
            let leap: u64 = if u / 512 % 2 == 1 {
                u / 1024 * 256
            } else {
                u / 1024
            };
            let next: u64 = (p as u64) ^ leap;
            let well: bool = next / 256 + 1 <= n as u64 / 256 && {
                if carries && u / 256 % 2 == 1 {
                    let i: u64 = unit_at(map, next as usize) % 0x8000_0000;
                    let at: u64 = start as u64 + i;
                    at == map.len() as u64 || (at < map.len() as u64 && map[at as usize] / 64 != 2)
                } else {
                    true
                }
            };
            proof {
                assert(next == following(map@, p as int));
                assert((next / 256 + 1) * 256 <= n <==> next / 256 + 1 <= n / 256);
                assert(well == leads_well(map@, p as int));
            }
            if !well {
                return false;
            }
        }
        p += 1;
    }
    true
}

// ------------------------------------------------------------------ laws

/// The place at which `c` is looked for after the unit at `p`.
pub open spec fn looked_up(map: Seq<u8>, p: int, c: u8) -> int {
    ((following(map, p) as u64) ^ (c as u64)) as int
}

/// The unit that the bytes of `key` lead to, one after the other; `None` where they lead to none.
pub open spec fn arrived(map: Seq<u8>, key: Seq<u8>) -> Option<int>
    decreases key.len(),
{
    if key.len() == 0 {
        Some(0)
    } else {
        match arrived(map, key.drop_last()) {
            Some(p) => {
                let q = looked_up(map, p, key.last());
                let u = unit(map, q);
                if carries(u) && u % 256 == key.last() {
                    Some(q)
                } else {
                    None
                }
            },
            None => None,
        }
    }
}

proof fn lemma_within_block(x: u64, c: u64)
    requires
        c < 256,
    ensures
        (x ^ c) / 256 == x / 256,
{
    assert((x ^ c) / 256 == x / 256) by (bit_vector)
        requires
            c < 256,
    ;
}

/// In a sound map no text leads out of the array: wherever its bytes have led so far, the next byte
/// is looked for at a unit that is there, and so is what is found on the way, whose text begins
/// where a character does.
pub proof fn a_sound_map_keeps_every_text_inside(map: Seq<u8>, key: Seq<u8>, c: u8)
    requires
        is_sound(map),
        arrived(map, key) is Some,
    ensures
        ({
            let p = arrived(map, key)->0;
            &&& 0 <= p < unit_count(map)
            &&& 0 <= looked_up(map, p, c) < unit_count(map)
            &&& 0 <= following(map, p) < unit_count(map)
            &&& key.len() > 0 && finds(unit(map, p)) ==> begins_character(
                texts(map),
                unit(map, following(map, p)) % 0x8000_0000,
            )
        }),
    decreases key.len(),
{
    let p = arrived(map, key)->0;
    if key.len() > 0 {
        a_sound_map_keeps_every_text_inside(map, key.drop_last(), key.last());
    }
    assert(leads_well(map, p));
    lemma_within_block(following(map, p) as u64, c as u64);
}

/// The digits of base64 in order of their numbers: capitals, small letters, figures, plus and
/// slash; nothing else is one.
pub proof fn base64_digits_count_to_sixty_four(c: char, d: char)
    ensures
        sextet('A') == Some(0u8) && sextet('Z') == Some(25u8),
        sextet('a') == Some(26u8) && sextet('z') == Some(51u8),
        sextet('0') == Some(52u8) && sextet('9') == Some(61u8),
        sextet('+') == Some(62u8) && sextet('/') == Some(63u8),
        sextet(c) is Some ==> sextet(c)->0 < 64,
        sextet(c) is Some && sextet(c) == sextet(d) ==> c == d,
        ('A' <= c < 'Z' || 'a' <= c < 'z' || '0' <= c < '9') && d as u32 == c as u32 + 1
            ==> sextet(d)->0 == sextet(c)->0 + 1,
        sextet(c) is Some <==> ('A' <= c <= 'Z' || 'a' <= c <= 'z' || '0' <= c <= '9' || c == '+'
            || c == '/'),
{
}

/// Four digits of base64 and the three bytes that they encode are the same number.
pub proof fn four_digits_are_three_bytes(s: Seq<char>, g: int)
    requires
        is_base64(s),
        0 <= g,
        4 * g + 4 <= s.len() - filled(s),
    ensures
        ({
            let b = decoded(s);
            &&& 3 * g + 3 <= b.len()
            &&& b[3 * g] * 65536 + b[3 * g + 1] * 256 + b[3 * g + 2] == sextet(s[4 * g])->0 * 262144
                + sextet(s[4 * g + 1])->0 * 4096 + sextet(s[4 * g + 2])->0 * 64 + sextet(
                s[4 * g + 3],
            )->0
        }),
        decoded(s).len() == s.len() / 4 * 3 - filled(s),
{
    let b = decoded(s);
    assert(sextet(s[4 * g]) is Some && sextet(s[4 * g + 1]) is Some);
    assert(sextet(s[4 * g + 2]) is Some && sextet(s[4 * g + 3]) is Some);
    assert(3 * g / 3 == g && (3 * g) % 3 == 0);
    assert((3 * g + 1) / 3 == g && (3 * g + 1) % 3 == 1);
    assert((3 * g + 2) / 3 == g && (3 * g + 2) % 3 == 2);
    base64_digits_count_to_sixty_four(s[4 * g], 'A');
    base64_digits_count_to_sixty_four(s[4 * g + 1], 'A');
    base64_digits_count_to_sixty_four(s[4 * g + 2], 'A');
    base64_digits_count_to_sixty_four(s[4 * g + 3], 'A');
    assert(filled(s) <= 2);
    assert(3 * g + 3 <= b.len());
    let w = sextet(s[4 * g])->0 as int;
    let x = sextet(s[4 * g + 1])->0 as int;
    let y = sextet(s[4 * g + 2])->0 as int;
    let z = sextet(s[4 * g + 3])->0 as int;
    assert(b[3 * g] == w * 4 + x / 16);
    assert(b[3 * g + 1] == x % 16 * 16 + y / 4);
    assert(b[3 * g + 2] == y % 4 * 64 + z);
}

/// Equals signs fill the last group: without one it encodes three bytes, with one two, with two
/// one.
pub proof fn equals_signs_fill_the_last_group(s: Seq<char>)
    requires
        is_base64(s),
        s.len() > 0,
    ensures
        s.last() != '=' ==> decoded(s).len() == s.len() / 4 * 3,
        s.last() == '=' && s[s.len() - 2] != '=' ==> decoded(s).len() == s.len() / 4 * 3 - 1,
        s.last() == '=' && s[s.len() - 2] == '=' ==> decoded(s).len() == s.len() / 4 * 3 - 2,
{
}

} // verus!
