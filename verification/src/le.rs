//! Numbers as bytes, the least significant first.
use vstd::prelude::*;

verus! {

/// The number that `s` spells.
pub open spec fn value(s: Seq<u8>) -> nat
    decreases s.len(),
{
    if s.len() == 0 {
        0
    } else {
        s[0] as nat + 256 * value(s.drop_first())
    }
}

/// The lowest `k` bytes of `n`.
pub open spec fn bytes(n: nat, k: nat) -> Seq<u8>
    decreases k,
{
    if k == 0 {
        seq![]
    } else {
        seq![(n % 256) as u8] + bytes(n / 256, (k - 1) as nat)
    }
}

/// One more than the largest number of `k` bytes.
pub open spec fn limit(k: nat) -> nat
    decreases k,
{
    if k == 0 {
        1
    } else {
        256 * limit((k - 1) as nat)
    }
}

/// A number is below the limit of its length.
pub proof fn lemma_value_fits(s: Seq<u8>)
    ensures
        value(s) < limit(s.len()),
    decreases s.len(),
{
    if s.len() > 0 {
        lemma_value_fits(s.drop_first());
    }
}

/// What a number of four or of eight bytes stays below.
pub proof fn lemma_limits()
    ensures
        limit(4) == 0x1_0000_0000,
        limit(8) == 0x1_0000_0000_0000_0000,
{
    reveal_with_fuel(limit, 9);
}

/// More bytes reach further.
proof fn lemma_limit_grows(a: nat, b: nat)
    requires
        a <= b,
    ensures
        limit(a) <= limit(b),
    decreases b,
{
    if a < b {
        lemma_limit_grows(a, (b - 1) as nat);
    }
}

/// A number that fits reads back from its bytes.
pub proof fn a_number_reads_back(n: nat, k: nat)
    requires
        n < limit(k),
    ensures
        bytes(n, k).len() == k,
        value(bytes(n, k)) == n,
    decreases k,
{
    if k > 0 {
        a_number_reads_back(n / 256, (k - 1) as nat);
        assert(bytes(n, k).drop_first() =~= bytes(n / 256, (k - 1) as nat));
    }
}

/// Zero bytes spell zero.
pub proof fn lemma_zeros(s: Seq<u8>)
    requires
        forall|i: int| 0 <= i < s.len() ==> s[i] == 0,
    ensures
        value(s) == 0,
    decreases s.len(),
{
    if s.len() > 0 {
        lemma_zeros(s.drop_first());
    }
}

/// The lowest `k` bytes of `n`.
pub fn to_le(n: u64, k: usize) -> (r: Vec<u8>)
    ensures
        r@ == bytes(n as nat, k as nat),
        r@.len() == k,
{
    let mut out: Vec<u8> = Vec::new();
    let mut rest: u64 = n;
    let mut i: usize = 0;
    proof {
        assert(out@ + bytes(n as nat, k as nat) =~= bytes(n as nat, k as nat));
    }
    while i < k
        invariant
            i <= k,
            out@.len() == i,
            out@ + bytes(rest as nat, (k - i) as nat) == bytes(n as nat, k as nat),
        decreases k - i,
    {
        let b: u8 = (rest % 256) as u8;
        proof {
            let tail = bytes(rest as nat / 256, (k - i - 1) as nat);
            assert(out@ + (seq![b] + tail) =~= out@.push(b) + tail);
        }
        out.push(b);
        rest = rest / 256;
        i += 1;
    }
    proof {
        assert(out@ + bytes(rest as nat, 0) =~= out@);
    }
    out
}

/// The number that at most eight bytes spell.
pub fn from_le(s: &[u8]) -> (r: u64)
    requires
        s@.len() <= 8,
    ensures
        r == value(s@),
{
    let mut r: u64 = 0;
    let mut i: usize = s.len();
    proof {
        assert(s@.skip(s@.len() as int) =~= Seq::<u8>::empty());
    }
    while i > 0
        invariant
            i <= s@.len() <= 8,
            r == value(s@.skip(i as int)),
        decreases i,
    {
        proof {
            let more = s@.skip(i - 1);
            assert(more.drop_first() =~= s@.skip(i as int));
            lemma_value_fits(more);
            lemma_limit_grows(more.len(), 8);
            lemma_limits();
        }
        i -= 1;
        r = r * 256 + s[i] as u64;
    }
    proof {
        assert(s@.skip(0) =~= s@);
    }
    r
}

/// The first byte counts once, and each byte 256 times as much as the one before it.
pub proof fn each_byte_counts_more_than_the_one_before(a: Seq<u8>, b: Seq<u8>, x: u8)
    ensures
        value(seq![x]) == x,
        value(a + b) == value(a) + limit(a.len()) * value(b),
        limit(0) == 1,
        limit(a.len() + 1) == 256 * limit(a.len()),
    decreases a.len(),
{
    assert(seq![x].drop_first() =~= seq![]);
    assert(value(Seq::<u8>::empty()) == 0);
    reveal_with_fuel(value, 2);
    if a.len() == 0 {
        assert(a + b =~= b);
        let l = limit(a.len());
        let v = value(b);
        assert(l * v == v) by (nonlinear_arith)
            requires
                l == 1,
        ;
    } else {
        each_byte_counts_more_than_the_one_before(a.drop_first(), b, x);
        assert((a + b).drop_first() =~= a.drop_first() + b);
        let l = limit((a.len() - 1) as nat);
        let v = value(b);
        let w = value(a.drop_first());
        assert(limit(a.len()) == 256 * l);
        assert(value(a + b) == a[0] + 256 * (w + l * v));
        assert(256 * (l * v) == (256 * l) * v) by (nonlinear_arith);
    }
}

/// The bytes of the number that some bytes spell are those bytes.
pub proof fn bytes_read_as_they_were(s: Seq<u8>)
    ensures
        bytes(value(s), s.len()) == s,
    decreases s.len(),
{
    if s.len() > 0 {
        let v = value(s.drop_first());
        bytes_read_as_they_were(s.drop_first());
        assert((s[0] + 256 * v) % 256 == s[0] && (s[0] + 256 * v) / 256 == v as int);
        assert(seq![s[0]] + s.drop_first() =~= s);
    }
    assert(bytes(value(s), s.len()) =~= s);
}

} // verus!
