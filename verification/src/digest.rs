//! BLAKE3 digests: of a text, of a stream of chunks, and in hexadecimal.
use vstd::prelude::*;

verus! {

/// The 32-byte BLAKE3 digest of `data`, as `blake3::hash` computes it.
pub uninterp spec fn blake3_digest(data: Seq<u8>) -> Seq<u8>;

/// Calls `blake3::hash` and hands out the digest's bytes: a function of the input bytes alone.
#[verifier::external_body]
pub(crate) fn hash_bytes(data: &[u8]) -> (r: [u8; 32])
    ensures
        r@ == blake3_digest(data@),
{
    *blake3::hash(data).as_bytes()
}

#[verifier::external_type_specification]
#[verifier::external_body]
pub struct ExBlake3Hasher(blake3::Hasher);

/// Everything that was fed to a `blake3::Hasher` since it was made.
pub uninterp spec fn absorbed(h: blake3::Hasher) -> Seq<u8>;

/// Calls `blake3::Hasher::new`: a hasher that has been fed nothing.
#[verifier::external_body]
fn hasher_new() -> (h: blake3::Hasher)
    ensures
        absorbed(h) == Seq::<u8>::empty(),
{
    blake3::Hasher::new()
}

/// Calls `blake3::Hasher::update`: the hasher has then been fed `data` as well.
#[verifier::external_body]
fn hasher_update(h: &mut blake3::Hasher, data: &[u8])
    ensures
        absorbed(*final(h)) == absorbed(*old(h)) + data@,
{
    h.update(data);
}

/// Calls `blake3::Hasher::finalize`: the digest of everything fed so far, the same as
/// `blake3::hash` gives for it in one piece.
#[verifier::external_body]
fn hasher_finalize(h: &blake3::Hasher) -> (r: [u8; 32])
    ensures
        r@ == blake3_digest(absorbed(*h)),
{
    *h.finalize().as_bytes()
}

/// The digest of a file that is read chunk by chunk.
pub struct StreamDigest {
    hasher: blake3::Hasher,
}

impl StreamDigest {
    /// What has been read so far.
    pub closed spec fn fed(&self) -> Seq<u8> {
        absorbed(self.hasher)
    }

    /// Nothing read yet.
    pub fn new() -> (r: Self)
        ensures
            r.fed() == Seq::<u8>::empty(),
    {
        StreamDigest { hasher: hasher_new() }
    }

    /// Takes in the next chunk.
    pub fn update(&mut self, chunk: &[u8])
        ensures
            final(self).fed() == old(self).fed() + chunk@,
    {
        hasher_update(&mut self.hasher, chunk);
    }

    /// The lower-case hexadecimal digest of everything read.
    pub fn finish(&self) -> (r: String)
        ensures
            r@ == hex(blake3_digest(self.fed())),
    {
        let d = hasher_finalize(&self.hasher);
        to_hex(&d)
    }
}

/// The lower-case hexadecimal digit for `n`.
pub open spec fn hex_digit(n: int) -> char
    recommends
        0 <= n < 16,
{
    if n < 10 {
        (n + 48) as char
    } else {
        (n + 87) as char
    }
}

/// Two hexadecimal digits per byte, the high one first.
pub open spec fn hex(bytes: Seq<u8>) -> Seq<char> {
    Seq::new(
        2 * bytes.len(),
        |i: int|
            if i % 2 == 0 {
                hex_digit(bytes[i / 2] as int / 16)
            } else {
                hex_digit(bytes[i / 2] as int % 16)
            },
    )
}

fn hex_char(n: u8) -> (c: char)
    requires
        n < 16,
    ensures
        c == hex_digit(n as int),
{
    if n < 10 {
        (n + 48) as char
    } else {
        (n + 87) as char
    }
}

/// `bytes` in lower-case hexadecimal.
pub fn to_hex(bytes: &[u8]) -> (r: String)
    ensures
        r@ == hex(bytes@),
{
    let mut out = String::new();
    let mut i: usize = 0;
    while i < bytes.len()
        invariant
            i <= bytes@.len(),
            out@ == hex(bytes@.take(i as int)),
        decreases bytes@.len() - i,
    {
        let b: u8 = bytes[i];
        out.push(hex_char(b / 16));
        out.push(hex_char(b % 16));
        i += 1;
        proof {
            assert(out@ =~= hex(bytes@.take(i as int)));
        }
    }
    proof {
        assert(bytes@.take(bytes@.len() as int) =~= bytes@);
    }
    out
}

// ------------------------------------------------------------------ laws

/// The digit of each number below sixteen.
pub open spec fn sixteen_digits() -> Seq<char> {
    seq!['0', '1', '2', '3', '4', '5', '6', '7', '8', '9', 'a', 'b', 'c', 'd', 'e', 'f']
}

/// A digest is written in lower case, two digits to each byte, the high one first.
pub proof fn bytes_are_written_high_digit_first(bytes: Seq<u8>, i: int)
    requires
        0 <= i < bytes.len(),
    ensures
        hex(bytes).len() == 2 * bytes.len(),
        hex(bytes)[2 * i] == sixteen_digits()[bytes[i] as int / 16],
        hex(bytes)[2 * i + 1] == sixteen_digits()[bytes[i] as int % 16],
{
    let b = bytes[i] as int;
    let h = b / 16;
    let l = b % 16;
    assert(0 <= h < 16 && 0 <= l < 16);
    lemma_hex_digit(h);
    lemma_hex_digit(l);
    assert((2 * i) / 2 == i && (2 * i) % 2 == 0);
    assert((2 * i + 1) / 2 == i && (2 * i + 1) % 2 == 1);
}

proof fn lemma_hex_digit(n: int)
    requires
        0 <= n < 16,
    ensures
        hex_digit(n) == sixteen_digits()[n],
{
}

} // verus!
