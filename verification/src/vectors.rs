//! Flat store of int8 vectors: the file layout, its header, and the exhaustive scan.
//!
//! The store is one file: a 64-byte header, then `capacity` rows of `dim` signed bytes followed
//! by a single-precision scale. The file's bytes are memory-mapped by the caller and handed to
//! each operation as a slice. A row whose scale is zero holds no vector and never ranks, so
//! search needs no liveness filter of its own.
use crate::digest;
use crate::le;
use crate::score;
use crate::text;
use crate::topk::Hit;
use vstd::prelude::*;

verus! {

/// Bytes before the first row.
pub const HEADER: usize = 64;

/// Rows added per growth step, to keep resizing and remapping infrequent.
pub const GROW_ROWS: usize = 8192;

/// The first eight bytes of every store: `WOMVEC01`.
pub open spec fn magic() -> Seq<u8> {
    seq![87u8, 79u8, 77u8, 86u8, 69u8, 67u8, 48u8, 49u8]
}

fn magic_bytes() -> (r: [u8; 8])
    ensures
        r@ == magic(),
{
    let r: [u8; 8] = [87, 79, 77, 86, 69, 67, 48, 49];
    proof {
        assert(r@ =~= magic());
    }
    r
}

/// Why a store cannot be used as asked.
#[derive(Debug, Clone, Copy, PartialEq, Eq, Structural)]
pub enum StoreError {
    /// A dimension of zero was asked for.
    ZeroDim,
    /// The file does not start with the magic bytes.
    BadMagic,
    /// The header claims more rows in use than there is room for.
    Inconsistent { high_water: usize, capacity: usize },
    /// The file holds vectors of another dimension.
    DimMismatch { found: usize, wanted: usize },
    /// The file was built with another model.
    ModelMismatch,
    /// A vector to store has the wrong number of components.
    VectorDims { got: usize, expected: usize },
    /// A query has the wrong number of components.
    QueryDims { got: usize, expected: usize },
    /// A scope allow-list does not cover every row.
    ShortAllowList { got: usize, rows: usize },
}

impl StoreError {
    /// What the user is told about the store at `path`.
    pub open spec fn message_spec(self, path: Seq<char>) -> Seq<char> {
        match self {
            StoreError::ZeroDim => "vector dimension must be non-zero"@,
            StoreError::BadMagic =>
                "not a wom vector store (bad magic). Run `wom index --rebuild`."@,
            StoreError::Inconsistent { high_water, capacity } =>
                "vector store header is inconsistent (high water "@ + text::decimal(
                    high_water as nat,
                ) + " > capacity "@ + text::decimal(capacity as nat) + ")"@,
            StoreError::DimMismatch { found, wanted } => "vector store "@ + path + " holds "@
                + text::decimal(found as nat)
                + "-dim vectors but the configured model produces "@ + text::decimal(wanted as nat)
                + "-dim. Run `wom index --rebuild`."@,
            StoreError::ModelMismatch => "vector store "@ + path
                + " was built with a different model. Vectors from two models are not comparable. Run `wom index --rebuild`."@,
            StoreError::VectorDims { got, expected } => "vector has "@ + text::decimal(got as nat)
                + " dims, store expects "@ + text::decimal(expected as nat),
            StoreError::QueryDims { got, expected } => "query has "@ + text::decimal(got as nat)
                + " dims, store holds "@ + text::decimal(expected as nat),
            StoreError::ShortAllowList { got, rows } => "scope allow-list has "@ + text::decimal(
                got as nat,
            ) + " entries but the vector store holds "@ + text::decimal(rows as nat)
                + "; refusing to silently exclude rows"@,
        }
    }

    /// What the user is told about the store at `path`.
    pub fn message(&self, path: &str) -> (r: String)
        ensures
            r@ == self.message_spec(path@),
    {
        let mut s = String::new();
        match *self {
            StoreError::ZeroDim => {
                s.append("vector dimension must be non-zero");
            },
            StoreError::BadMagic => {
                s.append("not a wom vector store (bad magic). Run `wom index --rebuild`.");
            },
            StoreError::Inconsistent { high_water, capacity } => {
                s.append("vector store header is inconsistent (high water ");
                s.append(text::dec(high_water as u64).as_str());
                s.append(" > capacity ");
                s.append(text::dec(capacity as u64).as_str());
                s.append(")");
            },
            StoreError::DimMismatch { found, wanted } => {
                s.append("vector store ");
                s.append(path);
                s.append(" holds ");
                s.append(text::dec(found as u64).as_str());
                s.append("-dim vectors but the configured model produces ");
                s.append(text::dec(wanted as u64).as_str());
                s.append("-dim. Run `wom index --rebuild`.");
            },
            StoreError::ModelMismatch => {
                s.append("vector store ");
                s.append(path);
                s.append(
                    " was built with a different model. Vectors from two models are not comparable. Run `wom index --rebuild`.",
                );
            },
            StoreError::VectorDims { got, expected } => {
                s.append("vector has ");
                s.append(text::dec(got as u64).as_str());
                s.append(" dims, store expects ");
                s.append(text::dec(expected as u64).as_str());
            },
            StoreError::QueryDims { got, expected } => {
                s.append("query has ");
                s.append(text::dec(got as u64).as_str());
                s.append(" dims, store holds ");
                s.append(text::dec(expected as u64).as_str());
            },
            StoreError::ShortAllowList { got, rows } => {
                s.append("scope allow-list has ");
                s.append(text::dec(got as u64).as_str());
                s.append(" entries but the vector store holds ");
                s.append(text::dec(rows as u64).as_str());
                s.append("; refusing to silently exclude rows");
            },
        }
        proof {
            assert(s@ =~= self.message_spec(path@));
        }
        s
    }
}

// ------------------------------------------------------------------ model identity

/// The first eight bytes of the digest of the model's name, as a little-endian number.
pub open spec fn model_hash_of(model_id: Seq<char>) -> u64 {
    le::value(digest::blake3_digest(vstd::utf8::encode_utf8(model_id)).subrange(0, 8)) as u64
}

/// Model identity folded into 64 bits, so a model swap is detected on open.
pub fn hash_model(model_id: &str) -> (r: u64)
    ensures
        r == model_hash_of(model_id@),
{
    let d = digest::hash_bytes(model_id.as_bytes());
    let head = &d[0..8];
    le::from_le(head)
}

// ------------------------------------------------------------------ header

/// The header fields as the file's first bytes spell them.
pub open spec fn header_says(
    map: Seq<u8>,
    dim: usize,
    capacity: usize,
    model_hash: u64,
    high_water: usize,
) -> bool {
    &&& map.len() >= HEADER
    &&& map.subrange(0, 8) == magic()
    &&& map.subrange(8, 12) == le::bytes((dim as u32) as nat, 4)
    &&& map.subrange(12, 16) == le::bytes((capacity as u32) as nat, 4)
    &&& map.subrange(16, 24) == le::bytes(model_hash as nat, 8)
    &&& map.subrange(24, 32) == le::bytes((high_water as u64) as nat, 8)
}

/// Copies `bytes` into `map` from `at` on.
fn write_at(map: &mut [u8], at: usize, bytes: &[u8])
    requires
        at + bytes@.len() <= old(map)@.len(),
    ensures
        final(map)@.len() == old(map)@.len(),
        forall|i: int|
            0 <= i < old(map)@.len() ==> #[trigger] final(map)@[i] == if at <= i < at
                + bytes@.len() {
                bytes@[i - at]
            } else {
                old(map)@[i]
            },
{
    let ghost start = map@;
    let n: usize = map.len();
    let mut i: usize = 0;
    while i < bytes.len()
        invariant
            i <= bytes@.len(),
            n == start.len(),
            at + bytes@.len() <= n,
            map@.len() == start.len(),
            forall|j: int|
                0 <= j < start.len() ==> #[trigger] map@[j] == if at <= j < at + i {
                    bytes@[j - at]
                } else {
                    start[j]
                },
        decreases bytes@.len() - i,
    {
        map[at + i] = bytes[i];
        i += 1;
    }
}

/// Writes the header fields; every byte from 32 on is left alone.
pub fn write_header(map: &mut [u8], dim: usize, capacity: usize, model_hash: u64, high_water: usize)
    requires
        old(map)@.len() >= HEADER,
    ensures
        final(map)@.len() == old(map)@.len(),
        header_says(final(map)@, dim, capacity, model_hash, high_water),
        forall|i: int| 32 <= i < old(map)@.len() ==> final(map)@[i] == old(map)@[i],
{
    let m = magic_bytes();
    write_at(map, 0, &m);
    let d = le::to_le((dim as u32) as u64, 4);
    write_at(map, 8, &d);
    let c = le::to_le((capacity as u32) as u64, 4);
    write_at(map, 12, &c);
    let h = le::to_le(model_hash, 8);
    write_at(map, 16, &h);
    let w = le::to_le(high_water as u64, 8);
    write_at(map, 24, &w);
    proof {
        assert(map@.subrange(0, 8) =~= magic());
        assert(map@.subrange(8, 12) =~= d@);
        assert(map@.subrange(12, 16) =~= c@);
        assert(map@.subrange(16, 24) =~= h@);
        assert(map@.subrange(24, 32) =~= w@);
    }
}

/// The header's fields: dimension, capacity, model hash, high water.
pub struct Header {
    pub dim: usize,
    pub capacity: usize,
    pub model_hash: u64,
    pub high_water: usize,
}

/// The fields that the first bytes of `map` spell.
pub open spec fn header_of(map: Seq<u8>) -> Header {
    Header {
        dim: le::value(map.subrange(8, 12)) as usize,
        capacity: le::value(map.subrange(12, 16)) as usize,
        model_hash: le::value(map.subrange(16, 24)) as u64,
        high_water: le::value(map.subrange(24, 32)) as u64 as usize,
    }
}

/// Reads the header, refusing a foreign file and one that contradicts itself.
pub fn read_header(map: &[u8]) -> (r: Result<Header, StoreError>)
    requires
        map@.len() >= HEADER,
    ensures
        r == (if map@.subrange(0, 8) != magic() {
            Err::<Header, StoreError>(StoreError::BadMagic)
        } else if header_of(map@).high_water > header_of(map@).capacity {
            Err(
                StoreError::Inconsistent {
                    high_water: header_of(map@).high_water,
                    capacity: header_of(map@).capacity,
                },
            )
        } else {
            Ok(header_of(map@))
        }),
{
    let m = magic_bytes();
    let mut i: usize = 0;
    while i < 8
        invariant
            i <= 8,
            map@.len() >= HEADER,
            m@ == magic(),
            m@.len() == 8,
            forall|j: int| 0 <= j < i ==> map@[j] == m@[j],
        decreases 8 - i,
    {
        if map[i] != m[i] {
            proof {
                assert(map@.subrange(0, 8)[i as int] != magic()[i as int]);
            }
            return Err(StoreError::BadMagic);
        }
        i += 1;
    }
    proof {
        assert(map@.subrange(0, 8) =~= magic());
    }
    proof {
        le::lemma_limits();
        le::lemma_value_fits(map@.subrange(8, 12));
        le::lemma_value_fits(map@.subrange(12, 16));
    }
    let dim: usize = le::from_le(&map[8..12]) as usize;
    let capacity: usize = le::from_le(&map[12..16]) as usize;
    let model_hash: u64 = le::from_le(&map[16..24]);
    let high_water: usize = le::from_le(&map[24..32]) as usize;
    if high_water > capacity {
        return Err(StoreError::Inconsistent { high_water, capacity });
    }
    Ok(Header { dim, capacity, model_hash, high_water })
}


// ------------------------------------------------------------------ the store

/// How to go about opening a store file.
#[derive(Debug, Clone, Copy, PartialEq, Eq, Structural)]
pub enum OpenPlan {
    /// Map the file and read its header.
    Existing,
    /// Size the file to `len` bytes, map it and write a fresh header.
    Fresh { len: u64 },
}

/// Decides how to open a store of `dim` components in a file of `len` bytes.
pub fn open_plan(dim: usize, present: bool, len: u64) -> (r: Result<OpenPlan, StoreError>)
    requires
        HEADER + GROW_ROWS * (dim + 4) <= usize::MAX,
    ensures
        r == (if dim == 0 {
            Err::<OpenPlan, StoreError>(StoreError::ZeroDim)
        } else if present && len >= HEADER {
            Ok(OpenPlan::Existing)
        } else {
            Ok(OpenPlan::Fresh { len: (HEADER + GROW_ROWS * (dim + 4)) as u64 })
        }),
{
    if dim == 0 {
        return Err(StoreError::ZeroDim);
    }
    if present && len >= HEADER as u64 {
        return Ok(OpenPlan::Existing);
    }
    Ok(OpenPlan::Fresh { len: (HEADER + GROW_ROWS * (dim + 4)) as u64 })
}

/// A vector as it is stored: signed bytes and the bits of their common scale.
pub struct Quantised {
    pub components: Vec<i8>,
    pub scale: u32,
}

/// The components stored for `v`: zeros where there is no direction to store.
pub open spec fn components_of(v: &Option<Quantised>, dim: usize) -> Seq<i8> {
    match v {
        Some(q) => q.components@,
        None => Seq::new(dim as nat, |i: int| 0i8),
    }
}

/// The scale stored for `v`: zero where there is no direction to store.
pub open spec fn scale_of(v: &Option<Quantised>) -> u32 {
    match v {
        Some(q) => q.scale,
        None => 0,
    }
}

/// A row that a query is compared with: the integer dot product and the row's scale.
#[derive(Debug, Clone, Copy, PartialEq, Eq, Structural)]
pub struct Candidate {
    pub row: u32,
    pub raw: i32,
    pub scale: u32,
}

/// Room to make before a row can be written.
#[derive(Debug, Clone, Copy, PartialEq, Eq, Structural)]
pub struct Growth {
    pub capacity: usize,
    pub len: u64,
}

/// The smallest multiple of the growth step that is at least `rows`.
pub open spec fn grown_capacity(rows: int) -> int {
    (rows + GROW_ROWS - 1) / GROW_ROWS as int * GROW_ROWS
}

/// The geometry of an open store; its bytes are passed to each operation.
pub struct VectorStore {
    pub dim: usize,
    /// Bytes per row: `dim` components followed by a four-byte scale.
    pub stride: usize,
    /// Rows the file has space for.
    pub capacity: usize,
    /// One past the highest row ever written; the scan range for search.
    pub high_water: usize,
    pub model_hash: u64,
}

/// Where row `row` begins.
pub open spec fn offset(stride: int, row: int) -> int {
    HEADER + row * stride
}

proof fn lemma_rows_apart(stride: int, a: int, b: int)
    requires
        0 <= a < b,
        stride > 0,
    ensures
        a * stride >= 0,
        a * stride + stride <= b * stride,
{
    assert(a * stride >= 0) by (nonlinear_arith)
        requires
            a >= 0,
            stride > 0,
    ;
    assert((a + 1) * stride <= b * stride) by (nonlinear_arith)
        requires
            a + 1 <= b,
            stride > 0,
    ;
    assert((a + 1) * stride == a * stride + stride) by (nonlinear_arith);
}

impl VectorStore {
    /// The store describes `map`: every row fits, and the header says what the fields say.
    pub open spec fn wf(&self, map: Seq<u8>) -> bool {
        &&& self.dim > 0
        &&& self.stride == self.dim + 4
        &&& self.high_water <= self.capacity
        &&& HEADER + self.capacity * self.stride <= map.len()
        &&& header_says(map, self.dim, self.capacity, self.model_hash, self.high_water)
    }

    /// The components of row `row`.
    pub open spec fn components(&self, map: Seq<u8>, row: int) -> Seq<i8> {
        Seq::new(self.dim as nat, |i: int| map[offset(self.stride as int, row) + i] as i8)
    }

    /// The bits of row `row`'s scale.
    pub open spec fn scale(&self, map: Seq<u8>, row: int) -> u32 {
        let at = offset(self.stride as int, row) + self.dim;
        le::value(map.subrange(at, at + 4)) as u32
    }

    /// Whether row `row` holds a vector: it was written, and its scale is not zero.
    pub open spec fn live(&self, map: Seq<u8>, row: int) -> bool {
        &&& 0 <= row < self.high_water
        &&& score::value(self.scale(map, row)) != 0
    }

    /// Row `row` holds what is stored for `v`.
    pub open spec fn holds(&self, map: Seq<u8>, row: int, v: Option<Quantised>) -> bool {
        &&& self.components(map, row) == components_of(&v, self.dim)
        &&& self.scale(map, row) == scale_of(&v)
    }

    /// Whether no row past the high water holds a vector, as in a file that was zeroed when it was
    /// sized.
    pub open spec fn blank_beyond(&self, map: Seq<u8>) -> bool {
        forall|r: int|
            self.high_water <= r < self.capacity ==> score::value(#[trigger] self.scale(map, r)) == 0
    }

    /// Row `row` reads the same as it did before.
    pub open spec fn reads_as(
        &self,
        map: Seq<u8>,
        before: Self,
        old_map: Seq<u8>,
        row: int,
    ) -> bool {
        &&& self.live(map, row) == before.live(old_map, row)
        &&& self.live(map, row) ==> {
            &&& self.components(map, row) == before.components(old_map, row)
            &&& self.scale(map, row) == before.scale(old_map, row)
        }
    }

    /// Row `row` holds the same in `a` as in `b`.
    pub open spec fn same_row(&self, a: Seq<u8>, b: Seq<u8>, row: int) -> bool {
        &&& self.components(a, row) == self.components(b, row)
        &&& self.scale(a, row) == self.scale(b, row)
    }

    /// `after` describes `map` as `before` described `old_map`, with room for `capacity` rows. No
    /// row changes, and where the bytes that came in are zero, nothing is held past the high water.
    pub open spec fn grew(
        before: Self,
        old_map: Seq<u8>,
        after: Self,
        map: Seq<u8>,
        capacity: usize,
    ) -> bool {
        &&& map.len() == old_map.len()
        &&& after.wf(map)
        &&& after.dim == before.dim
        &&& after.model_hash == before.model_hash
        &&& after.high_water == before.high_water
        &&& after.capacity == capacity
        &&& forall|r: int| 0 <= r < capacity ==> #[trigger] after.same_row(map, old_map, r)
        &&& forall|r: int| #[trigger] after.reads_as(map, before, old_map, r)
        &&& before.blank_beyond(old_map) && (forall|i: int|
            offset(before.stride as int, before.capacity as int) <= i < offset(
                before.stride as int,
                capacity as int,
            ) ==> old_map[i] == 0) ==> after.blank_beyond(map)
    }

    /// `after` describes `map` as `before` described `old_map`, with `v` at `row`. No other row
    /// changes; and where nothing was held past the high water, that stays so, and every other row
    /// reads as it did, those that were skipped over included.
    pub open spec fn stored(
        before: Self,
        old_map: Seq<u8>,
        after: Self,
        map: Seq<u8>,
        row: usize,
        v: Option<Quantised>,
    ) -> bool {
        &&& map.len() == old_map.len()
        &&& after.wf(map)
        &&& after.dim == before.dim
        &&& after.capacity == before.capacity
        &&& after.model_hash == before.model_hash
        &&& after.high_water == if row + 1 > before.high_water {
            (row + 1) as usize
        } else {
            before.high_water
        }
        &&& after.holds(map, row as int, v)
        &&& forall|r: int|
            0 <= r < before.capacity && r != row ==> #[trigger] after.same_row(map, old_map, r)
        &&& before.blank_beyond(old_map) ==> {
            &&& after.blank_beyond(map)
            &&& forall|r: int| r != row ==> #[trigger] after.reads_as(map, before, old_map, r)
        }
    }

    /// Opens the store that `map` holds, or says why it is not the one asked for.
    pub fn open(map: &[u8], dim: usize, model_id: &str) -> (r: Result<Self, StoreError>)
        requires
            map@.len() >= HEADER,
            dim + 4 <= usize::MAX,
        ensures
            dim == 0 <==> r == Err::<Self, StoreError>(StoreError::ZeroDim),
            dim > 0 && map@.subrange(0, 8) != magic() <==> r == Err::<Self, StoreError>(
                StoreError::BadMagic,
            ),
            dim > 0 && map@.subrange(0, 8) == magic() ==> {
                let h = header_of(map@);
                if h.high_water > h.capacity {
                    r == Err::<Self, StoreError>(
                        StoreError::Inconsistent { high_water: h.high_water, capacity: h.capacity },
                    )
                } else if h.dim != dim {
                    r == Err::<Self, StoreError>(
                        StoreError::DimMismatch { found: h.dim, wanted: dim },
                    )
                } else if h.model_hash != model_hash_of(model_id@) {
                    r == Err::<Self, StoreError>(StoreError::ModelMismatch)
                } else {
                    r == Ok::<Self, StoreError>(
                        VectorStore {
                            dim,
                            stride: (dim + 4) as usize,
                            capacity: h.capacity,
                            high_water: h.high_water,
                            model_hash: h.model_hash,
                        },
                    )
                }
            },
    {
        if dim == 0 {
            return Err(StoreError::ZeroDim);
        }
        let h = match read_header(map) {
            Ok(h) => h,
            Err(e) => {
                return Err(e);
            },
        };
        if h.dim != dim {
            return Err(StoreError::DimMismatch { found: h.dim, wanted: dim });
        }
        if h.model_hash != hash_model(model_id) {
            return Err(StoreError::ModelMismatch);
        }
        Ok(
            VectorStore {
                dim,
                stride: dim + 4,
                capacity: h.capacity,
                high_water: h.high_water,
                model_hash: h.model_hash,
            },
        )
    }

    /// Whether `map` is long enough for every row the header promises.
    pub fn fits(&self, map: &[u8]) -> (r: bool)
        ensures
            r == (HEADER + self.capacity * self.stride <= map@.len()),
    {
        proof {
            assert(0 <= self.capacity * self.stride <= u64::MAX * u64::MAX) by (nonlinear_arith)
                requires
                    0 <= self.capacity <= u64::MAX,
                    0 <= self.stride <= u64::MAX,
            ;
        }
        let body: u128 = (self.capacity as u128) * (self.stride as u128);
        map.len() >= HEADER && body <= (map.len() - HEADER) as u128
    }

    /// Makes `map` an empty store.
    pub fn create(map: &mut [u8], dim: usize, model_id: &str) -> (r: Self)
        requires
            dim > 0,
            HEADER + GROW_ROWS * (dim + 4) <= old(map)@.len(),
        ensures
            final(map)@.len() == old(map)@.len(),
            r.wf(final(map)@),
            r.dim == dim,
            r.capacity == GROW_ROWS,
            r.high_water == 0,
            r.model_hash == model_hash_of(model_id@),
            (forall|i: int| HEADER <= i < old(map)@.len() ==> old(map)@[i] == 0)
                ==> r.blank_beyond(final(map)@),
    {
        let n: usize = map.len();
        let model_hash: u64 = hash_model(model_id);
        let ghost before = map@;
        write_header(map, dim, GROW_ROWS, model_hash, 0);
        let r = VectorStore {
            dim,
            stride: dim + 4,
            capacity: GROW_ROWS,
            high_water: 0,
            model_hash,
        };
        proof {
            if forall|i: int| HEADER <= i < before.len() ==> before[i] == 0 {
                assert forall|k: int| 0 <= k < r.capacity implies score::value(
                    #[trigger] r.scale(map@, k),
                ) == 0 by {
                    lemma_rows_apart(r.stride as int, k, r.capacity as int);
                    zero_bytes_are_a_dead_row(r, map@, k);
                }
            }
        }
        r
    }

    /// One past the highest row written, i.e. the range search covers.
    pub fn high_water(&self) -> (r: usize)
        ensures
            r == self.high_water,
    {
        self.high_water
    }

    /// What has to be made room for before row `row` can be written, if anything.
    pub fn growth(&self, row: usize) -> (r: Option<Growth>)
        requires
            HEADER + grown_capacity(row + 1) * self.stride <= usize::MAX,
            grown_capacity(row + 1) <= usize::MAX,
        ensures
            r == (if row < self.capacity {
                None::<Growth>
            } else {
                Some(
                    Growth {
                        capacity: grown_capacity(row + 1) as usize,
                        len: (HEADER + grown_capacity(row + 1) * self.stride) as u64,
                    },
                )
            }),
    {
        if row < self.capacity {
            return None;
        }
        let steps: usize = row / GROW_ROWS + 1;
        proof {
            assert((row + 1 + GROW_ROWS - 1) / GROW_ROWS as int == row / GROW_ROWS + 1);
        }
        let capacity: usize = steps * GROW_ROWS;
        proof {
            assert(capacity == grown_capacity(row + 1));
            assert(capacity * self.stride >= 0) by (nonlinear_arith)
                requires
                    capacity >= 0,
                    self.stride >= 0,
            ;
        }
        Some(Growth { capacity, len: (HEADER + capacity * self.stride) as u64 })
    }

    /// Takes over the remapped file after it was grown to hold `capacity` rows. No row changes.
    pub fn grown(&mut self, map: &mut [u8], capacity: usize)
        requires
            old(self).dim > 0,
            old(self).stride == old(self).dim + 4,
            old(self).high_water <= old(self).capacity <= capacity,
            HEADER + capacity * old(self).stride <= old(map)@.len(),
        ensures
            Self::grew(*old(self), old(map)@, *final(self), final(map)@, capacity),
    {
        let ghost was = *self;
        self.capacity = capacity;
        let ghost before = map@;
        proof {
            assert(capacity * self.stride >= 0) by (nonlinear_arith)
                requires
                    capacity >= 0,
                    self.stride >= 0,
            ;
        }
        write_header(map, self.dim, self.capacity, self.model_hash, self.high_water);
        proof {
            assert forall|r: int| 0 <= r < capacity implies #[trigger] self.same_row(
                map@,
                before,
                r,
            ) by {
                lemma_rows_apart(self.stride as int, r, capacity as int);
                self.lemma_same_bytes(map@, before, r);
            }
            assert forall|r: int| #[trigger] self.reads_as(map@, was, before, r) by {
                if 0 <= r < self.high_water {
                    assert(self.same_row(map@, before, r));
                    assert(was.components(before, r) =~= self.components(before, r));
                }
            }
            if was.blank_beyond(before) && (forall|i: int|
                offset(was.stride as int, was.capacity as int) <= i < offset(
                    was.stride as int,
                    capacity as int,
                ) ==> before[i] == 0) {
                assert forall|r: int| self.high_water <= r < self.capacity implies score::value(
                    #[trigger] self.scale(map@, r),
                ) == 0 by {
                    assert(self.same_row(map@, before, r));
                    if r < was.capacity {
                        assert(score::value(was.scale(before, r)) == 0);
                    } else {
                        lemma_rows_apart(self.stride as int, r, capacity as int);
                        if r > was.capacity {
                            lemma_rows_apart(self.stride as int, was.capacity as int, r);
                        }
                        zero_bytes_are_a_dead_row(*self, before, r);
                    }
                }
            }
        }
    }

    /// Rows read only their own bytes.
    proof fn lemma_same_bytes(&self, a: Seq<u8>, b: Seq<u8>, row: int)
        requires
            0 <= row < self.capacity,
            self.stride == self.dim + 4,
            HEADER + self.capacity * self.stride <= a.len(),
            a.len() == b.len(),
            forall|i: int|
                offset(self.stride as int, row) <= i < offset(self.stride as int, row)
                    + self.stride ==> a[i] == b[i],
        ensures
            self.same_row(a, b, row),
    {
        let at = offset(self.stride as int, row);
        lemma_rows_apart(self.stride as int, row, self.capacity as int);
        assert(self.components(a, row) =~= self.components(b, row));
        assert(a.subrange(at + self.dim, at + self.dim + 4) =~= b.subrange(
            at + self.dim,
            at + self.dim + 4,
        ));
    }

    /// Accepts a vector of `len` components, or says that it does not fit this store.
    pub fn check_vector(&self, len: usize) -> (r: Result<(), StoreError>)
        ensures
            r == (if len != self.dim {
                Err::<(), StoreError>(StoreError::VectorDims { got: len, expected: self.dim })
            } else {
                Ok(())
            }),
    {
        if len != self.dim {
            return Err(StoreError::VectorDims { got: len, expected: self.dim });
        }
        Ok(())
    }

    /// The bytes of a row that holds `v`.
    fn encode_row(&self, v: &Option<Quantised>) -> (r: Vec<u8>)
        requires
            self.dim + 4 <= usize::MAX,
            v matches Some(q) ==> q.components@.len() == self.dim,
        ensures
            r@.len() == self.dim + 4,
            forall|j: int|
                0 <= j < self.dim ==> (#[trigger] r@[j]) as i8 == components_of(v, self.dim)[j],
            r@.subrange(self.dim as int, self.dim + 4) == le::bytes(scale_of(v) as nat, 4),
    {
        let mut bytes: Vec<u8> = Vec::new();
        let mut i: usize = 0;
        while i < self.dim
            invariant
                i <= self.dim,
                v matches Some(q) ==> q.components@.len() == self.dim,
                bytes@.len() == i,
                forall|j: int|
                    0 <= j < i ==> (#[trigger] bytes@[j]) as i8 == components_of(v, self.dim)[j],
            decreases self.dim - i,
        {
            let c: i8 = match v {
                Some(q) => q.components[i],
                None => 0,
            };
            let b: u8 = c as u8;
            proof {
                assert((c as u8) as i8 == c) by (bit_vector);
            }
            bytes.push(b);
            i += 1;
        }
        let scale: u32 = match v {
            Some(q) => q.scale,
            None => 0,
        };
        let mut last = le::to_le(scale as u64, 4);
        let ghost head = bytes@;
        let ghost tail = last@;
        bytes.append(&mut last);
        proof {
            assert forall|j: int| 0 <= j < self.dim implies (#[trigger] bytes@[j]) as i8
                == components_of(v, self.dim)[j] by {
                assert(bytes@[j] == head[j]);
            }
            assert(bytes@.subrange(self.dim as int, self.dim + 4) =~= tail);
        }
        bytes
    }

    /// A row whose bytes are an encoding holds what was encoded.
    proof fn lemma_encoded(
        &self,
        map: Seq<u8>,
        row: int,
        bytes: Seq<u8>,
        components: Seq<i8>,
        scale: u32,
    )
        requires
            0 <= row < self.capacity,
            self.stride == self.dim + 4,
            HEADER + self.capacity * self.stride <= map.len(),
            bytes.len() == self.stride,
            components.len() == self.dim,
            forall|j: int|
                0 <= j < self.stride ==> #[trigger] map[offset(self.stride as int, row) + j]
                    == bytes[j],
            forall|j: int| 0 <= j < self.dim ==> (#[trigger] bytes[j]) as i8 == components[j],
            bytes.subrange(self.dim as int, self.dim + 4) == le::bytes(scale as nat, 4),
        ensures
            self.components(map, row) == components,
            self.scale(map, row) == scale,
    {
        le::lemma_limits();
        le::a_number_reads_back(scale as nat, 4);
        lemma_rows_apart(self.stride as int, row, self.capacity as int);
        let at = offset(self.stride as int, row);
        assert forall|j: int| 0 <= j < self.dim implies #[trigger] map[at + j] as i8
            == components[j] by {
            assert(bytes[j] as i8 == components[j]);
        }
        assert(self.components(map, row) =~= components);
        let s = map.subrange(at + self.dim, at + self.dim + 4);
        assert forall|j: int| 0 <= j < 4 implies #[trigger] s[j] == bytes.subrange(
            self.dim as int,
            self.dim + 4,
        )[j] by {
            assert(map[at + (self.dim + j)] == bytes[self.dim + j]);
        }
        assert(s =~= bytes.subrange(self.dim as int, self.dim + 4));
    }

    /// Writes `bytes` over row `row`.
    fn write_row(&self, map: &mut [u8], row: usize, bytes: &[u8])
        requires
            self.wf(old(map)@),
            row < self.capacity,
            bytes@.len() == self.stride,
        ensures
            final(map)@.len() == old(map)@.len(),
            self.wf(final(map)@),
            forall|i: int|
                0 <= i < self.stride ==> #[trigger] final(map)@[offset(self.stride as int, row as int)
                    + i] == bytes@[i],
            forall|r: int|
                0 <= r < self.capacity && r != row ==> #[trigger] self.same_row(
                    final(map)@,
                    old(map)@,
                    r,
                ),
    {
        let n: usize = map.len();
        let ghost before = map@;
        proof {
            lemma_rows_apart(self.stride as int, row as int, self.capacity as int);
        }
        let at: usize = HEADER + row * self.stride;
        write_at(map, at, bytes);
        proof {
            assert forall|r: int| 0 <= r < self.capacity && r != row implies #[trigger] self.same_row(
                map@,
                before,
                r,
            ) by {
                if r < row {
                    lemma_rows_apart(self.stride as int, r, row as int);
                } else {
                    lemma_rows_apart(self.stride as int, row as int, r);
                }
                lemma_rows_apart(self.stride as int, r, self.capacity as int);
                self.lemma_same_bytes(map@, before, r);
            }
            assert(map@.subrange(0, 8) =~= before.subrange(0, 8));
            assert(map@.subrange(8, 12) =~= before.subrange(8, 12));
            assert(map@.subrange(12, 16) =~= before.subrange(12, 16));
            assert(map@.subrange(16, 24) =~= before.subrange(16, 24));
            assert(map@.subrange(24, 32) =~= before.subrange(24, 32));
        }
    }

    /// Stores a quantised vector at `row`, or, where there is no direction to store, marks the row
    /// dead.
    pub fn put(&mut self, map: &mut [u8], row: usize, v: &Option<Quantised>)
        requires
            old(self).wf(old(map)@),
            row < old(self).capacity,
            v matches Some(q) ==> q.components@.len() == old(self).dim,
        ensures
            Self::stored(*old(self), old(map)@, *final(self), final(map)@, row, *v),
    {
        let ghost before = map@;
        let bytes = self.encode_row(v);
        let ghost narrow = *self;
        self.write_row(map, row, &bytes);
        let ghost mid = map@;
        if row + 1 > self.high_water {
            self.high_water = row + 1;
            proof {
                lemma_rows_apart(self.stride as int, row as int, self.capacity as int);
            }
            write_header(map, self.dim, self.capacity, self.model_hash, self.high_water);
        }
        proof {
            lemma_rows_apart(self.stride as int, row as int, self.capacity as int);
            let at = offset(self.stride as int, row as int);
            assert forall|j: int| 0 <= j < self.stride implies #[trigger] map@[at + j]
                == bytes@[j] by {
                assert(mid[at + j] == bytes@[j]);
            }
            self.lemma_encoded(map@, row as int, bytes@, components_of(v, self.dim), scale_of(v));
            assert forall|r: int| 0 <= r < self.capacity && r != row implies #[trigger] self.same_row(
                map@,
                before,
                r,
            ) by {
                lemma_rows_apart(self.stride as int, r, self.capacity as int);
                assert(narrow.same_row(mid, before, r));
                assert(self.components(mid, r) =~= narrow.components(mid, r));
                assert(self.components(before, r) =~= narrow.components(before, r));
                self.lemma_same_bytes(map@, mid, r);
            }
            if narrow.blank_beyond(before) {
                assert forall|r: int| r != row implies #[trigger] self.reads_as(
                    map@,
                    narrow,
                    before,
                    r,
                ) by {
                    if 0 <= r < self.high_water {
                        assert(self.same_row(map@, before, r));
                        assert(self.components(before, r) =~= narrow.components(before, r));
                        assert(self.scale(before, r) == narrow.scale(before, r));
                    }
                }
                assert forall|r: int| self.high_water <= r < self.capacity implies score::value(
                    #[trigger] self.scale(map@, r),
                ) == 0 by {
                    assert(self.same_row(map@, before, r));
                    assert(self.scale(before, r) == narrow.scale(before, r));
                }
            }
        }
    }

    /// Marks a row as holding no vector. Past the high water there is nothing to mark.
    pub fn clear(&self, map: &mut [u8], row: usize)
        requires
            self.wf(old(map)@),
        ensures
            final(map)@.len() == old(map)@.len(),
            self.wf(final(map)@),
            row >= self.high_water ==> final(map)@ == old(map)@,
            !self.live(final(map)@, row as int),
            self.blank_beyond(old(map)@) ==> self.blank_beyond(final(map)@),
            forall|r: int|
                0 <= r < self.capacity && r != row ==> #[trigger] self.same_row(
                    final(map)@,
                    old(map)@,
                    r,
                ),
    {
        if row >= self.high_water {
            return ;
        }
        let ghost before = map@;
        let zero = self.encode_row(&None);
        self.write_row(map, row, &zero);
        proof {
            assert forall|r: int| self.high_water <= r < self.capacity implies #[trigger] self.scale(
                map@,
                r,
            ) == self.scale(before, r) by {
                assert(self.same_row(map@, before, r));
            }
            self.lemma_encoded(
                map@,
                row as int,
                zero@,
                components_of(&None, self.dim),
                scale_of(&None),
            );
        }
    }

    /// Reads a row back. `None` if the row is empty or out of range.
    pub fn get(&self, map: &[u8], row: usize) -> (r: Option<Quantised>)
        requires
            self.wf(map@),
        ensures
            match r {
                Some(q) => {
                    &&& self.live(map@, row as int)
                    &&& q.components@ == self.components(map@, row as int)
                    &&& q.scale == self.scale(map@, row as int)
                },
                None => !self.live(map@, row as int),
            },
    {
        if row >= self.high_water {
            return None;
        }
        let scale: u32 = self.read_scale(map, row);
        if score::is_zero(scale) {
            return None;
        }
        Some(Quantised { components: self.read_components(map, row), scale })
    }

    fn read_scale(&self, map: &[u8], row: usize) -> (r: u32)
        requires
            self.wf(map@),
            row < self.capacity,
        ensures
            r == self.scale(map@, row as int),
    {
        let n: usize = map.len();
        proof {
            lemma_rows_apart(self.stride as int, row as int, self.capacity as int);
        }
        let at: usize = HEADER + row * self.stride + self.dim;
        let bits: u64 = le::from_le(&map[at..at + 4]);
        proof {
            le::lemma_limits();
            le::lemma_value_fits(map@.subrange(at as int, at + 4));
        }
        bits as u32
    }

    fn read_components(&self, map: &[u8], row: usize) -> (r: Vec<i8>)
        requires
            self.wf(map@),
            row < self.capacity,
        ensures
            r@ == self.components(map@, row as int),
    {
        let n: usize = map.len();
        proof {
            lemma_rows_apart(self.stride as int, row as int, self.capacity as int);
        }
        let at: usize = HEADER + row * self.stride;
        let mut out: Vec<i8> = Vec::new();
        let mut i: usize = 0;
        while i < self.dim
            invariant
                i <= self.dim,
                n == map@.len(),
                at == offset(self.stride as int, row as int),
                at + self.dim <= n,
                out@ == self.components(map@, row as int).take(i as int),
            decreases self.dim - i,
        {
            out.push(map[at + i] as i8);
            proof {
                assert(out@ =~= self.components(map@, row as int).take(i + 1));
            }
            i += 1;
        }
        proof {
            assert(out@ =~= self.components(map@, row as int));
        }
        out
    }

    /// Accepts a query of `len` components and an allow-list of `allowed` entries, or says what is
    /// wrong with them.
    pub fn check_search(&self, len: usize, allowed: Option<usize>) -> (r: Result<(), StoreError>)
        ensures
            r == (if len != self.dim {
                Err::<(), StoreError>(StoreError::QueryDims { got: len, expected: self.dim })
            } else if allowed is Some && allowed->0 < self.high_water {
                Err(StoreError::ShortAllowList { got: allowed->0, rows: self.high_water })
            } else {
                Ok(())
            }),
    {
        if len != self.dim {
            return Err(StoreError::QueryDims { got: len, expected: self.dim });
        }
        if let Some(n) = allowed {
            if n < self.high_water {
                return Err(StoreError::ShortAllowList { got: n, rows: self.high_water });
            }
        }
        Ok(())
    }

    /// Whether a row takes part in a search: allowed, and holding a vector.
    pub open spec fn eligible(&self, map: Seq<u8>, allow: Option<Seq<bool>>, row: int) -> bool {
        &&& self.live(map, row)
        &&& allow matches Some(a) ==> row < a.len() && a[row]
    }

    /// What a query meets in rows `lo..hi`: every eligible row, in order, with its dot product.
    pub open spec fn candidates(
        &self,
        map: Seq<u8>,
        query: Seq<i8>,
        allow: Option<Seq<bool>>,
        lo: int,
        hi: int,
    ) -> Seq<Candidate>
        decreases hi - lo,
    {
        if hi <= lo {
            seq![]
        } else {
            let before = self.candidates(map, query, allow, lo, hi - 1);
            if self.eligible(map, allow, hi - 1) {
                before.push(
                    Candidate {
                        row: (hi - 1) as u32,
                        raw: dot(query, self.components(map, hi - 1)) as i32,
                        scale: self.scale(map, hi - 1),
                    },
                )
            } else {
                before
            }
        }
    }

    /// Compares a quantised query with the rows `lo..hi`.
    pub fn scan(
        &self,
        map: &[u8],
        query: &[i8],
        allow: Option<&[bool]>,
        lo: usize,
        hi: usize,
    ) -> (r: Vec<Candidate>)
        requires
            self.wf(map@),
            query@.len() == self.dim,
            self.dim <= DOT_LIMIT,
            lo <= hi <= self.high_water,
        ensures
            r@ == self.candidates(
                map@,
                query@,
                match allow {
                    Some(a) => Some(a@),
                    None => None,
                },
                lo as int,
                hi as int,
            ),
    {
        let ghost allowed = match allow {
            Some(a) => Some(a@),
            None => None,
        };
        let mut out: Vec<Candidate> = Vec::new();
        let mut row: usize = lo;
        while row < hi
            invariant
                self.wf(map@),
                query@.len() == self.dim,
                self.dim <= DOT_LIMIT,
                lo <= row <= hi <= self.high_water,
                allowed == (match allow {
                    Some(a) => Some(a@),
                    None => None,
                }),
                out@ == self.candidates(map@, query@, allowed, lo as int, row as int),
            decreases hi - row,
        {
            let permitted = match allow {
                Some(a) => row < a.len() && a[row],
                None => true,
            };
            let scale: u32 = self.read_scale(map, row);
            if permitted && !score::is_zero(scale) {
                let v = self.read_components(map, row);
                proof {
                    lemma_short_dots_fit(query@, v@);
                }
                let raw: i32 = dot_i8(query, &v);
                out.push(Candidate { row: row as u32, raw, scale });
            }
            row += 1;
        }
        out
    }
}

/// Rows per unit of parallel work: an even share of the rows, but no fewer than 4096.
pub fn chunk_rows(high_water: usize, threads: usize) -> (r: usize)
    ensures
        r == vstd::math::max(
            high_water as int / vstd::math::max(threads as int, 1),
            4096,
        ),
{
    let t: usize = if threads < 1 {
        1
    } else {
        threads
    };
    let share: usize = high_water / t;
    if share < 4096 {
        4096
    } else {
        share
    }
}

// ------------------------------------------------------------------ dot product

/// Longest vectors whose dot product always fits a 32-bit accumulator.
pub const DOT_LIMIT: usize = 131_071;

/// The dot product of two vectors of equal length.
pub open spec fn dot(a: Seq<i8>, b: Seq<i8>) -> int
    decreases a.len(),
{
    if a.len() == 0 {
        0
    } else {
        dot(a.drop_last(), b.drop_last()) + a.last() * b.last()
    }
}

/// Every prefix of the sum fits a 32-bit accumulator.
pub open spec fn dot_fits(a: Seq<i8>, b: Seq<i8>) -> bool {
    forall|n: int|
        0 <= n <= a.len() ==> i32::MIN <= #[trigger] dot(a.take(n), b.take(n)) <= i32::MAX
}

/// Integer dot product.
pub fn dot_i8(a: &[i8], b: &[i8]) -> (r: i32)
    requires
        a@.len() == b@.len(),
        dot_fits(a@, b@),
    ensures
        r == dot(a@, b@),
{
    let mut acc: i32 = 0;
    let mut i: usize = 0;
    while i < a.len()
        invariant
            a@.len() == b@.len(),
            dot_fits(a@, b@),
            i <= a@.len(),
            acc == dot(a@.take(i as int), b@.take(i as int)),
        decreases a@.len() - i,
    {
        let x: i32 = a[i] as i32;
        let y: i32 = b[i] as i32;
        proof {
            assert(-16384 <= x * y <= 16384) by (nonlinear_arith)
                requires
                    -128 <= x <= 127,
                    -128 <= y <= 127,
            ;
            assert(a@.take(i + 1).drop_last() =~= a@.take(i as int));
            assert(b@.take(i + 1).drop_last() =~= b@.take(i as int));
            assert(dot(a@.take(i + 1), b@.take(i + 1)) == acc + x * y);
        }
        acc = acc + x * y;
        i += 1;
    }
    proof {
        assert(a@.take(a@.len() as int) =~= a@);
        assert(b@.take(b@.len() as int) =~= b@);
    }
    acc
}

proof fn lemma_dot_bound(a: Seq<i8>, b: Seq<i8>)
    requires
        a.len() == b.len(),
    ensures
        -16384 * a.len() <= dot(a, b) <= 16384 * a.len(),
    decreases a.len(),
{
    if a.len() > 0 {
        lemma_dot_bound(a.drop_last(), b.drop_last());
        let x = a.last();
        let y = b.last();
        assert(-16384 <= x * y <= 16384) by (nonlinear_arith)
            requires
                -128 <= x <= 127,
                -128 <= y <= 127,
        ;
    }
}

/// Vectors within the limit never overflow the accumulator.
pub proof fn lemma_short_dots_fit(a: Seq<i8>, b: Seq<i8>)
    requires
        a.len() == b.len(),
        a.len() <= DOT_LIMIT,
    ensures
        dot_fits(a, b),
{
    assert forall|n: int| 0 <= n <= a.len() implies i32::MIN <= #[trigger] dot(
        a.take(n),
        b.take(n),
    ) <= i32::MAX by {
        lemma_dot_bound(a.take(n), b.take(n));
    }
}

// ------------------------------------------------------------------ scoring

/// The hit that a candidate with a score makes.
pub open spec fn hit_of(c: Candidate, score: u32) -> Hit {
    Hit { row: c.row, score }
}

/// Pairs each candidate with its score.
pub fn scored(candidates: &Vec<Candidate>, scores: &Vec<u32>) -> (r: Vec<Hit>)
    requires
        candidates@.len() == scores@.len(),
    ensures
        r@ == Seq::new(candidates@.len(), |i: int| hit_of(candidates@[i], scores@[i])),
{
    let ghost want = Seq::new(candidates@.len(), |i: int| hit_of(candidates@[i], scores@[i]));
    let mut out: Vec<Hit> = Vec::new();
    let mut i: usize = 0;
    while i < candidates.len()
        invariant
            candidates@.len() == scores@.len(),
            want == Seq::new(candidates@.len(), |i: int| hit_of(candidates@[i], scores@[i])),
            i <= candidates@.len(),
            out@ == want.take(i as int),
        decreases candidates@.len() - i,
    {
        out.push(Hit { row: candidates[i].row, score: scores[i] });
        proof {
            assert(out@ =~= want.take(i + 1));
        }
        i += 1;
    }
    proof {
        assert(out@ =~= want);
    }
    out
}

// ------------------------------------------------------------------ laws

/// Reopening finds what was there: the header of a store that fits its 32-bit fields spells the
/// store's own geometry, so the same dimension and model open it again.
pub proof fn reopening_recovers_the_store(s: VectorStore, map: Seq<u8>)
    requires
        s.wf(map),
        s.dim <= u32::MAX,
        s.capacity <= u32::MAX,
    ensures
        map.subrange(0, 8) == magic(),
        header_of(map) == (Header {
            dim: s.dim,
            capacity: s.capacity,
            model_hash: s.model_hash,
            high_water: s.high_water,
        }),
{
    le::lemma_limits();
    le::a_number_reads_back(s.dim as nat, 4);
    le::a_number_reads_back(s.capacity as nat, 4);
    le::a_number_reads_back(s.model_hash as nat, 8);
    le::a_number_reads_back(s.high_water as nat, 8);
    let h = header_of(map);
    assert(h.dim == s.dim);
    assert(h.capacity == s.capacity);
    assert(h.high_water == s.high_water);
}

/// A row reads only its own bytes: where a grown file keeps the bytes it had, every row of the
/// old file is found again.
pub proof fn growth_preserves_rows(s: VectorStore, old_map: Seq<u8>, new_map: Seq<u8>, row: int)
    requires
        s.wf(old_map),
        0 <= row < s.capacity,
        old_map.len() <= new_map.len(),
        new_map.subrange(0, old_map.len() as int) == old_map,
    ensures
        s.same_row(old_map, new_map, row),
{
    let at = offset(s.stride as int, row);
    lemma_rows_apart(s.stride as int, row, s.capacity as int);
    let cut = new_map.subrange(0, old_map.len() as int);
    assert forall|i: int| 0 <= i < old_map.len() implies new_map[i] == #[trigger] old_map[i] by {
        assert(cut[i] == new_map[i]);
    }
    assert(s.components(old_map, row) =~= s.components(new_map, row));
    assert(old_map.subrange(at + s.dim, at + s.dim + 4) =~= new_map.subrange(
        at + s.dim,
        at + s.dim + 4,
    ));
}

/// Storing a vector past the end changes one row: the file grows by zero bytes, the store takes it
/// over, and the vector is stored. Every row but `row` reads as it did before, so those skipped
/// over read as empty; `row` reads as what was stored; and the high water covers both.
pub proof fn a_put_across_growth_changes_one_row(
    s0: VectorStore,
    m0: Seq<u8>,
    file: Seq<u8>,
    capacity: usize,
    s1: VectorStore,
    m1: Seq<u8>,
    s2: VectorStore,
    m2: Seq<u8>,
    row: usize,
    v: Option<Quantised>,
    r: int,
)
    requires
        s0.wf(m0),
        s0.blank_beyond(m0),
        m0.len() == offset(s0.stride as int, s0.capacity as int),
        m0.len() <= file.len(),
        file.subrange(0, m0.len() as int) == m0,
        forall|i: int| m0.len() <= i < file.len() ==> file[i] == 0,
        file.len() == offset(s0.stride as int, capacity as int),
        VectorStore::grew(s0, file, s1, m1, capacity),
        row < capacity,
        VectorStore::stored(s1, m1, s2, m2, row, v),
        r != row,
    ensures
        s2.blank_beyond(m2),
        s2.reads_as(m2, s0, m0, r),
        s0.high_water <= r < s2.high_water ==> !s2.live(m2, r),
        s2.high_water == if row + 1 > s0.high_water {
            (row + 1) as usize
        } else {
            s0.high_water
        },
        s2.live(m2, row as int) == (v matches Some(q) && score::value(q.scale) != 0),
        s2.components(m2, row as int) == components_of(&v, s0.dim),
        s2.scale(m2, row as int) == scale_of(&v),
{
    assert forall|k: int| s0.high_water <= k < s0.capacity implies score::value(
        #[trigger] s0.scale(file, k),
    ) == 0 by {
        growth_preserves_rows(s0, m0, file, k);
        assert(score::value(s0.scale(m0, k)) == 0);
    }
    assert(s0.blank_beyond(file));
    assert(s1.blank_beyond(m1));
    assert(s1.reads_as(m1, s0, file, r));
    assert(s2.reads_as(m2, s1, m1, r));
    if 0 <= r < s0.high_water {
        growth_preserves_rows(s0, m0, file, r);
    }
}

/// A scan misses no eligible row and invents none, and a row that holds no vector is no candidate.
pub proof fn scan_finds_exactly_the_eligible_rows(
    s: VectorStore,
    map: Seq<u8>,
    query: Seq<i8>,
    allow: Option<Seq<bool>>,
    lo: int,
    hi: int,
    row: int,
)
    requires
        0 <= lo <= hi <= u32::MAX,
        0 <= row <= u32::MAX,
    ensures
        (exists|i: int|
            0 <= i < s.candidates(map, query, allow, lo, hi).len() && (#[trigger] s.candidates(
                map,
                query,
                allow,
                lo,
                hi,
            )[i]).row == row) <==> lo <= row < hi && s.eligible(map, allow, row),
    decreases hi - lo,
{
    let all = s.candidates(map, query, allow, lo, hi);
    if lo < hi {
        scan_finds_exactly_the_eligible_rows(s, map, query, allow, lo, hi - 1, row);
        let init = s.candidates(map, query, allow, lo, hi - 1);
        if row == hi - 1 && s.eligible(map, allow, row) {
            assert(all[all.len() - 1].row == row);
        }
        if exists|i: int| 0 <= i < init.len() && (#[trigger] init[i]).row == row {
            let i = choose|i: int| 0 <= i < init.len() && (#[trigger] init[i]).row == row;
            assert(all[i].row == row);
        }
        if exists|i: int| 0 <= i < all.len() && (#[trigger] all[i]).row == row {
            let i = choose|i: int| 0 <= i < all.len() && (#[trigger] all[i]).row == row;
            if i < init.len() {
                assert(init[i].row == row);
            }
        }
    }
}

/// A stored vector reads back as it was written: the row is live, with the same components and the
/// same scale, which is what reading it returns.
pub proof fn a_stored_vector_reads_back(s: VectorStore, map: Seq<u8>, row: int, v: Quantised)
    requires
        0 <= row < s.high_water,
        s.holds(map, row, Some(v)),
        score::value(v.scale) != 0,
    ensures
        s.live(map, row),
        s.components(map, row) == v.components@,
        s.scale(map, row) == v.scale,
{
}

/// A row of zero bytes, as a file has them where nothing was written, holds no vector.
pub proof fn zero_bytes_are_a_dead_row(s: VectorStore, map: Seq<u8>, row: int)
    requires
        s.stride == s.dim + 4,
        0 <= offset(s.stride as int, row),
        offset(s.stride as int, row) + s.stride <= map.len(),
        forall|i: int|
            offset(s.stride as int, row) <= i < offset(s.stride as int, row) + s.stride ==> map[i]
                == 0,
    ensures
        score::value(s.scale(map, row)) == 0,
        !s.live(map, row),
{
    let at = offset(s.stride as int, row) + s.dim;
    le::lemma_zeros(map.subrange(at, at + 4));
}

/// A vector without direction is stored dead: the row reads back as empty.
pub proof fn a_vector_without_direction_is_dead(s: VectorStore, map: Seq<u8>, row: int)
    requires
        s.holds(map, row, None),
    ensures
        !s.live(map, row),
{
}

/// A row that is dead, because it was cleared or never held a direction, is never a candidate,
/// whatever the query.
pub proof fn a_dead_row_never_ranks(
    s: VectorStore,
    map: Seq<u8>,
    query: Seq<i8>,
    allow: Option<Seq<bool>>,
    lo: int,
    hi: int,
    row: int,
    i: int,
)
    requires
        0 <= lo <= hi <= u32::MAX,
        0 <= row <= u32::MAX,
        !s.live(map, row),
        0 <= i < s.candidates(map, query, allow, lo, hi).len(),
    ensures
        s.candidates(map, query, allow, lo, hi)[i].row != row,
{
    scan_finds_exactly_the_eligible_rows(s, map, query, allow, lo, hi, row);
}

/// A scoped search considers only the rows that its scope allows.
pub proof fn a_row_outside_the_scope_never_ranks(
    s: VectorStore,
    map: Seq<u8>,
    query: Seq<i8>,
    allow: Seq<bool>,
    lo: int,
    hi: int,
    i: int,
)
    requires
        0 <= lo <= hi <= u32::MAX,
        0 <= i < s.candidates(map, query, Some(allow), lo, hi).len(),
    ensures
        ({
            let row = s.candidates(map, query, Some(allow), lo, hi)[i].row as int;
            row < allow.len() && allow[row]
        }),
{
    let row = s.candidates(map, query, Some(allow), lo, hi)[i].row as int;
    scan_finds_exactly_the_eligible_rows(s, map, query, Some(allow), lo, hi, row);
}

/// A scan meets the rows in ascending order.
pub proof fn scan_is_in_row_order(
    s: VectorStore,
    map: Seq<u8>,
    query: Seq<i8>,
    allow: Option<Seq<bool>>,
    lo: int,
    hi: int,
)
    requires
        0 <= lo <= hi <= u32::MAX,
    ensures
        ({
            let c = s.candidates(map, query, allow, lo, hi);
            &&& forall|i: int| 0 <= i < c.len() ==> lo <= (#[trigger] c[i]).row < hi
            &&& forall|i: int, j: int| 0 <= i < j < c.len() ==> c[i].row < c[j].row
        }),
    decreases hi - lo,
{
    if lo < hi {
        scan_is_in_row_order(s, map, query, allow, lo, hi - 1);
        let init = s.candidates(map, query, allow, lo, hi - 1);
        let c = s.candidates(map, query, allow, lo, hi);
        assert forall|i: int| 0 <= i < c.len() implies lo <= (#[trigger] c[i]).row < hi by {
            if i < init.len() {
                assert(c[i] == init[i]);
            }
        }
        assert forall|i: int, j: int| 0 <= i < j < c.len() implies c[i].row < c[j].row by {
            assert(c[i] == init[i]);
            if j < init.len() {
                assert(c[j] == init[j]);
            }
        }
    }
}

/// Splitting a scan at any row changes nothing.
pub proof fn scan_splits_anywhere(
    s: VectorStore,
    map: Seq<u8>,
    query: Seq<i8>,
    allow: Option<Seq<bool>>,
    lo: int,
    mid: int,
    hi: int,
)
    requires
        lo <= mid <= hi,
    ensures
        s.candidates(map, query, allow, lo, hi) == s.candidates(map, query, allow, lo, mid)
            + s.candidates(map, query, allow, mid, hi),
    decreases hi - mid,
{
    if mid < hi {
        scan_splits_anywhere(s, map, query, allow, lo, mid, hi - 1);
    }
    assert(s.candidates(map, query, allow, lo, hi) =~= s.candidates(map, query, allow, lo, mid)
        + s.candidates(map, query, allow, mid, hi));
}

/// The file begins with the name and version of its format; the rows follow 64 bytes in, one after
/// the other, each with its components and then the four bytes of its scale.
pub proof fn rows_stand_one_after_the_other(s: VectorStore, map: Seq<u8>, row: int, i: int)
    requires
        s.wf(map),
        0 <= row < s.capacity,
        0 <= i < s.dim,
    ensures
        "WOMVEC01"@ == magic().map_values(|b: u8| b as char),
        s.components(map, row).len() == s.dim,
        s.components(map, row)[i] == map[64 + row * (s.dim + 4) + i] as i8,
        s.scale(map, row) == ({
            let at = 64 + row * (s.dim + 4) + s.dim;
            map[at] + 256 * map[at + 1] + 65536 * map[at + 2] + 16777216 * map[at + 3]
        }),
{
    reveal_strlit("WOMVEC01");
    assert("WOMVEC01"@ =~= magic().map_values(|b: u8| b as char));
    lemma_rows_apart(s.stride as int, row, s.capacity as int);
    let at = 64 + row * (s.dim + 4) + s.dim;
    let four = map.subrange(at, at + 4);
    lemma_four_bytes(four);
}

proof fn lemma_four_bytes(four: Seq<u8>)
    requires
        four.len() == 4,
    ensures
        le::value(four) == four[0] + 256 * four[1] + 65536 * four[2] + 16777216 * four[3],
        le::value(four) <= u32::MAX,
{
    reveal_with_fuel(le::value, 5);
    let a = four.drop_first();
    let b = a.drop_first();
    let c = b.drop_first();
    assert(c.drop_first().len() == 0);
    assert(a[0] == four[1] && b[0] == four[2] && c[0] == four[3]);
}

/// Room is made in steps of 8192 rows, and no more of it than the rows need.
pub proof fn room_is_made_in_steps(rows: int, s: VectorStore, row: usize, g: Option<Growth>)
    requires
        rows >= 1,
        call_ensures(VectorStore::growth, (&s, row), g),
        s.stride * grown_capacity(row + 1) + 64 <= u64::MAX,
        grown_capacity(row + 1) <= usize::MAX,
    ensures
        grown_capacity(rows) % 8192 == 0,
        rows <= grown_capacity(rows) < rows + 8192,
        g is None <==> row < s.capacity,
        g matches Some(g) ==> {
            &&& g.capacity % 8192 == 0
            &&& row < g.capacity <= row + 8192
            &&& g.len == 64 + g.capacity * s.stride
        },
{
    assert(s.stride * grown_capacity(row + 1) == grown_capacity(row + 1) * s.stride)
        by (nonlinear_arith);
    assert(grown_capacity(row + 1) * s.stride >= 0) by (nonlinear_arith)
        requires
            grown_capacity(row + 1) >= 0,
            s.stride >= 0,
    ;
}

/// Each component is multiplied with the one in its place, and the products are added up.
pub proof fn a_dot_product_adds_up_place_by_place(
    a: Seq<i8>,
    b: Seq<i8>,
    c: Seq<i8>,
    d: Seq<i8>,
    x: i8,
    y: i8,
)
    requires
        a.len() == b.len(),
        c.len() == d.len(),
    ensures
        dot(seq![], seq![]) == 0,
        dot(seq![x], seq![y]) == x * y,
        dot(a + c, b + d) == dot(a, b) + dot(c, d),
        dot(a, b) == dot(b, a),
    decreases a.len() + c.len(),
{
    assert(seq![x].drop_last() =~= seq![]);
    assert(seq![y].drop_last() =~= seq![]);
    assert(dot(seq![x].drop_last(), seq![y].drop_last()) == 0);
    if c.len() == 0 {
        assert(a + c =~= a && b + d =~= b);
        if a.len() > 0 {
            a_dot_product_adds_up_place_by_place(a.drop_last(), b.drop_last(), c, d, x, y);
            let u = a.last() as int;
            let v = b.last() as int;
            assert(u * v == v * u) by (nonlinear_arith);
        }
    } else {
        a_dot_product_adds_up_place_by_place(a, b, c.drop_last(), d.drop_last(), x, y);
        assert((a + c).drop_last() =~= a + c.drop_last());
        assert((b + d).drop_last() =~= b + d.drop_last());
        assert((a + c).last() == c.last() && (b + d).last() == d.last());
    }
}

/// A candidate carries the scale of its row and the dot product of the query with the row's
/// components, and the hit that it makes carries its row.
pub proof fn a_candidate_is_what_its_row_holds(
    s: VectorStore,
    map: Seq<u8>,
    query: Seq<i8>,
    allow: Option<Seq<bool>>,
    lo: int,
    hi: int,
    i: int,
    score: u32,
)
    requires
        0 <= lo <= hi <= u32::MAX,
        0 <= i < s.candidates(map, query, allow, lo, hi).len(),
    ensures
        ({
            let c = s.candidates(map, query, allow, lo, hi)[i];
            &&& c.raw == dot(query, s.components(map, c.row as int)) as i32
            &&& c.scale == s.scale(map, c.row as int)
            &&& hit_of(c, score).row == c.row
            &&& hit_of(c, score).score == score
        }),
    decreases hi - lo,
{
    if i < s.candidates(map, query, allow, lo, hi - 1).len() {
        a_candidate_is_what_its_row_holds(s, map, query, allow, lo, hi - 1, i, score);
    }
}

/// The work is shared out evenly among the threads, in pieces of no fewer than 4096 rows.
pub proof fn rows_are_shared_out_evenly(high_water: usize, threads: usize, r: usize)
    requires
        call_ensures(chunk_rows, (high_water, threads), r),
    ensures
        r >= 4096,
        r > 4096 ==> r * (if threads == 0 {
            1
        } else {
            threads as int
        }) <= high_water,
        (r + 1) * (if threads == 0 {
            1
        } else {
            threads as int
        }) > high_water,
{
    let t = if threads == 0 {
        1
    } else {
        threads as int
    };
    let share = high_water as int / t;
    vstd::arithmetic::div_mod::lemma_fundamental_div_mod(high_water as int, t);
    assert(share * t <= high_water < (share + 1) * t) by (nonlinear_arith)
        requires
            high_water == t * share + high_water as int % t,
            0 <= high_water as int % t < t,
    ;
    assert((r + 1) * t >= (share + 1) * t) by (nonlinear_arith)
        requires
            r >= share,
            t > 0,
    ;
}

/// A file long enough to hold a header is taken as it is; otherwise one of 8192 rows is laid out.
pub proof fn a_missing_store_is_laid_out(
    dim: usize,
    present: bool,
    len: u64,
    r: Result<OpenPlan, StoreError>,
)
    requires
        call_ensures(open_plan, (dim, present, len), r),
        64 + 8192 * (dim + 4) <= usize::MAX,
    ensures
        dim == 0 <==> r == Err::<OpenPlan, StoreError>(StoreError::ZeroDim),
        dim > 0 && present && len >= 64 <==> r == Ok::<OpenPlan, StoreError>(OpenPlan::Existing),
        dim > 0 && !(present && len >= 64) ==> (r matches Ok(OpenPlan::Fresh { len: n }) && n == 64
            + 8192 * (dim + 4)),
{
}

/// A model is told apart by the first eight bytes of the digest of its name.
pub proof fn models_are_told_apart_by_their_digest(id: Seq<char>)
    requires
        digest::blake3_digest(vstd::utf8::encode_utf8(id)).len() >= 8,
    ensures
        le::bytes(model_hash_of(id) as nat, 8) == digest::blake3_digest(
            vstd::utf8::encode_utf8(id),
        ).take(8),
{
    let d = digest::blake3_digest(vstd::utf8::encode_utf8(id)).subrange(0, 8);
    le::lemma_limits();
    le::lemma_value_fits(d);
    le::bytes_read_as_they_were(d);
}

/// Every vector that is stored is searched: a row below the high water that holds a vector with a
/// direction, and that the scope allows, is met by every scan over it, with its dot product and
/// scale.
pub proof fn every_stored_vector_is_searched(
    s: VectorStore,
    map: Seq<u8>,
    query: Seq<i8>,
    allow: Option<Seq<bool>>,
    row: int,
    v: Quantised,
) -> (i: int)
    requires
        0 <= row < s.high_water <= u32::MAX,
        s.holds(map, row, Some(v)),
        score::value(v.scale) != 0,
        allow is None || (row < allow->0.len() && allow->0[row]),
    ensures
        ({
            let c = s.candidates(map, query, allow, 0, s.high_water as int);
            &&& 0 <= i < c.len()
            &&& c[i].row == row
            &&& c[i].raw == dot(query, v.components@) as i32
            &&& c[i].scale == v.scale
        }),
{
    let hi = s.high_water as int;
    scan_finds_exactly_the_eligible_rows(s, map, query, allow, 0, hi, row);
    let c = s.candidates(map, query, allow, 0, hi);
    let i = choose|i: int| 0 <= i < c.len() && (#[trigger] c[i]).row == row;
    a_candidate_is_what_its_row_holds(s, map, query, allow, 0, hi, i, 0);
    i
}

} // verus!
