//! Batches for the encoder: tokenising, grouping texts of similar length, laying tokens out in a
//! rectangle, and finding the pooled positions in what the model returns.
use crate::chars;
use crate::embed::Pooling;
use crate::order;
use crate::order::{sorted_positions, ByNumber};
use crate::rerank::{capped, logit_column, DOC_CHAR_CAP, PAIR_BATCH};
use crate::settings;
use crate::settings::{cut_pairs, is_able};
use crate::text;
use vstd::arithmetic::div_mod::*;
use vstd::arithmetic::mul::*;
use vstd::prelude::*;
use vstd::relations::*;

verus! {

/// Sequence lengths the model is ever asked for. Keeping this to a short ladder bounds the number
/// of distinct tensor shapes the runtime has to plan allocations for.
pub const SEQ_BUCKETS: [usize; 8] = [32, 64, 96, 128, 192, 256, 384, 512];

/// The first rung, from the `i`-th on, that fits `len`; the model's limit where none does.
pub open spec fn rung(len: usize, cap: usize, i: int) -> usize
    decreases SEQ_BUCKETS@.len() - i,
{
    if i < 0 || i >= SEQ_BUCKETS@.len() {
        cap
    } else if SEQ_BUCKETS@[i] >= len {
        if SEQ_BUCKETS@[i] < cap {
            SEQ_BUCKETS@[i]
        } else {
            cap
        }
    } else {
        rung(len, cap, i + 1)
    }
}

/// The model's limit, at least one.
pub open spec fn limit_of(max_seq: usize) -> usize {
    if max_seq < 1 {
        1
    } else {
        max_seq
    }
}

/// Smallest rung that fits `len`, never above `max_seq`.
pub fn bucket_seq(len: usize, max_seq: usize) -> (r: usize)
    ensures
        r == rung(len, limit_of(max_seq), 0),
{
    let cap: usize = if max_seq < 1 {
        1
    } else {
        max_seq
    };
    let ladder = SEQ_BUCKETS;
    let mut i: usize = 0;
    while i < ladder.len()
        invariant
            ladder@ == SEQ_BUCKETS@,
            cap == limit_of(max_seq),
            i <= ladder@.len(),
            rung(len, cap, 0) == rung(len, cap, i as int),
        decreases ladder@.len() - i,
    {
        if ladder[i] >= len {
            return if ladder[i] < cap {
                ladder[i]
            } else {
                cap
            };
        }
        i += 1;
    }
    cap
}

proof fn lemma_rung(len: usize, cap: usize, i: int)
    requires
        cap >= 1,
        0 <= i <= SEQ_BUCKETS@.len(),
    ensures
        1 <= rung(len, cap, i) <= cap,
        len <= cap ==> len <= rung(len, cap, i),
        forall|k: int| 0 <= k < SEQ_BUCKETS@.len() ==> #[trigger] SEQ_BUCKETS@[k] >= 32,
    decreases SEQ_BUCKETS@.len() - i,
{
    assert(SEQ_BUCKETS@ =~= seq![32, 64, 96, 128, 192, 256, 384, 512usize]);
    if i < SEQ_BUCKETS@.len() && SEQ_BUCKETS@[i] < len {
        lemma_rung(len, cap, i + 1);
    }
}

/// A bucket is at least one, never exceeds the model's limit, and covers every length within it.
pub proof fn buckets_cover_and_never_exceed(len: usize, max_seq: usize)
    ensures
        1 <= rung(len, limit_of(max_seq), 0) <= limit_of(max_seq),
        len <= max_seq ==> len <= rung(len, limit_of(max_seq), 0),
{
    lemma_rung(len, limit_of(max_seq), 0);
}

// ------------------------------------------------------------------ tokens

/// One tokenised text.
#[derive(Debug, Clone)]
pub struct Encoded {
    pub ids: Vec<u32>,
    /// One for a token that counts, zero for padding.
    pub mask: Vec<u32>,
    /// Which text of a pair a token belongs to.
    pub types: Vec<u32>,
}

impl Encoded {
    /// Whether every token that a row of `limit` tokens can hold has its mask and type.
    pub open spec fn aligned(&self, limit: usize) -> bool {
        &&& self.mask@.len() >= self.ids@.len() || self.mask@.len() >= limit
        &&& self.types@.len() >= self.ids@.len() || self.types@.len() >= limit
    }

    /// Whether every token that a row of `limit` tokens can hold has its mask and type.
    pub fn is_aligned(&self, limit: usize) -> (r: bool)
        ensures
            r == self.aligned(limit),
    {
        (self.mask.len() >= self.ids.len() || self.mask.len() >= limit) && (self.types.len()
            >= self.ids.len() || self.types.len() >= limit)
    }
}

/// A text for the tokenizer, or a pair of texts.
#[derive(Debug, Clone)]
pub struct Input {
    pub first: String,
    pub second: Option<String>,
}

/// An input as mathematical values.
pub struct InputView {
    pub first: Seq<char>,
    pub second: Option<Seq<char>>,
}

impl View for Input {
    type V = InputView;

    open spec fn view(&self) -> InputView {
        InputView {
            first: self.first@,
            second: match self.second {
                Some(s) => Some(s@),
                None => None,
            },
        }
    }
}

/// A tokenised text as mathematical values.
pub struct EncodedView {
    pub ids: Seq<u32>,
    pub mask: Seq<u32>,
    pub types: Seq<u32>,
}

impl View for Encoded {
    type V = EncodedView;

    open spec fn view(&self) -> EncodedView {
        EncodedView { ids: self.ids@, mask: self.mask@, types: self.types@ }
    }
}

/// The inputs of a batch.
pub open spec fn input_views(v: Seq<Input>) -> Seq<InputView> {
    v.map_values(|i: Input| i@)
}

/// The tokenised texts of a batch.
pub open spec fn encoded_views(v: Seq<Encoded>) -> Seq<EncodedView> {
    v.map_values(|e: Encoded| e@)
}

/// Whether `encodings` is among what `tokenizers::Tokenizer::encode_batch` may return for a batch,
/// with special tokens. A tokenizer can be configured to drop merges at random, so there may be
/// more than one such outcome.
pub uninterp spec fn may_encode(
    tokenizer: tokenizers::Tokenizer,
    inputs: Seq<InputView>,
    encodings: Seq<EncodedView>,
) -> bool;

/// Whether `message` is among what `tokenizers::Tokenizer::encode_batch` may say when it gives up
/// on a batch.
pub uninterp spec fn may_fail(
    tokenizer: tokenizers::Tokenizer,
    inputs: Seq<InputView>,
    message: Seq<char>,
) -> bool;

/// Whether a tokenizer's settings let it encode all of a batch.
pub open spec fn can_encode_all(t: tokenizers::Tokenizer, inputs: Seq<Input>) -> bool {
    forall|i: int| 0 <= i < inputs.len() ==> settings::can_encode(t, (#[trigger] inputs[i]).second is Some)
}

/// Whether a tokenizer's settings let it encode all of a batch.
fn is_able_for(t: &tokenizers::Tokenizer, inputs: &Vec<Input>) -> (r: bool)
    ensures
        r == can_encode_all(*t, inputs@),
{
    let mut single: Option<bool> = None;
    let mut pair: Option<bool> = None;
    let mut i: usize = 0;
    while i < inputs.len()
        invariant
            single is Some ==> single->0 == settings::can_encode(*t, false),
            pair is Some ==> pair->0 == settings::can_encode(*t, true),
            i <= inputs@.len(),
            forall|k: int|
                0 <= k < i ==> settings::can_encode(*t, (#[trigger] inputs@[k]).second is Some),
        decreases inputs@.len() - i,
    {
        let able = match inputs[i].second {
            Some(_) => match pair {
                Some(a) => a,
                None => {
                    let a = is_able(t, true);
                    pair = Some(a);
                    a
                },
            },
            None => match single {
                Some(a) => a,
                None => {
                    let a = is_able(t, false);
                    single = Some(a);
                    a
                },
            },
        };
        if !able {
            proof {
                assert(!settings::can_encode(*t, inputs@[i as int].second is Some));
            }
            return false;
        }
        i += 1;
    }
    true
}

/// What is said of a tokenizer whose settings do not let it encode.
pub open spec fn unable_text() -> Seq<char> {
    "the tokenizer's settings cannot be used"@
}

// ------------------------------------------------------------------ encoding

/// Calls `tokenizers::Tokenizer::encode_batch`, with special tokens, and copies the ids, attention
/// masks and type ids out. It returns one encoding per input, in order, or says why it gave up.
/// Which tokens an input has, and on which inputs it gives up, is left unsaid: a tokenizer may be
/// configured to drop merges at random. Settings on which some text would make it panic are left
/// out.
#[verifier::external_body]
fn encode_batch(tokenizer: &tokenizers::Tokenizer, inputs: &Vec<Input>) -> (r: Result<
    Vec<Encoded>,
    String,
>)
    requires
        can_encode_all(*tokenizer, inputs@),
    ensures
        match r {
            Ok(v) => v@.len() == inputs@.len() && may_encode(
                *tokenizer,
                input_views(inputs@),
                encoded_views(v@),
            ),
            Err(m) => may_fail(*tokenizer, input_views(inputs@), m@),
        },
{
    let batch: Vec<tokenizers::EncodeInput> = inputs.iter().map(|i| match &i.second {
        Some(s) => (i.first.as_str(), s.as_str()).into(),
        None => i.first.as_str().into(),
    }).collect();
    let copy = |e: &tokenizers::Encoding| Encoded {
        ids: e.get_ids().to_vec(),
        mask: e.get_attention_mask().to_vec(),
        types: e.get_type_ids().to_vec(),
    };
    let all = tokenizer.encode_batch(batch, true).map_err(|e| e.to_string())?;
    Ok(all.iter().map(copy).collect())
}

/// An outcome, with what was being done put before its error.
pub fn ort_ctx<T>(r: Result<T, String>, what: &str) -> (out: Result<T, String>)
    ensures
        match (r, out) {
            (Ok(a), Ok(b)) => a == b,
            (Err(a), Err(b)) => b@ == what@ + ": "@ + a@,
            _ => false,
        },
{
    match r {
        Ok(v) => Ok(v),
        Err(e) => {
            let mut s = what.to_owned();
            s.append(": ");
            s.append(e.as_str());
            Err(s)
        },
    }
}

/// The tokenizer's inputs for documents or a query: each text by itself.
pub fn text_inputs(texts: &Vec<String>) -> (r: Vec<Input>)
    ensures
        r@.len() == texts@.len(),
        forall|i: int|
            0 <= i < r@.len() ==> (#[trigger] r@[i]).first@ == texts@[i]@ && r@[i].second is None,
{
    let mut out: Vec<Input> = Vec::new();
    let mut i: usize = 0;
    while i < texts.len()
        invariant
            i <= texts@.len(),
            out@.len() == i,
            forall|k: int|
                0 <= k < i ==> (#[trigger] out@[k]).first@ == texts@[k]@ && out@[k].second is None,
        decreases texts@.len() - i,
    {
        out.push(Input { first: texts[i].as_str().to_owned(), second: None });
        i += 1;
    }
    out
}

/// Whether `i` is the query with the beginning of a document.
pub open spec fn is_pair(i: Input, query: Seq<char>, doc: Seq<char>) -> bool {
    &&& i.first@ == query
    &&& match i.second {
        Some(d) => d@ == chars::first_chars(doc, DOC_CHAR_CAP as nat),
        None => false,
    }
}

/// The tokenizer's inputs for a reranker: the query with the beginning of each document.
pub fn pair_inputs(query: &str, docs: &Vec<String>) -> (r: Vec<Input>)
    ensures
        r@.len() == docs@.len(),
        forall|i: int|
            0 <= i < r@.len() ==> is_pair(#[trigger] r@[i], query@, docs@[i]@),
{
    let mut out: Vec<Input> = Vec::new();
    let mut i: usize = 0;
    while i < docs.len()
        invariant
            i <= docs@.len(),
            out@.len() == i,
            forall|k: int|
                0 <= k < i ==> is_pair(#[trigger] out@[k], query@, docs@[k]@),
        decreases docs@.len() - i,
    {
        out.push(Input { first: query.to_owned(), second: Some(capped(docs[i].as_str())) });
        i += 1;
    }
    out
}

/// Whether `m` is what is said where inputs cannot be tokenised: of a tokenizer that is not `able`,
/// that its settings cannot be used; of one that is, what it says itself. What was being done comes
/// first.
pub open spec fn says_why(
    tokenizer: tokenizers::Tokenizer,
    able: bool,
    inputs: Seq<InputView>,
    what: Seq<char>,
    m: Seq<char>,
) -> bool {
    if able {
        exists|e: Seq<char>| #[trigger] may_fail(tokenizer, inputs, e) && m == what + ": "@ + e
    } else {
        m == what + ": "@ + unable_text()
    }
}

/// Tokenises the inputs. None have no tokens, and reach no tokenizer; neither do inputs that the
/// tokenizer's settings do not let it encode.
pub fn tokenise(tokenizer: &tokenizers::Tokenizer, inputs: &Vec<Input>, what: &str) -> (r: Result<
    Vec<Encoded>,
    String,
>)
    ensures
        match r {
            Ok(v) => {
                &&& can_encode_all(*tokenizer, inputs@)
                &&& v@.len() == inputs@.len()
                &&& inputs@.len() > 0 ==> may_encode(
                    *tokenizer,
                    input_views(inputs@),
                    encoded_views(v@),
                )
            },
            Err(m) => inputs@.len() > 0 && says_why(
                *tokenizer,
                can_encode_all(*tokenizer, inputs@),
                input_views(inputs@),
                what@,
                m@,
            ),
        },
{
    if inputs.len() == 0 {
        return Ok(Vec::new());
    }
    if !is_able_for(tokenizer, inputs) {
        let mut m = what.to_owned();
        m.append(": ");
        m.append("the tokenizer's settings cannot be used");
        return Err(m);
    }
    ort_ctx(encode_batch(tokenizer, inputs), what)
}

// ------------------------------------------------------------------ grouping

/// Shorter token lists first, and of equally long ones the earlier.
pub open spec fn fewer_tokens(tokens: Seq<Encoded>) -> spec_fn(usize, usize) -> bool {
    |a: usize, b: usize|
        {
            let x = tokens[a as int].ids@.len();
            let y = tokens[b as int].ids@.len();
            if x == y {
                a <= b
            } else {
                x < y
            }
        }
}

/// The positions of the texts by token count. A batch is padded to its longest member, so grouping
/// similar lengths saves the model most of the wasted work.
pub fn length_order(tokens: &Vec<Encoded>) -> (r: Vec<usize>)
    ensures
        sorted_by(r@, fewer_tokens(tokens@)),
        r@.len() == tokens@.len(),
        r@.no_duplicates(),
        forall|i: int| 0 <= i < r@.len() ==> (#[trigger] r@[i]) < tokens@.len(),
        forall|p: usize| p < tokens@.len() ==> #[trigger] r@.contains(p),
{
    let mut keys: Vec<usize> = Vec::new();
    let mut i: usize = 0;
    while i < tokens.len()
        invariant
            i <= tokens@.len(),
            keys@.len() == i,
            forall|k: int| 0 <= k < i ==> #[trigger] keys@[k] == tokens@[k].ids@.len(),
        decreases tokens@.len() - i,
    {
        keys.push(tokens[i].ids.len());
        i += 1;
    }
    let o = ByNumber { keys, down: false };
    let r = sorted_positions(&o, tokens.len());
    proof {
        let le = fewer_tokens(tokens@);
        assert forall|a: int, b: int| 0 <= a < b < r@.len() implies #[trigger] le(r@[a], r@[b]) by {
            assert(order::by_order(&o)(r@[a], r@[b]));
            assert(o.key(r@[a]) == tokens@[r@[a] as int].ids@.len());
            assert(o.key(r@[b]) == tokens@[r@[b] as int].ids@.len());
        }
    }
    r
}

/// A batch for one run of the model: row `b` of the rectangles is the text at `slots[b]`.
#[derive(Debug, Clone)]
pub struct Packed {
    pub slots: Vec<usize>,
    /// The length of each row.
    pub seq: usize,
    pub ids: Vec<i64>,
    pub mask: Vec<i64>,
    pub types: Vec<i64>,
}

/// The most tokens that a text of the batch has.
pub open spec fn longest(tokens: Seq<Encoded>, slots: Seq<usize>) -> nat
    decreases slots.len(),
{
    if slots.len() == 0 {
        0
    } else {
        let before = longest(tokens, slots.drop_last());
        let n = tokens[slots.last() as int].ids@.len();
        if n > before {
            n
        } else {
            before
        }
    }
}

/// The row length of a batch: that of its longest text, within the model's limit, rounded up to the
/// ladder.
pub open spec fn row_length(tokens: Seq<Encoded>, slots: Seq<usize>, max_seq: usize) -> usize {
    let n = longest(tokens, slots);
    let clamped = if n < 1 {
        1
    } else if n > max_seq {
        max_seq as nat
    } else {
        n
    };
    rung(clamped as usize, limit_of(max_seq), 0)
}

/// What stands in the cell of a row: its token, mask and type; zeros past its end. Documents count
/// every token and have no pair to tell apart.
pub open spec fn cell(e: Encoded, t: int, pairs: bool) -> (i64, i64, i64) {
    if t < e.ids@.len() {
        if pairs {
            (e.ids@[t] as i64, e.mask@[t] as i64, e.types@[t] as i64)
        } else {
            (e.ids@[t] as i64, 1, 0)
        }
    } else {
        (0, 0, 0)
    }
}

/// Whether `p` lays out the texts at its slots: row after row, each padded to the row length.
pub open spec fn lays_out(p: Packed, tokens: Seq<Encoded>, max_seq: usize, pairs: bool) -> bool {
    &&& p.seq == row_length(tokens, p.slots@, max_seq)
    &&& p.ids@.len() == p.slots@.len() * p.seq
    &&& p.mask@.len() == p.ids@.len()
    &&& p.types@.len() == p.ids@.len()
    &&& forall|k: int|
        0 <= k < p.ids@.len() ==> (#[trigger] p.ids@[k], p.mask@[k], p.types@[k]) == cell(
            tokens[p.slots@[k / p.seq as int] as int],
            k % p.seq as int,
            pairs,
        )
}

/// Lays out the texts at `slots`.
pub fn pack(tokens: &Vec<Encoded>, slots: Vec<usize>, max_seq: usize, pairs: bool) -> (r: Packed)
    requires
        max_seq >= 1,
        slots@.len() * max_seq <= usize::MAX,
        forall|i: int| 0 <= i < slots@.len() ==> (#[trigger] slots@[i]) < tokens@.len(),
        pairs ==> forall|i: int| 0 <= i < tokens@.len() ==> (#[trigger] tokens@[i]).aligned(max_seq),
    ensures
        r.slots@ == slots@,
        lays_out(r, tokens@, max_seq, pairs),
{
    let mut most: usize = 0;
    let mut i: usize = 0;
    while i < slots.len()
        invariant
            forall|i: int| 0 <= i < slots@.len() ==> (#[trigger] slots@[i]) < tokens@.len(),
            i <= slots@.len(),
            most == longest(tokens@, slots@.take(i as int)),
        decreases slots@.len() - i,
    {
        proof {
            assert(slots@.take(i + 1).drop_last() =~= slots@.take(i as int));
            assert(slots@.take(i + 1).last() == slots@[i as int]);
        }
        let n: usize = tokens[slots[i]].ids.len();
        if n > most {
            most = n;
        }
        i += 1;
    }
    proof {
        assert(slots@.take(slots@.len() as int) =~= slots@);
    }
    let clamped: usize = if most < 1 {
        1
    } else if most > max_seq {
        max_seq
    } else {
        most
    };
    let seq: usize = bucket_seq(clamped, max_seq);
    proof {
        buckets_cover_and_never_exceed(clamped, max_seq);
        assert(slots@.len() * seq <= slots@.len() * max_seq) by (nonlinear_arith)
            requires
                seq <= max_seq,
                slots@.len() >= 0,
        ;
    }
    let mut ids: Vec<i64> = Vec::new();
    let mut mask: Vec<i64> = Vec::new();
    let mut types: Vec<i64> = Vec::new();
    let mut b: usize = 0;
    while b < slots.len()
        invariant
            1 <= seq <= max_seq,
            slots@.len() * seq <= usize::MAX,
            forall|i: int| 0 <= i < slots@.len() ==> (#[trigger] slots@[i]) < tokens@.len(),
            pairs ==> forall|i: int| 0 <= i < tokens@.len() ==> (#[trigger] tokens@[i]).aligned(max_seq),
            b <= slots@.len(),
            ids@.len() == b * seq,
            mask@.len() == ids@.len(),
            types@.len() == ids@.len(),
            forall|k: int|
                0 <= k < ids@.len() ==> (#[trigger] ids@[k], mask@[k], types@[k]) == cell(
                    tokens@[slots@[k / seq as int] as int],
                    k % seq as int,
                    pairs,
                ),
        decreases slots@.len() - b,
    {
        let e = &tokens[slots[b]];
        let mut t: usize = 0;
        while t < seq
            invariant
                1 <= seq,
                b < slots@.len(),
                forall|i: int| 0 <= i < slots@.len() ==> (#[trigger] slots@[i]) < tokens@.len(),
                *e == tokens@[slots@[b as int] as int],
                seq <= max_seq,
                pairs ==> e.aligned(max_seq),
                t <= seq,
                ids@.len() == b * seq + t,
                mask@.len() == ids@.len(),
                types@.len() == ids@.len(),
                forall|k: int|
                    0 <= k < ids@.len() ==> (#[trigger] ids@[k], mask@[k], types@[k]) == cell(
                        tokens@[slots@[k / seq as int] as int],
                        k % seq as int,
                        pairs,
                    ),
            decreases seq - t,
        {
            proof {
                lemma_fundamental_div_mod_converse(
                    b * seq + t,
                    seq as int,
                    b as int,
                    t as int,
                );
            }
            if t < e.ids.len() {
                ids.push(e.ids[t] as i64);
                if pairs {
                    mask.push(e.mask[t] as i64);
                    types.push(e.types[t] as i64);
                } else {
                    mask.push(1);
                    types.push(0);
                }
            } else {
                ids.push(0);
                mask.push(0);
                types.push(0);
            }
            t += 1;
        }
        proof {
            assert(b * seq + seq == (b + 1) * seq) by (nonlinear_arith);
        }
        b += 1;
    }
    Packed { slots, seq, ids, mask, types }
}

/// Where the `g`-th batch of `size` ends among `n`.
pub open spec fn batch_end(g: int, size: int, n: int) -> int {
    if (g + 1) * size < n {
        (g + 1) * size
    } else {
        n
    }
}

/// Whether `b` lays out all texts, `size` at a time, in the given order.
pub open spec fn batched(
    b: Seq<Packed>,
    tokens: Seq<Encoded>,
    order: Seq<usize>,
    size: int,
    max_seq: usize,
    pairs: bool,
) -> bool {
    &&& b.len() * size >= order.len()
    &&& b.len() * size < order.len() + size
    &&& forall|g: int|
        0 <= g < b.len() ==> (#[trigger] b[g]).slots@ == order.subrange(
            g * size,
            batch_end(g, size, order.len() as int),
        ) && lays_out(b[g], tokens, max_seq, pairs)
}

/// The batches for the model: `size` texts at a time, in the given order.
pub fn batches(
    tokens: &Vec<Encoded>,
    order: &Vec<usize>,
    size: usize,
    max_seq: usize,
    pairs: bool,
) -> (r: Vec<Packed>)
    requires
        size >= 1,
        max_seq >= 1,
        size * max_seq <= usize::MAX,
        forall|i: int| 0 <= i < order@.len() ==> (#[trigger] order@[i]) < tokens@.len(),
        pairs ==> forall|i: int| 0 <= i < tokens@.len() ==> (#[trigger] tokens@[i]).aligned(max_seq),
    ensures
        batched(r@, tokens@, order@, size as int, max_seq, pairs),
{
    let mut out: Vec<Packed> = Vec::new();
    let n: usize = order.len();
    let mut from: usize = 0;
    while from < n
        invariant
            n == order@.len(),
            size >= 1,
            max_seq >= 1,
            size * max_seq <= usize::MAX,
            forall|i: int| 0 <= i < order@.len() ==> (#[trigger] order@[i]) < tokens@.len(),
            pairs ==> forall|i: int| 0 <= i < tokens@.len() ==> (#[trigger] tokens@[i]).aligned(max_seq),
            from <= n,
            from < n ==> from == out@.len() * size,
            from == n ==> n <= out@.len() * size < n + size,
            forall|g: int|
                0 <= g < out@.len() ==> (#[trigger] out@[g]).slots@ == order@.subrange(
                    g * size,
                    batch_end(g, size as int, n as int),
                ) && lays_out(out@[g], tokens@, max_seq, pairs),
        decreases n - from,
    {
        let to: usize = if n - from <= size {
            n
        } else {
            from + size
        };
        let ghost g = out@.len() as int;
        let mut slots: Vec<usize> = Vec::new();
        let mut i: usize = from;
        while i < to
            invariant
                from <= i <= to <= n,
                n == order@.len(),
                slots@ == order@.subrange(from as int, i as int),
            decreases to - i,
        {
            slots.push(order[i]);
            i += 1;
            proof {
                assert(slots@ =~= order@.subrange(from as int, i as int));
            }
        }
        proof {
            assert((g + 1) * size == g * size + size) by (nonlinear_arith);
            assert(slots@.len() * max_seq <= size * max_seq) by (nonlinear_arith)
                requires
                    slots@.len() <= size,
                    max_seq >= 0,
            ;
            assert(to == batch_end(g, size as int, n as int));
        }
        let p = pack(tokens, slots, max_seq, pairs);
        out.push(p);
        from = to;
    }
    out
}

/// Where each text stands in `order`, which puts what the model returns back in the order of the
/// texts.
pub fn inverse(order: &Vec<usize>) -> (r: Vec<usize>)
    requires
        order@.no_duplicates(),
        forall|i: int| 0 <= i < order@.len() ==> (#[trigger] order@[i]) < order@.len(),
        forall|p: usize| p < order@.len() ==> #[trigger] order@.contains(p),
    ensures
        r@.len() == order@.len(),
        forall|i: int| 0 <= i < r@.len() ==> (#[trigger] r@[i]) < order@.len() && order@[r@[i] as int] == i,
{
    let n: usize = order.len();
    let mut out: Vec<usize> = Vec::new();
    let mut i: usize = 0;
    while i < n
        invariant
            i <= n,
            out@.len() == i,
        decreases n - i,
    {
        out.push(0);
        i += 1;
    }
    let mut k: usize = 0;
    while k < n
        invariant
            n == order@.len(),
            order@.no_duplicates(),
            forall|i: int| 0 <= i < order@.len() ==> (#[trigger] order@[i]) < order@.len(),
            k <= n,
            out@.len() == n,
            forall|j: int| 0 <= j < k ==> out@[#[trigger] order@[j] as int] == j,
        decreases n - k,
    {
        let at: usize = order[k];
        let ghost before = out@;
        out.set(at, k);
        proof {
            assert forall|j: int| 0 <= j < k + 1 implies out@[#[trigger] order@[j] as int] == j by {
                if j < k {
                    assert(order@[j] != order@[k as int]);
                }
            }
        }
        k += 1;
    }
    proof {
        assert forall|i: int| 0 <= i < out@.len() implies (#[trigger] out@[i]) < order@.len()
            && order@[out@[i] as int] == i by {
            assert(order@.contains(i as usize));
            let j = choose|j: int| 0 <= j < order@.len() && order@[j] == i as usize;
            assert(out@[order@[j] as int] == j);
        }
    }
    out
}

/// The texts of a call, ready for the model.
pub struct Runs {
    /// The texts in the order in which the batches take them.
    pub order: Vec<usize>,
    pub batches: Vec<Packed>,
}

/// Texts as the tokenizer's inputs, each by itself.
pub open spec fn single_views(texts: Seq<Seq<char>>) -> Seq<InputView> {
    texts.map_values(|t: Seq<char>| InputView { first: t, second: None })
}

/// Whether `order` holds each of the first `n` positions once.
pub open spec fn takes_all(order: Seq<usize>, n: nat) -> bool {
    &&& order.len() == n
    &&& order.no_duplicates()
    &&& forall|i: int| 0 <= i < order.len() ==> (#[trigger] order[i]) < n
    &&& forall|p: usize| p < n ==> #[trigger] order.contains(p)
}

/// Whether `tokens` are tokens of the texts, and the runs take them shortest first.
pub open spec fn embeds(
    r: Runs,
    tokens: Seq<Encoded>,
    tokenizer: tokenizers::Tokenizer,
    texts: Seq<Seq<char>>,
    size: int,
    max_seq: usize,
) -> bool {
    &&& tokens.len() == texts.len()
    &&& texts.len() > 0 ==> may_encode(tokenizer, single_views(texts), encoded_views(tokens))
    &&& sorted_by(r.order@, fewer_tokens(tokens))
    &&& batched(r.batches@, tokens, r.order@, size, max_seq, false)
}

/// Prepares texts for an embedding model: tokenises them, sorts them by length, and lays them out
/// batch by batch.
pub fn embedding_runs(
    tokenizer: &tokenizers::Tokenizer,
    texts: &Vec<String>,
    size: usize,
    max_seq: usize,
) -> (r: Result<Runs, String>)
    requires
        size >= 1,
        max_seq >= 1,
        size * max_seq <= usize::MAX,
    ensures
        match r {
            Ok(runs) => {
                &&& texts@.len() > 0 ==> settings::can_encode(*tokenizer, false)
                &&& takes_all(runs.order@, texts@.len())
                &&& exists|tokens: Seq<Encoded>| #[trigger]
                    embeds(runs, tokens, *tokenizer, text::views(texts@), size as int, max_seq)
            },
            Err(m) => texts@.len() > 0 && says_why(
                *tokenizer,
                settings::can_encode(*tokenizer, false),
                single_views(text::views(texts@)),
                "tokenising batch"@,
                m@,
            ),
        },
{
    let inputs = text_inputs(texts);
    proof {
        assert(input_views(inputs@) =~= single_views(text::views(texts@)));
        if texts@.len() > 0 {
            assert(inputs@[0].second is None);
            assert(can_encode_all(*tokenizer, inputs@) == settings::can_encode(*tokenizer, false));
        }
    }
    match tokenise(tokenizer, &inputs, "tokenising batch") {
        Err(m) => Err(m),
        Ok(tokens) => {
            let order = length_order(&tokens);
            let batches = batches(&tokens, &order, size, max_seq, false);
            let runs = Runs { order, batches };
            proof {
                assert(takes_all(runs.order@, texts@.len()));
                assert(embeds(
                    runs,
                    tokens@,
                    *tokenizer,
                    text::views(texts@),
                    size as int,
                    max_seq,
                ));
            }
            Ok(runs)
        },
    }
}

/// A query with the beginning of each document as the tokenizer's inputs.
pub open spec fn pair_views(query: Seq<char>, docs: Seq<Seq<char>>) -> Seq<InputView> {
    docs.map_values(
        |d: Seq<char>|
            InputView {
                first: query,
                second: Some(chars::first_chars(d, DOC_CHAR_CAP as nat)),
            },
    )
}

/// Whether every token that a row can hold has its mask and type, in every text.
pub open spec fn all_aligned(tokens: Seq<Encoded>, max_seq: usize) -> bool {
    forall|i: int| 0 <= i < tokens.len() ==> (#[trigger] tokens[i]).aligned(max_seq)
}

/// What is said of tokens without a mask or a type.
pub open spec fn misaligned_text() -> Seq<char> {
    "the tokenizer left tokens without a mask or a type"@
}

/// Lays tokenised pairs out batch by batch, as they come. Refused where a token that a row can hold
/// has no mask or no type.
pub fn pair_runs(tokens: &Vec<Encoded>, max_seq: usize) -> (r: Result<Runs, String>)
    requires
        max_seq >= 1,
        PAIR_BATCH * max_seq <= usize::MAX,
    ensures
        match r {
            Ok(runs) => {
                &&& all_aligned(tokens@, max_seq)
                &&& runs.order@ == order::positions(tokens@.len())
                &&& batched(
                    runs.batches@,
                    tokens@,
                    runs.order@,
                    PAIR_BATCH as int,
                    max_seq,
                    true,
                )
            },
            Err(m) => !all_aligned(tokens@, max_seq) && m@ == misaligned_text(),
        },
{
    let mut order: Vec<usize> = Vec::new();
    let mut i: usize = 0;
    while i < tokens.len()
        invariant
            i <= tokens@.len(),
            order@ == order::positions(i as nat),
            forall|k: int| 0 <= k < i ==> (#[trigger] tokens@[k]).aligned(max_seq),
        decreases tokens@.len() - i,
    {
        if !tokens[i].is_aligned(max_seq) {
            proof {
                assert(!tokens@[i as int].aligned(max_seq));
            }
            return Err("the tokenizer left tokens without a mask or a type".to_owned());
        }
        order.push(i);
        i += 1;
        proof {
            assert(order@ =~= order::positions(i as nat));
        }
    }
    let batches = batches(tokens, &order, PAIR_BATCH, max_seq, true);
    Ok(Runs { order, batches })
}

/// Whether `tokens` are tokens that the pairs may have.
pub open spec fn tokens_of_pairs(
    tokens: Seq<Encoded>,
    tokenizer: tokenizers::Tokenizer,
    query: Seq<char>,
    docs: Seq<Seq<char>>,
) -> bool {
    &&& tokens.len() == docs.len()
    &&& docs.len() > 0 ==> may_encode(tokenizer, pair_views(query, docs), encoded_views(tokens))
}

/// Whether the runs take tokens of the pairs as they come.
pub open spec fn judges(
    r: Runs,
    tokens: Seq<Encoded>,
    tokenizer: tokenizers::Tokenizer,
    query: Seq<char>,
    docs: Seq<Seq<char>>,
    max_seq: usize,
) -> bool {
    &&& tokens_of_pairs(tokens, tokenizer, query, docs)
    &&& all_aligned(tokens, max_seq)
    &&& batched(r.batches@, tokens, r.order@, PAIR_BATCH as int, max_seq, true)
}

/// Whether the pairs may have tokens without a mask or a type.
pub open spec fn may_misalign(
    tokenizer: tokenizers::Tokenizer,
    query: Seq<char>,
    docs: Seq<Seq<char>>,
    max_seq: usize,
) -> bool {
    exists|tokens: Seq<Encoded>| #[trigger]
        tokens_of_pairs(tokens, tokenizer, query, docs) && !all_aligned(tokens, max_seq)
}

/// A tokenizer for pairs of a query and a document. It cuts an overlong pair at the model's limit
/// itself, which keeps the closing special token in place.
pub struct PairTokenizer {
    tokenizer: tokenizers::Tokenizer,
    max_seq: usize,
}

impl PairTokenizer {
    /// The tokenizer, set to cut pairs.
    pub closed spec fn tokenizer(&self) -> tokenizers::Tokenizer {
        self.tokenizer
    }

    /// The most tokens of a pair.
    pub closed spec fn limit(&self) -> usize {
        self.max_seq
    }

    /// The tokenizer cuts pairs at the limit, and a batch of pairs can be laid out.
    pub open spec fn wf(&self) -> bool {
        &&& self.limit() >= 1
        &&& PAIR_BATCH * self.limit() <= usize::MAX
        &&& settings::truncation_set(self.tokenizer()) == Some(settings::cut_at(self.limit()))
    }

    #[verifier::type_invariant]
    closed spec fn keeps_cutting(&self) -> bool {
        self.wf()
    }

    /// Sets a tokenizer to cut pairs at `max_seq` tokens, and changes nothing else of it. Refused
    /// where that leaves no room for its special tokens.
    pub fn new(tokenizer: tokenizers::Tokenizer, max_seq: usize) -> (r: Result<Self, String>)
        requires
            max_seq >= 1,
            PAIR_BATCH * max_seq <= usize::MAX,
        ensures
            match r {
                Ok(p) => {
                    &&& settings::room_for_added(tokenizer, max_seq)
                    &&& p.limit() == max_seq
                    &&& p.wf()
                    &&& settings::same_but_truncation(p.tokenizer(), tokenizer)
                },
                Err(m) => {
                    &&& !settings::room_for_added(tokenizer, max_seq)
                    &&& m@ == "configuring truncation: no room for the special tokens"@
                },
            },
    {
        let mut tokenizer = tokenizer;
        match cut_pairs(&mut tokenizer, max_seq) {
            Ok(_) => Ok(PairTokenizer { tokenizer, max_seq }),
            Err(m) => Err(m),
        }
    }
}

/// Prepares pairs of a query and a document for a reranker: tokenises them, cut at the model's
/// limit, and lays them out batch by batch, as they come.
pub fn reranking_runs(pairs: &PairTokenizer, query: &str, docs: &Vec<String>) -> (r: Result<
    Runs,
    String,
>)
    ensures
        match r {
            Ok(runs) => {
                &&& docs@.len() > 0 ==> settings::can_encode(pairs.tokenizer(), true)
                &&& runs.order@ == order::positions(docs@.len())
                &&& exists|tokens: Seq<Encoded>| #[trigger]
                    judges(
                        runs,
                        tokens,
                        pairs.tokenizer(),
                        query@,
                        text::views(docs@),
                        pairs.limit(),
                    )
            },
            Err(m) => docs@.len() > 0 && (says_why(
                pairs.tokenizer(),
                settings::can_encode(pairs.tokenizer(), true),
                pair_views(query@, text::views(docs@)),
                "tokenising rerank pairs"@,
                m@,
            ) || {
                &&& settings::can_encode(pairs.tokenizer(), true)
                &&& m@ == misaligned_text()
                &&& may_misalign(
                    pairs.tokenizer(),
                    query@,
                    text::views(docs@),
                    pairs.limit(),
                )
            }),
        },
        pairs.wf(),
{
    proof {
        use_type_invariant(pairs);
    }
    let tokenizer = &pairs.tokenizer;
    let max_seq: usize = pairs.max_seq;
    let inputs = pair_inputs(query, docs);
    proof {
        let want = pair_views(query@, text::views(docs@));
        assert forall|i: int| 0 <= i < docs@.len() implies #[trigger] input_views(inputs@)[i]
            == want[i] by {
            assert(is_pair(inputs@[i], query@, docs@[i]@));
        }
        assert(input_views(inputs@) =~= want);
        if docs@.len() > 0 {
            assert(is_pair(inputs@[0], query@, docs@[0]@));
            assert forall|i: int| 0 <= i < inputs@.len() implies (#[trigger] inputs@[i]).second
                is Some by {
                assert(is_pair(inputs@[i], query@, docs@[i]@));
            }
            assert(can_encode_all(*tokenizer, inputs@) == settings::can_encode(*tokenizer, true));
        }
    }
    match tokenise(tokenizer, &inputs, "tokenising rerank pairs") {
        Err(m) => Err(m),
        Ok(tokens) => {
            let r = pair_runs(&tokens, max_seq);
            proof {
                assert(tokens_of_pairs(tokens@, *tokenizer, query@, text::views(docs@)));
                if r is Ok {
                    assert(judges(
                        r->Ok_0,
                        tokens@,
                        *tokenizer,
                        query@,
                        text::views(docs@),
                        max_seq,
                    ));
                } else {
                    assert(may_misalign(*tokenizer, query@, text::views(docs@), max_seq));
                }
            }
            r
        },
    }
}

/// Every text is run once: the text at place `p` of the order is the `p`-th row, counted through
/// the batches, each of which holds `size` of them.
pub proof fn every_text_is_run_once(
    b: Seq<Packed>,
    tokens: Seq<Encoded>,
    order: Seq<usize>,
    size: int,
    max_seq: usize,
    pairs: bool,
    p: int,
)
    requires
        batched(b, tokens, order, size, max_seq, pairs),
        size >= 1,
        0 <= p < order.len(),
    ensures
        0 <= p / size < b.len(),
        0 <= p % size < b[p / size].slots@.len(),
        b[p / size].slots@[p % size] == order[p],
{
    let g = p / size;
    let n = order.len() as int;
    lemma_fundamental_div_mod(p, size);
    lemma_mod_bound(p, size);
    lemma_mul_is_commutative(size, g);
    assert(p == g * size + p % size);
    assert((g + 1) * size == g * size + size) by (nonlinear_arith);
    assert(g >= 0) by {
        lemma_div_pos_is_pos(p, size);
    }
    assert(g < b.len()) by {
        if g >= b.len() {
            assert(g * size >= b.len() * size) by (nonlinear_arith)
                requires
                    g >= b.len(),
                    size >= 1,
            ;
        }
    }
    assert(g * size >= 0) by (nonlinear_arith)
        requires
            g >= 0,
            size >= 1,
    ;
    let part = order.subrange(g * size, batch_end(g, size, n));
    assert(b[g].slots@ == part);
    assert(part[p % size] == order[g * size + p % size]);
}

// ------------------------------------------------------------------ what the model returns

/// The sizes in square brackets, separated by commas.
pub open spec fn shape_text(shape: Seq<i64>) -> Seq<char> {
    "["@ + text::joined(shape.map_values(|n: i64| text::signed_decimal(n as int)), ", "@) + "]"@
}

fn write_shape(shape: &Vec<i64>) -> (r: String)
    ensures
        r@ == shape_text(shape@),
{
    let mut parts: Vec<String> = Vec::new();
    let ghost all = shape@.map_values(|n: i64| text::signed_decimal(n as int));
    let mut i: usize = 0;
    proof {
        assert(text::views(parts@) =~= all.take(0));
    }
    while i < shape.len()
        invariant
            all == shape@.map_values(|n: i64| text::signed_decimal(n as int)),
            i <= shape@.len(),
            text::views(parts@) == all.take(i as int),
        decreases shape@.len() - i,
    {
        let s = text::dec_signed(shape[i]);
        proof {
            text::lemma_views_push(parts@, s);
            assert(all.take(i + 1) =~= all.take(i as int).push(s@));
        }
        parts.push(s);
        i += 1;
    }
    proof {
        assert(all.take(all.len() as int) =~= all);
    }
    let mut out = "[".to_owned();
    let joined = text::join(&parts, ", ");
    out.append(joined.as_str());
    out.append("]");
    proof {
        assert(out@ =~= shape_text(shape@));
    }
    out
}

/// The layout of an encoder's output: `seq` rows of `hidden` numbers for each text.
#[derive(Debug, Clone, Copy, PartialEq, Eq, Structural)]
pub struct Layout {
    pub seq: usize,
    pub hidden: usize,
}

/// Why an output of the wrong rank is refused.
pub open spec fn rank_message(shape: Seq<i64>, id: Seq<char>) -> Seq<char> {
    "expected last_hidden_state of rank 3, got shape "@ + shape_text(shape) + ". Is `"@ + id
        + "` a bare encoder export?"@
}

/// Why an output of the wrong width is refused.
pub open spec fn width_message(hidden: int, id: Seq<char>, dim: int) -> Seq<char> {
    "model "@ + id + " produced hidden size "@ + text::signed_decimal(hidden)
        + " but the registry says "@ + text::signed_decimal(dim)
        + "; the registry entry is wrong or the wrong file was downloaded"@
}

/// Reads the layout off the shape of the first output, which for a bare encoder is the last hidden
/// state: texts, positions, and as many numbers as the registry says.
pub fn hidden_layout(shape: &Vec<i64>, id: &str, dim: usize) -> (r: Result<Layout, String>)
    requires
        forall|i: int| 0 <= i < shape@.len() ==> 0 <= #[trigger] shape@[i] <= usize::MAX,
        dim <= i64::MAX,
    ensures
        match r {
            Ok(l) => shape@.len() == 3 && shape@[2] == dim && l.hidden == dim && l.seq == shape@[1],
            Err(m) => if shape@.len() != 3 {
                m@ == rank_message(shape@, id@)
            } else {
                shape@[2] != dim && m@ == width_message(shape@[2] as int, id@, dim as int)
            },
        },
{
    if shape.len() != 3 {
        let mut m = "expected last_hidden_state of rank 3, got shape ".to_owned();
        m.append(write_shape(shape).as_str());
        m.append(". Is `");
        m.append(id);
        m.append("` a bare encoder export?");
        proof {
            assert(m@ =~= rank_message(shape@, id@));
        }
        return Err(m);
    }
    proof {
        assert(shape@[1] >= 0 && shape@[2] >= 0);
    }
    if shape[2] != dim as i64 {
        let mut m = "model ".to_owned();
        m.append(id);
        m.append(" produced hidden size ");
        m.append(text::dec_signed(shape[2]).as_str());
        m.append(" but the registry says ");
        m.append(text::dec_signed(dim as i64).as_str());
        m.append("; the registry entry is wrong or the wrong file was downloaded");
        proof {
            assert(m@ =~= width_message(shape@[2] as int, id@, dim as int));
        }
        return Err(m);
    }
    Ok(Layout { seq: shape[1] as usize, hidden: shape[2] as usize })
}

/// The positions of text `b` that count, up to the `n`-th: those whose mask is not zero.
pub open spec fn unmasked(mask: Seq<i64>, b: int, seq: int, n: nat) -> Seq<int>
    decreases n,
{
    if n == 0 {
        seq![]
    } else {
        let before = unmasked(mask, b, seq, (n - 1) as nat);
        if mask[b * seq + n - 1] != 0 {
            before.push(n - 1)
        } else {
            before
        }
    }
}

/// The positions whose rows are averaged into the vector of text `b`: the first for a model that
/// pools by its first token, else all that count, so padding cannot drag the vector along.
pub open spec fn pooled(pooling: Pooling, mask: Seq<i64>, b: int, seq: int, n: nat) -> Seq<int> {
    match pooling {
        Pooling::Cls => seq![0int],
        Pooling::Mean => unmasked(mask, b, seq, n),
    }
}

/// Where the pooled rows of text `b` start in the output of a batch.
pub fn pooled_offsets(pooling: Pooling, p: &Packed, b: usize, l: Layout) -> (r: Vec<usize>)
    requires
        b < p.slots@.len(),
        p.mask@.len() == p.slots@.len() * p.seq,
        l.seq <= p.seq,
        l.seq >= 1,
        l.hidden >= 1,
        p.slots@.len() * l.seq * l.hidden <= usize::MAX,
    ensures
        ({
            let at = pooled(pooling, p.mask@, b as int, p.seq as int, l.seq as nat);
            &&& r@.len() == at.len()
            &&& forall|i: int|
                0 <= i < r@.len() ==> #[trigger] r@[i] == (b * l.seq + at[i]) * l.hidden
        }),
{
    let mut out: Vec<usize> = Vec::new();
    let cells: usize = p.mask.len();
    proof {
        lemma_row_bounds(b as int, p.slots@.len() as int, l.seq as int, l.hidden as int, 0);
    }
    match pooling {
        Pooling::Cls => {
            let row: usize = b * l.seq;
            out.push(row * l.hidden);
        },
        Pooling::Mean => {
            let mut t: usize = 0;
            while t < l.seq
                invariant
                    b < p.slots@.len(),
                    p.mask@.len() == p.slots@.len() * p.seq,
                    cells == p.mask@.len(),
                    l.seq <= p.seq,
                    l.hidden >= 1,
                    p.slots@.len() * l.seq * l.hidden <= usize::MAX,
                    t <= l.seq,
                    out@.len() == unmasked(p.mask@, b as int, p.seq as int, t as nat).len(),
                    forall|i: int|
                        0 <= i < out@.len() ==> #[trigger] out@[i] == (b * l.seq + unmasked(
                            p.mask@,
                            b as int,
                            p.seq as int,
                            t as nat,
                        )[i]) * l.hidden,
                decreases l.seq - t,
            {
                proof {
                    lemma_row_bounds(
                        b as int,
                        p.slots@.len() as int,
                        l.seq as int,
                        l.hidden as int,
                        t as int,
                    );
                    assert(b * p.seq + t < p.slots@.len() * p.seq) by (nonlinear_arith)
                        requires
                            b < p.slots@.len(),
                            t < p.seq,
                    ;
                    assert(0 <= b * p.seq) by (nonlinear_arith);
                }
                if p.mask[b * p.seq + t] != 0 {
                    let row: usize = b * l.seq + t;
                    out.push(row * l.hidden);
                }
                t += 1;
            }
        },
    }
    out
}

proof fn lemma_row_bounds(b: int, n: int, seq: int, hidden: int, t: int)
    requires
        0 <= b < n,
        0 <= t < seq,
        0 <= hidden,
        n * seq * hidden <= usize::MAX,
    ensures
        0 <= b * seq + t,
        0 <= b * seq,
        hidden > 0 ==> b * seq + t <= usize::MAX,
        0 <= (b * seq + t) * hidden <= usize::MAX,
        (b * seq) * hidden <= usize::MAX,
{
    assert(b * seq + t < n * seq) by (nonlinear_arith)
        requires
            0 <= b < n,
            0 <= t < seq,
    ;
    assert(0 <= b * seq) by (nonlinear_arith)
        requires
            0 <= b,
            0 <= seq,
    ;
    assert(0 <= (b * seq + t) * hidden <= n * seq * hidden) by (nonlinear_arith)
        requires
            0 <= b * seq + t < n * seq,
            0 <= hidden,
    ;
    assert((b * seq) * hidden <= (b * seq + t) * hidden) by (nonlinear_arith)
        requires
            0 <= t,
            0 <= hidden,
    ;
    if hidden > 0 {
        assert(b * seq + t <= (b * seq + t) * hidden) by (nonlinear_arith)
            requires
                0 <= b * seq + t,
                hidden >= 1,
        ;
    }
}

/// Why the logits of a reranker are refused.
pub open spec fn logits_message(batch: int, shape: Seq<i64>, id: Seq<char>) -> Seq<char> {
    "expected reranker logits of shape ["@ + text::decimal(batch as nat) + ", n], got "@ + shape_text(
        shape,
    ) + ". Is `"@ + id + "` a cross-encoder export?"@
}

/// Where the relevance logit of each pair stands in a reranker's output.
pub fn logit_positions(shape: &Vec<i64>, batch: usize, id: &str) -> (r: Result<Vec<usize>, String>)
    requires
        forall|i: int| 0 <= i < shape@.len() ==> 0 <= #[trigger] shape@[i] <= usize::MAX,
        shape@.len() == 2 ==> shape@[1] >= 1 && batch * shape@[1] <= usize::MAX,
        batch <= i64::MAX,
    ensures
        match r {
            Ok(v) => {
                &&& shape@.len() == 2
                &&& shape@[0] == batch
                &&& v@.len() == batch
                &&& forall|b: int|
                    0 <= b < batch ==> #[trigger] v@[b] == b * shape@[1] + if shape@[1] == 1 {
                        0int
                    } else {
                        1
                    }
            },
            Err(m) => {
                &&& shape@.len() != 2 || shape@[0] != batch
                &&& m@ == logits_message(batch as int, shape@, id@)
            },
        },
{
    if shape.len() != 2 || shape[0] != batch as i64 {
        let mut m = "expected reranker logits of shape [".to_owned();
        m.append(text::dec(batch as u64).as_str());
        m.append(", n], got ");
        m.append(write_shape(shape).as_str());
        m.append(". Is `");
        m.append(id);
        m.append("` a cross-encoder export?");
        proof {
            assert(m@ =~= logits_message(batch as int, shape@, id@));
        }
        return Err(m);
    }
    proof {
        assert(shape@[1] >= 1);
    }
    let cols: usize = shape[1] as usize;
    let col: usize = logit_column(cols);
    let mut out: Vec<usize> = Vec::new();
    let mut b: usize = 0;
    while b < batch
        invariant
            cols >= 1,
            batch * cols <= usize::MAX,
            col == (if cols == 1 {
                0int
            } else {
                1
            }),
            b <= batch,
            out@.len() == b,
            forall|k: int| 0 <= k < b ==> #[trigger] out@[k] == k * cols + col,
        decreases batch - b,
    {
        proof {
            assert(b * cols + col < batch * cols) by (nonlinear_arith)
                requires
                    b < batch,
                    0 <= col < cols,
            ;
            assert(0 <= b * cols) by (nonlinear_arith);
        }
        out.push(b * cols + col);
        b += 1;
    }
    Ok(out)
}

/// A bucket is the lowest rung that a length fits under: 32, 64, 96, 128, 192, 256, 384 or 512,
/// within the model's limit; whatever is longer gets the limit itself.
pub proof fn a_bucket_is_the_lowest_rung_that_fits(len: usize, max_seq: usize)
    requires
        max_seq >= 1,
    ensures
        ({
            let r = rung(len, limit_of(max_seq), 0);
            let want: int = if len <= 32 {
                32
            } else if len <= 64 {
                64
            } else if len <= 96 {
                96
            } else if len <= 128 {
                128
            } else if len <= 192 {
                192
            } else if len <= 256 {
                256
            } else if len <= 384 {
                384
            } else if len <= 512 {
                512
            } else {
                max_seq as int
            };
            &&& want <= max_seq ==> r == want
            &&& want > max_seq ==> r == max_seq
        }),
        rung(len, limit_of(0), 0) == 1,
{
    assert(SEQ_BUCKETS@ =~= seq![32, 64, 96, 128, 192, 256, 384, 512usize]);
    reveal_with_fuel(rung, 10);
}

/// The longest text of a batch is the longest: none has more tokens, and, unless the batch is
/// empty, one has as many.
pub proof fn the_longest_is_the_longest(tokens: Seq<Encoded>, slots: Seq<usize>)
    ensures
        forall|i: int|
            0 <= i < slots.len() ==> tokens[(#[trigger] slots[i]) as int].ids@.len() <= longest(
                tokens,
                slots,
            ),
        longest(tokens, slots) > 0 ==> exists|i: int|
            0 <= i < slots.len() && tokens[(#[trigger] slots[i]) as int].ids@.len() == longest(
                tokens,
                slots,
            ),
    decreases slots.len(),
{
    if slots.len() > 0 {
        let init = slots.drop_last();
        the_longest_is_the_longest(tokens, init);
        let n = slots.len() - 1;
        assert forall|i: int| 0 <= i < slots.len() implies tokens[(#[trigger] slots[i]) as int].ids@.len()
            <= longest(tokens, slots) by {
            if i < n {
                assert(init[i] == slots[i]);
            }
        }
        if longest(tokens, slots) > 0 {
            if tokens[slots.last() as int].ids@.len() > longest(tokens, init) {
                assert(tokens[slots[n] as int].ids@.len() == longest(tokens, slots));
            } else {
                let i = choose|i: int|
                    0 <= i < init.len() && tokens[(#[trigger] init[i]) as int].ids@.len() == longest(
                        tokens,
                        init,
                    );
                assert(slots[i] == init[i]);
            }
        }
    }
}

/// A batch keeps every token of every text that the model has room for: row `b` holds the tokens of
/// the text at its slot, in their order, and zeros after them.
pub proof fn a_batch_holds_every_token(
    p: Packed,
    tokens: Seq<Encoded>,
    max_seq: usize,
    pairs: bool,
    b: int,
    t: int,
)
    requires
        lays_out(p, tokens, max_seq, pairs),
        max_seq >= 1,
        0 <= b < p.slots@.len(),
        0 <= t < p.seq,
    ensures
        ({
            let e = tokens[p.slots@[b] as int];
            let k = b * p.seq + t;
            &&& 1 <= p.seq <= max_seq
            &&& e.ids@.len() <= max_seq ==> e.ids@.len() <= p.seq
            &&& e.ids@.len() > max_seq ==> p.seq == max_seq
            &&& p.ids@.len() == p.slots@.len() * p.seq
            &&& t < e.ids@.len() ==> p.ids@[k] == e.ids@[t]
            &&& t >= e.ids@.len() ==> p.ids@[k] == 0 && p.mask@[k] == 0 && p.types@[k] == 0
            &&& t < e.ids@.len() && !pairs ==> p.mask@[k] == 1 && p.types@[k] == 0
            &&& t < e.ids@.len() && pairs ==> p.mask@[k] == e.mask@[t] as i64 && p.types@[k]
                == e.types@[t] as i64
        }),
{
    let k = b * p.seq + t;
    let n = p.slots@.len() as int;
    the_longest_is_the_longest(tokens, p.slots@);
    assert(tokens[p.slots@[b] as int].ids@.len() <= longest(tokens, p.slots@));
    let most = longest(tokens, p.slots@);
    let c = if most < 1 {
        1
    } else if most > max_seq {
        max_seq as nat
    } else {
        most
    };
    buckets_cover_and_never_exceed(c as usize, max_seq);
    assert(0 <= k < n * p.seq && k / p.seq as int == b && k % p.seq as int == t) by {
        lemma_fundamental_div_mod_converse(k, p.seq as int, b, t);
        assert(b * p.seq + p.seq <= n * p.seq) by (nonlinear_arith)
            requires
                b + 1 <= n,
                p.seq >= 0,
        ;
        assert(b * p.seq >= 0) by (nonlinear_arith)
            requires
                b >= 0,
                p.seq >= 0,
        ;
    }
    assert((p.ids@[k], p.mask@[k], p.types@[k]) == cell(tokens[p.slots@[b] as int], t, pairs));
}

/// The positions that count are those whose mask is not zero, each once, in order.
pub proof fn padding_is_never_averaged(mask: Seq<i64>, b: int, seq: int, n: nat, t: int)
    ensures
        ({
            let u = unmasked(mask, b, seq, n);
            &&& u.contains(t) <==> 0 <= t < n && mask[b * seq + t] != 0
            &&& forall|i: int, j: int| 0 <= i < j < u.len() ==> u[i] < u[j]
            &&& pooled(Pooling::Cls, mask, b, seq, n) == seq![0int]
            &&& pooled(Pooling::Mean, mask, b, seq, n).contains(t) <==> 0 <= t < n && mask[b * seq
                + t] != 0
            &&& pooled(Pooling::Mean, mask, b, seq, n).len() == u.len()
        }),
    decreases n,
{
    if n > 0 {
        let m = (n - 1) as nat;
        let before = unmasked(mask, b, seq, m);
        let u = unmasked(mask, b, seq, n);
        padding_is_never_averaged(mask, b, seq, m, t);
        assert forall|i: int| 0 <= i < before.len() implies 0 <= #[trigger] before[i] < m by {
            padding_is_never_averaged(mask, b, seq, m, before[i]);
            assert(before.contains(before[i]));
        }
        assert(b * seq + n - 1 == b * seq + m);
        if mask[b * seq + m] != 0 {
            assert(u == before.push(m as int));
            assert(u[before.len() as int] == m);
            if before.contains(t) {
                let i = choose|i: int| 0 <= i < before.len() && before[i] == t;
                assert(u[i] == t);
            }
            if u.contains(t) && t != m {
                let i = choose|i: int| 0 <= i < u.len() && u[i] == t;
                assert(before[i] == t);
            }
        }
    }
}

/// Each document is read with the query, in order, up to its 600th character; and each text to
/// embed by itself and whole.
pub proof fn every_document_is_read_with_the_query(query: Seq<char>, docs: Seq<Seq<char>>, i: int)
    requires
        0 <= i < docs.len(),
    ensures
        pair_views(query, docs).len() == docs.len(),
        pair_views(query, docs)[i].first == query,
        docs[i].len() <= 600 ==> pair_views(query, docs)[i].second == Some(docs[i]),
        docs[i].len() > 600 ==> pair_views(query, docs)[i].second == Some(docs[i].take(600)),
        single_views(docs).len() == docs.len(),
        single_views(docs)[i].first == docs[i],
        single_views(docs)[i].second is None,
{
    if docs[i].len() <= 600 {
        assert(chars::first_chars(docs[i], 600) =~= docs[i]);
    }
}

/// A shape is written between brackets, its sizes apart.
pub proof fn a_shape_is_written_between_brackets(a: i64, b: i64)
    ensures
        shape_text(seq![]) == "[]"@,
        shape_text(seq![a]) == "["@ + text::signed_decimal(a as int) + "]"@,
        shape_text(seq![a, b]) == "["@ + text::signed_decimal(a as int) + ", "@
            + text::signed_decimal(b as int) + "]"@,
{
    reveal_strlit("[]");
    reveal_strlit("[");
    reveal_strlit("]");
    let f = |n: i64| text::signed_decimal(n as int);
    reveal_with_fuel(text::joined, 4);
    assert(seq![a].map_values(f) =~= seq![f(a)]);
    assert(seq![a, b].map_values(f) =~= seq![f(a), f(b)]);
    assert(seq![f(a), f(b)].drop_last() =~= seq![f(a)]);
    assert(seq![f(a), f(b)].drop_first() =~= seq![f(b)]);
    assert(shape_text(seq![]) =~= "[]"@);
    assert(shape_text(seq![a]) =~= "["@ + text::signed_decimal(a as int) + "]"@);
    assert(shape_text(seq![a, b]) =~= "["@ + text::signed_decimal(a as int) + ", "@
        + text::signed_decimal(b as int) + "]"@);
}

/// Texts are run in the order of their lengths, the shorter first, and equally long ones as they
/// came.
pub proof fn shorter_texts_run_first(tokens: Seq<Encoded>, order: Seq<usize>, i: int, j: int)
    requires
        sorted_by(order, fewer_tokens(tokens)),
        0 <= i < j < order.len(),
    ensures
        tokens[order[i] as int].ids@.len() <= tokens[order[j] as int].ids@.len(),
        tokens[order[i] as int].ids@.len() == tokens[order[j] as int].ids@.len() ==> order[i]
            <= order[j],
{
    let le = fewer_tokens(tokens);
    assert(le(order[i], order[j]));
}

/// Of a reranker's output the only column is read, or the second of several, one row to each pair.
pub proof fn a_classifier_is_read_by_its_second_column(
    shape: Vec<i64>,
    batch: usize,
    id: &str,
    r: Result<Vec<usize>, String>,
    b: int,
)
    requires
        call_ensures(logit_positions, (&shape, batch, id), r),
        0 <= b < batch,
    ensures
        r is Ok <==> shape@.len() == 2 && shape@[0] == batch,
        r matches Ok(v) ==> {
            &&& v@.len() == batch
            &&& shape@[1] == 1 ==> v@[b] == b
            &&& shape@[1] != 1 ==> v@[b] == b * shape@[1] + 1
        },
{
    if shape@.len() == 2 && shape@[1] == 1 {
        assert(b * shape@[1] == b) by (nonlinear_arith)
            requires
                shape@[1] == 1,
        ;
    }
}

/// The output of an encoder is read exactly where it has three sizes and the width that the
/// registry says.
pub proof fn only_an_encoder_is_read(
    shape: Vec<i64>,
    id: &str,
    dim: usize,
    r: Result<Layout, String>,
)
    requires
        call_ensures(hidden_layout, (&shape, id, dim), r),
    ensures
        r is Ok <==> shape@.len() == 3 && shape@[2] == dim,
        r matches Ok(l) ==> l.seq == shape@[1] && l.hidden == shape@[2],
{
}

/// What the model returns goes back to the text that it is of.
pub proof fn each_text_gets_its_own_vector(order: Vec<usize>, r: Vec<usize>, i: int)
    requires
        call_ensures(inverse, (&order,), r),
        0 <= i < order@.len(),
    ensures
        r@.len() == order@.len(),
        0 <= r@[i] < order@.len(),
        order@[r@[i] as int] == i,
{
}

/// Every token of a passage counts and belongs to the one text; of a pair, each token counts and
/// belongs as the tokenizer says.
pub proof fn passages_and_pairs_keep_their_masks(
    r: Runs,
    tokens: Seq<Encoded>,
    tokenizer: tokenizers::Tokenizer,
    query: Seq<char>,
    texts: Seq<Seq<char>>,
    size: int,
    max_seq: usize,
    g: int,
    b: int,
    t: int,
)
    requires
        max_seq >= 1,
        0 <= g < r.batches@.len(),
        0 <= b < r.batches@[g].slots@.len(),
        0 <= t < r.batches@[g].seq,
        t < tokens[r.batches@[g].slots@[b] as int].ids@.len(),
    ensures
        ({
            let p = r.batches@[g];
            let e = tokens[p.slots@[b] as int];
            let k = b * p.seq + t;
            &&& embeds(r, tokens, tokenizer, texts, size, max_seq) ==> p.ids@[k] == e.ids@[t]
                && p.mask@[k] == 1 && p.types@[k] == 0
            &&& judges(r, tokens, tokenizer, query, texts, max_seq) ==> p.ids@[k] == e.ids@[t]
                && p.mask@[k] == e.mask@[t] as i64 && p.types@[k] == e.types@[t] as i64
        }),
{
    if embeds(r, tokens, tokenizer, texts, size, max_seq) {
        a_batch_holds_every_token(r.batches@[g], tokens, max_seq, false, b, t);
    }
    if judges(r, tokens, tokenizer, query, texts, max_seq) {
        a_batch_holds_every_token(r.batches@[g], tokens, max_seq, true, b, t);
    }
}

/// Each pair that is tokenised is the query and the first 600 characters of its document, in order.
pub proof fn each_document_is_paired_with_the_query(
    query: &str,
    docs: Vec<String>,
    r: Vec<Input>,
    i: int,
)
    requires
        call_ensures(pair_inputs, (query, &docs), r),
        0 <= i < docs@.len(),
    ensures
        r@.len() == docs@.len(),
        r@[i].first@ == query@,
        r@[i].second is Some,
        docs@[i]@.len() <= 600 ==> r@[i].second->0@ == docs@[i]@,
        docs@[i]@.len() > 600 ==> r@[i].second->0@ == docs@[i]@.take(600),
{
    assert(is_pair(r@[i], query@, docs@[i]@));
    if docs@[i]@.len() <= 600 {
        assert(chars::first_chars(docs@[i]@, 600) =~= docs@[i]@);
    }
}

} // verus!
