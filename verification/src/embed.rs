//! The model registry.
use crate::config::Device;
use crate::text;
use vstd::prelude::*;

verus! {

/// Some models are trained asymmetrically: queries carry an instruction prefix and documents do
/// not. Applying it to both, or to neither, measurably degrades retrieval, and does so silently,
/// which is why it lives in the registry rather than at a call site.
pub const BGE_QUERY_PREFIX: &'static str = "Represent this sentence for searching relevant passages: ";

/// Fast enough to index a few hundred thousand files.
pub const DEFAULT_MODEL: &'static str = "bge-small-en-v1.5-int8";

/// How token vectors are reduced to one vector per text. Getting this wrong still produces
/// plausible-looking unit vectors, just worse ones.
#[derive(Debug, Clone, Copy, PartialEq, Eq, Structural)]
pub enum Pooling {
    /// The first token's vector.
    Cls,
    /// Attention-mask-weighted mean over tokens.
    Mean,
}

/// Texts per session run when none is specified.
pub const DEFAULT_MICRO_BATCH: usize = 32;

/// 0.55 in single precision: between unrelated text and genuine matches on most models.
pub const FLOOR_055: u32 = 0x3f0c_cccd;

/// 0.80 in single precision, for models that space texts tightly.
pub const FLOOR_080: u32 = 0x3f4c_cccd;

/// A model that can be fetched and run.
#[derive(Debug, Clone, Copy)]
pub struct ModelSpec {
    pub id: &'static str,
    /// Repository it is fetched from.
    pub repo: &'static str,
    /// Path of the graph within the repository.
    pub onnx_path: &'static str,
    /// Path of the tokenizer within the repository.
    pub tokenizer_path: &'static str,
    /// Pinned digests of the graph and the tokenizer, when known. `None` means trust on first use.
    pub onnx_hash: Option<&'static str>,
    pub tokenizer_hash: Option<&'static str>,
    pub dim: usize,
    /// Positional-embedding limit of the model; inputs are truncated to it.
    pub max_seq: usize,
    pub pooling: Pooling,
    /// Prefix prepended to queries only. Empty for symmetric models.
    pub query_prefix: &'static str,
    /// Approximate download size.
    pub approx_mb: u64,
    /// Texts per session run. Bounds peak memory: large single-precision models trade a little
    /// throughput for staying within the machine's budget.
    pub micro_batch: usize,
    /// Starting estimate of end-to-end indexing throughput, used before anything was measured.
    pub rough_docs_per_sec: u32,
    /// Cosine below which a dense hit is treated as noise; single-precision bits.
    pub default_min_similarity: u32,
    pub note: &'static str,
}

/// A registry entry without pinned digests.
pub open spec fn entry(
    id: &'static str,
    repo: &'static str,
    onnx_path: &'static str,
    dim: usize,
    max_seq: usize,
    pooling: Pooling,
    query_prefix: &'static str,
    approx_mb: u64,
    micro_batch: usize,
    rough_docs_per_sec: u32,
    default_min_similarity: u32,
    note: &'static str,
) -> ModelSpec {
    ModelSpec {
        id,
        repo,
        onnx_path,
        tokenizer_path: "tokenizer.json",
        onnx_hash: None,
        tokenizer_hash: None,
        dim,
        max_seq,
        pooling,
        query_prefix,
        approx_mb,
        micro_batch,
        rough_docs_per_sec,
        default_min_similarity,
        note,
    }
}

/// The known models.
pub open spec fn models() -> Seq<ModelSpec> {
    seq![
        entry("bge-small-en-v1.5-int8", "Xenova/bge-small-en-v1.5", "onnx/model_int8.onnx", 384, 512, Pooling::Cls, BGE_QUERY_PREFIX, 33, DEFAULT_MICRO_BATCH, 60, FLOOR_055, "default; measured 1.4x faster than fp32 on this CPU"),
        entry("bge-small-en-v1.5", "BAAI/bge-small-en-v1.5", "onnx/model.onnx", 384, 512, Pooling::Cls, BGE_QUERY_PREFIX, 127, DEFAULT_MICRO_BATCH, 43, FLOOR_055, "fp32 baseline for measuring quantisation loss"),
        entry("bge-base-en-v1.5", "BAAI/bge-base-en-v1.5", "onnx/model.onnx", 768, 512, Pooling::Cls, BGE_QUERY_PREFIX, 416, DEFAULT_MICRO_BATCH, 16, FLOOR_055, "middle ground; ~3x the indexing cost of bge-small"),
        entry("bge-large-en-v1.5", "BAAI/bge-large-en-v1.5", "onnx/model.onnx", 1024, 512, Pooling::Cls, BGE_QUERY_PREFIX, 1275, 8, 5, FLOOR_055, "highest MTEB score of the BGE family; ~10x the indexing cost of bge-small"),
        entry("bge-large-en-v1.5-int8", "Xenova/bge-large-en-v1.5", "onnx/model_int8.onnx", 1024, 512, Pooling::Cls, BGE_QUERY_PREFIX, 320, 16, 10, FLOOR_055, "bge-large quality at ~2.5x its fp32 indexing speed; the practical large model"),
        entry("mxbai-embed-large-v1", "mixedbread-ai/mxbai-embed-large-v1", "onnx/model.onnx", 1024, 512, Pooling::Cls, BGE_QUERY_PREFIX, 1275, 8, 5, FLOOR_055, "top-tier MTEB retrieval; same size class as bge-large"),
        entry("mxbai-embed-large-v1-int8", "mixedbread-ai/mxbai-embed-large-v1", "onnx/model_quantized.onnx", 1024, 512, Pooling::Cls, BGE_QUERY_PREFIX, 321, 16, 10, FLOOR_055, "quantised official export; widest measured relevance margin"),
        entry("gte-large-en-v1.5", "Alibaba-NLP/gte-large-en-v1.5", "onnx/model.onnx", 1024, 512, Pooling::Cls, "", 1665, 8, 1, FLOOR_080, "Alibaba's large retriever; measured slow here — see int8 entry"),
        entry("gte-large-en-v1.5-int8", "Alibaba-NLP/gte-large-en-v1.5", "onnx/model_int8.onnx", 1024, 512, Pooling::Cls, "", 425, 16, 1, FLOOR_080, "measured 1 doc/sec, 590ms queries, thin margin; not recommended"),
        entry("all-MiniLM-L6-v2", "Xenova/all-MiniLM-L6-v2", "onnx/model.onnx", 384, 256, Pooling::Mean, "", 90, DEFAULT_MICRO_BATCH, 75, FLOOR_055, "fallback; mean pooling, no query prefix"),
    ]
}

fn make(
    id: &'static str,
    repo: &'static str,
    onnx_path: &'static str,
    dim: usize,
    max_seq: usize,
    pooling: Pooling,
    query_prefix: &'static str,
    approx_mb: u64,
    micro_batch: usize,
    rough_docs_per_sec: u32,
    default_min_similarity: u32,
    note: &'static str,
) -> (r: ModelSpec)
    ensures
        r == entry(
            id,
            repo,
            onnx_path,
            dim,
            max_seq,
            pooling,
            query_prefix,
            approx_mb,
            micro_batch,
            rough_docs_per_sec,
            default_min_similarity,
            note,
        ),
{
    ModelSpec {
        id,
        repo,
        onnx_path,
        tokenizer_path: "tokenizer.json",
        onnx_hash: None,
        tokenizer_hash: None,
        dim,
        max_seq,
        pooling,
        query_prefix,
        approx_mb,
        micro_batch,
        rough_docs_per_sec,
        default_min_similarity,
        note,
    }
}

/// The known models.
pub fn registry() -> (r: Vec<ModelSpec>)
    ensures
        r@ == models(),
{
    let mut v: Vec<ModelSpec> = Vec::new();
    v.push(make("bge-small-en-v1.5-int8", "Xenova/bge-small-en-v1.5", "onnx/model_int8.onnx", 384, 512, Pooling::Cls, BGE_QUERY_PREFIX, 33, DEFAULT_MICRO_BATCH, 60, FLOOR_055, "default; measured 1.4x faster than fp32 on this CPU"));
    v.push(make("bge-small-en-v1.5", "BAAI/bge-small-en-v1.5", "onnx/model.onnx", 384, 512, Pooling::Cls, BGE_QUERY_PREFIX, 127, DEFAULT_MICRO_BATCH, 43, FLOOR_055, "fp32 baseline for measuring quantisation loss"));
    v.push(make("bge-base-en-v1.5", "BAAI/bge-base-en-v1.5", "onnx/model.onnx", 768, 512, Pooling::Cls, BGE_QUERY_PREFIX, 416, DEFAULT_MICRO_BATCH, 16, FLOOR_055, "middle ground; ~3x the indexing cost of bge-small"));
    v.push(make("bge-large-en-v1.5", "BAAI/bge-large-en-v1.5", "onnx/model.onnx", 1024, 512, Pooling::Cls, BGE_QUERY_PREFIX, 1275, 8, 5, FLOOR_055, "highest MTEB score of the BGE family; ~10x the indexing cost of bge-small"));
    v.push(make("bge-large-en-v1.5-int8", "Xenova/bge-large-en-v1.5", "onnx/model_int8.onnx", 1024, 512, Pooling::Cls, BGE_QUERY_PREFIX, 320, 16, 10, FLOOR_055, "bge-large quality at ~2.5x its fp32 indexing speed; the practical large model"));
    v.push(make("mxbai-embed-large-v1", "mixedbread-ai/mxbai-embed-large-v1", "onnx/model.onnx", 1024, 512, Pooling::Cls, BGE_QUERY_PREFIX, 1275, 8, 5, FLOOR_055, "top-tier MTEB retrieval; same size class as bge-large"));
    v.push(make("mxbai-embed-large-v1-int8", "mixedbread-ai/mxbai-embed-large-v1", "onnx/model_quantized.onnx", 1024, 512, Pooling::Cls, BGE_QUERY_PREFIX, 321, 16, 10, FLOOR_055, "quantised official export; widest measured relevance margin"));
    v.push(make("gte-large-en-v1.5", "Alibaba-NLP/gte-large-en-v1.5", "onnx/model.onnx", 1024, 512, Pooling::Cls, "", 1665, 8, 1, FLOOR_080, "Alibaba's large retriever; measured slow here — see int8 entry"));
    v.push(make("gte-large-en-v1.5-int8", "Alibaba-NLP/gte-large-en-v1.5", "onnx/model_int8.onnx", 1024, 512, Pooling::Cls, "", 425, 16, 1, FLOOR_080, "measured 1 doc/sec, 590ms queries, thin margin; not recommended"));
    v.push(make("all-MiniLM-L6-v2", "Xenova/all-MiniLM-L6-v2", "onnx/model.onnx", 384, 256, Pooling::Mean, "", 90, DEFAULT_MICRO_BATCH, 75, FLOOR_055, "fallback; mean pooling, no query prefix"));
    proof {
        assert(v@ =~= models());
    }
    v
}

/// The first of `specs` with that id.
pub open spec fn first_model(specs: Seq<ModelSpec>, id: Seq<char>) -> Option<ModelSpec>
    decreases specs.len(),
{
    if specs.len() == 0 {
        None
    } else if specs[0].id@ == id {
        Some(specs[0])
    } else {
        first_model(specs.drop_first(), id)
    }
}

/// The registered model of that id.
pub open spec fn registered(id: Seq<char>) -> Option<ModelSpec> {
    first_model(models(), id)
}

/// The ids of the known models, for an error message.
pub open spec fn model_ids(specs: Seq<ModelSpec>) -> Seq<Seq<char>> {
    specs.map_values(|m: ModelSpec| m.id@)
}

/// What the user is told about a model that is not registered.
pub open spec fn unknown_model(id: Seq<char>) -> Seq<char> {
    "unknown model `"@ + id + "`. Known models: "@ + text::joined(model_ids(models()), ", "@)
}

/// Finds a model by id; the error is a message that lists the known ones.
pub fn lookup(id: &str) -> (r: Result<ModelSpec, String>)
    ensures
        match r {
            Ok(m) => registered(id@) == Some(m),
            Err(e) => registered(id@) is None && e@ == unknown_model(id@),
        },
{
    let all = registry();
    let mut known: Vec<String> = Vec::new();
    let mut i: usize = 0;
    proof {
        assert(models().skip(0) =~= models());
        assert(text::views(known@) =~= model_ids(models()).take(0));
    }
    while i < all.len()
        invariant
            all@ == models(),
            i <= all@.len(),
            registered(id@) == first_model(models().skip(i as int), id@),
            text::views(known@) == model_ids(models()).take(i as int),
        decreases all@.len() - i,
    {
        if text::same(all[i].id, id) {
            return Ok(all[i]);
        }
        let s = all[i].id.to_owned();
        proof {
            assert(models().skip(i as int).drop_first() =~= models().skip(i + 1));
            text::lemma_views_push(known@, s);
            assert(model_ids(models()).take(i + 1) =~= model_ids(models()).take(i as int).push(s@));
        }
        known.push(s);
        i += 1;
    }
    proof {
        assert(model_ids(models()).take(all@.len() as int) =~= model_ids(models()));
    }
    let mut e = "unknown model `".to_owned();
    e.append(id);
    e.append("`. Known models: ");
    e.append(text::join(&known, ", ").as_str());
    Err(e)
}

/// The text embedded for a query: the model's prefix, then the query.
pub open spec fn prefixed(m: ModelSpec, query: Seq<char>) -> Seq<char> {
    m.query_prefix@ + query
}

/// The text embedded for a query.
pub fn query_text(m: &ModelSpec, query: &str) -> (r: String)
    ensures
        r@ == prefixed(*m, query@),
{
    let mut s = m.query_prefix.to_owned();
    s.append(query);
    s
}

/// The passages to embed for a query: one, made of the model's prefix and the query.
pub fn query_passages(m: &ModelSpec, query: &str) -> (r: Vec<String>)
    ensures
        text::views(r@) == seq![prefixed(*m, query@)],
{
    let mut out: Vec<String> = Vec::new();
    out.push(query_text(m, query));
    proof {
        assert(text::views(out@) =~= seq![prefixed(*m, query@)]);
    }
    out
}

/// A model without a prefix embeds a query as it embeds the passage of the same words; a model with
/// one never does. Either way the query can be read off what is embedded.
pub proof fn a_query_is_embedded_behind_the_prefix(m: ModelSpec, a: Seq<char>, b: Seq<char>)
    ensures
        (prefixed(m, a) == a) == (m.query_prefix@.len() == 0),
        prefixed(m, a) == prefixed(m, b) ==> a == b,
{
    let n = m.query_prefix@.len() as int;
    if n == 0 {
        assert(prefixed(m, a) =~= a);
    } else {
        assert(prefixed(m, a).len() > a.len());
    }
    assert(prefixed(m, a).skip(n) =~= a);
    assert(prefixed(m, b).skip(n) =~= b);
}

// ------------------------------------------------------------------ device

/// What is said of a build without a GPU provider.
pub open spec fn no_gpu_text() -> Seq<char> {
    "this build has no GPU support; rebuild with `--features gpu`"@
}

/// What a build without a GPU provider does with a device preference: nothing to say for the CPU, a
/// notice where it may fall back, an error where it may not.
pub fn without_gpu(device: Device) -> (r: Result<Option<String>, String>)
    ensures
        match device {
            Device::Cpu => r matches Ok(n) && n is None,
            Device::Auto => match r {
                Ok(Some(n)) => n@ == no_gpu_text() + "; using the CPU"@,
                _ => false,
            },
            Device::Gpu => match r {
                Err(m) => m@ == "device = \"gpu\" was requested but "@ + no_gpu_text(),
                _ => false,
            },
        },
{
    if !device.wants_gpu() {
        return Ok(None);
    }
    if device.may_fall_back() {
        let mut n = "this build has no GPU support; rebuild with `--features gpu`".to_owned();
        n.append("; using the CPU");
        Ok(Some(n))
    } else {
        let mut m = "device = \"gpu\" was requested but ".to_owned();
        m.append("this build has no GPU support; rebuild with `--features gpu`");
        Err(m)
    }
}

// ------------------------------------------------------------------ laws

/// What the registry says of each model.
pub proof fn the_models_are_these()
    ensures
        models().len() == 10,
        ({
            let m = models()[0];
            &&& m.id@ == "bge-small-en-v1.5-int8"@
            &&& m.repo@ == "Xenova/bge-small-en-v1.5"@
            &&& m.onnx_path@ == "onnx/model_int8.onnx"@
            &&& m.tokenizer_path@ == "tokenizer.json"@
            &&& m.dim == 384 && m.max_seq == 512 && m.pooling == Pooling::Cls
            &&& m.query_prefix@ == "Represent this sentence for searching relevant passages: "@
            &&& m.micro_batch == 32 && m.rough_docs_per_sec == 60 && m.approx_mb == 33
            &&& m.default_min_similarity == 0x3f0c_cccd
        }),
        ({
            let m = models()[1];
            &&& m.id@ == "bge-small-en-v1.5"@
            &&& m.repo@ == "BAAI/bge-small-en-v1.5"@
            &&& m.onnx_path@ == "onnx/model.onnx"@
            &&& m.tokenizer_path@ == "tokenizer.json"@
            &&& m.dim == 384 && m.max_seq == 512 && m.pooling == Pooling::Cls
            &&& m.query_prefix@ == "Represent this sentence for searching relevant passages: "@
            &&& m.micro_batch == 32 && m.rough_docs_per_sec == 43 && m.approx_mb == 127
            &&& m.default_min_similarity == 0x3f0c_cccd
        }),
        ({
            let m = models()[2];
            &&& m.id@ == "bge-base-en-v1.5"@
            &&& m.repo@ == "BAAI/bge-base-en-v1.5"@
            &&& m.onnx_path@ == "onnx/model.onnx"@
            &&& m.tokenizer_path@ == "tokenizer.json"@
            &&& m.dim == 768 && m.max_seq == 512 && m.pooling == Pooling::Cls
            &&& m.query_prefix@ == "Represent this sentence for searching relevant passages: "@
            &&& m.micro_batch == 32 && m.rough_docs_per_sec == 16 && m.approx_mb == 416
            &&& m.default_min_similarity == 0x3f0c_cccd
        }),
        ({
            let m = models()[3];
            &&& m.id@ == "bge-large-en-v1.5"@
            &&& m.repo@ == "BAAI/bge-large-en-v1.5"@
            &&& m.onnx_path@ == "onnx/model.onnx"@
            &&& m.tokenizer_path@ == "tokenizer.json"@
            &&& m.dim == 1024 && m.max_seq == 512 && m.pooling == Pooling::Cls
            &&& m.query_prefix@ == "Represent this sentence for searching relevant passages: "@
            &&& m.micro_batch == 8 && m.rough_docs_per_sec == 5 && m.approx_mb == 1275
            &&& m.default_min_similarity == 0x3f0c_cccd
        }),
        ({
            let m = models()[4];
            &&& m.id@ == "bge-large-en-v1.5-int8"@
            &&& m.repo@ == "Xenova/bge-large-en-v1.5"@
            &&& m.onnx_path@ == "onnx/model_int8.onnx"@
            &&& m.tokenizer_path@ == "tokenizer.json"@
            &&& m.dim == 1024 && m.max_seq == 512 && m.pooling == Pooling::Cls
            &&& m.query_prefix@ == "Represent this sentence for searching relevant passages: "@
            &&& m.micro_batch == 16 && m.rough_docs_per_sec == 10 && m.approx_mb == 320
            &&& m.default_min_similarity == 0x3f0c_cccd
        }),
        ({
            let m = models()[5];
            &&& m.id@ == "mxbai-embed-large-v1"@
            &&& m.repo@ == "mixedbread-ai/mxbai-embed-large-v1"@
            &&& m.onnx_path@ == "onnx/model.onnx"@
            &&& m.tokenizer_path@ == "tokenizer.json"@
            &&& m.dim == 1024 && m.max_seq == 512 && m.pooling == Pooling::Cls
            &&& m.query_prefix@ == "Represent this sentence for searching relevant passages: "@
            &&& m.micro_batch == 8 && m.rough_docs_per_sec == 5 && m.approx_mb == 1275
            &&& m.default_min_similarity == 0x3f0c_cccd
        }),
        ({
            let m = models()[6];
            &&& m.id@ == "mxbai-embed-large-v1-int8"@
            &&& m.repo@ == "mixedbread-ai/mxbai-embed-large-v1"@
            &&& m.onnx_path@ == "onnx/model_quantized.onnx"@
            &&& m.tokenizer_path@ == "tokenizer.json"@
            &&& m.dim == 1024 && m.max_seq == 512 && m.pooling == Pooling::Cls
            &&& m.query_prefix@ == "Represent this sentence for searching relevant passages: "@
            &&& m.micro_batch == 16 && m.rough_docs_per_sec == 10 && m.approx_mb == 321
            &&& m.default_min_similarity == 0x3f0c_cccd
        }),
        ({
            let m = models()[7];
            &&& m.id@ == "gte-large-en-v1.5"@
            &&& m.repo@ == "Alibaba-NLP/gte-large-en-v1.5"@
            &&& m.onnx_path@ == "onnx/model.onnx"@
            &&& m.tokenizer_path@ == "tokenizer.json"@
            &&& m.dim == 1024 && m.max_seq == 512 && m.pooling == Pooling::Cls
            &&& m.query_prefix@ == ""@
            &&& m.micro_batch == 8 && m.rough_docs_per_sec == 1 && m.approx_mb == 1665
            &&& m.default_min_similarity == 0x3f4c_cccd
        }),
        ({
            let m = models()[8];
            &&& m.id@ == "gte-large-en-v1.5-int8"@
            &&& m.repo@ == "Alibaba-NLP/gte-large-en-v1.5"@
            &&& m.onnx_path@ == "onnx/model_int8.onnx"@
            &&& m.tokenizer_path@ == "tokenizer.json"@
            &&& m.dim == 1024 && m.max_seq == 512 && m.pooling == Pooling::Cls
            &&& m.query_prefix@ == ""@
            &&& m.micro_batch == 16 && m.rough_docs_per_sec == 1 && m.approx_mb == 425
            &&& m.default_min_similarity == 0x3f4c_cccd
        }),
        ({
            let m = models()[9];
            &&& m.id@ == "all-MiniLM-L6-v2"@
            &&& m.repo@ == "Xenova/all-MiniLM-L6-v2"@
            &&& m.onnx_path@ == "onnx/model.onnx"@
            &&& m.tokenizer_path@ == "tokenizer.json"@
            &&& m.dim == 384 && m.max_seq == 256 && m.pooling == Pooling::Mean
            &&& m.query_prefix@ == ""@
            &&& m.micro_batch == 32 && m.rough_docs_per_sec == 75 && m.approx_mb == 90
            &&& m.default_min_similarity == 0x3f0c_cccd
        }),
        DEFAULT_MODEL@ == "bge-small-en-v1.5-int8"@,
{
}

/// A model is found by its id: the first that has it, and none where none has.
pub proof fn a_model_is_found_by_its_id(specs: Seq<ModelSpec>, id: Seq<char>, i: int)
    requires
        0 <= i < specs.len(),
        forall|j: int| 0 <= j < i ==> (#[trigger] specs[j]).id@ != id,
    ensures
        specs[i].id@ == id ==> first_model(specs, id) == Some(specs[i]),
        first_model(Seq::<ModelSpec>::empty(), id) is None,
        (forall|j: int| 0 <= j < specs.len() ==> (#[trigger] specs[j]).id@ != id) ==> first_model(
            specs,
            id,
        ) is None,
    decreases specs.len(),
{
    let rest = specs.drop_first();
    assert forall|j: int| 0 <= j < rest.len() implies #[trigger] rest[j] == specs[j + 1] by {}
    if specs[0].id@ != id && rest.len() > 0 {
        let k = if i > 0 {
            i - 1
        } else {
            0
        };
        assert forall|j: int| 0 <= j < k implies (#[trigger] rest[j]).id@ != id by {
            assert(specs[j + 1].id@ != id);
        }
        a_model_is_found_by_its_id(rest, id, k);
        if forall|j: int| 0 <= j < specs.len() ==> (#[trigger] specs[j]).id@ != id {
            assert forall|j: int| 0 <= j < rest.len() implies (#[trigger] rest[j]).id@ != id by {
                assert(specs[j + 1].id@ != id);
            }
        }
    }
}

/// The ids that a message lists are those of the models, in order.
pub proof fn the_known_ids_are_listed(specs: Seq<ModelSpec>, i: int)
    requires
        0 <= i < specs.len(),
    ensures
        model_ids(specs).len() == specs.len(),
        model_ids(specs)[i] == specs[i].id@,
{
}

/// A query is embedded as the model's prefix and then the query, and nothing else.
pub proof fn the_prefix_comes_first(m: ModelSpec, query: Seq<char>)
    ensures
        prefixed(m, query).len() == m.query_prefix@.len() + query.len(),
        prefixed(m, query).take(m.query_prefix@.len() as int) == m.query_prefix@,
        prefixed(m, query).skip(m.query_prefix@.len() as int) == query,
{
    let n = m.query_prefix@.len() as int;
    assert(prefixed(m, query).take(n) =~= m.query_prefix@);
    assert(prefixed(m, query).skip(n) =~= query);
}

} // verus!
