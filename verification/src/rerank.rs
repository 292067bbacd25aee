//! The reranker registry, and what a cross-encoder is shown of a document.
use crate::chars;
use crate::text;
use vstd::prelude::*;

verus! {

/// The reranker used when reranking is asked for and the configuration does not name one.
pub const DEFAULT_RERANKER: &'static str = "ms-marco-MiniLM-L-6-v2-int8";

/// Pairs per session run. Reranking happens once per committed query over about a hundred pairs, so
/// this only bounds activation memory.
pub const PAIR_BATCH: usize = 16;

/// Characters of a document the reranker ever sees. The signal for relevance is concentrated in the
/// head, and pair length dominates cost.
pub const DOC_CHAR_CAP: usize = 600;

/// A cross-encoder that can be fetched and run.
#[derive(Debug, Clone, Copy)]
pub struct RerankerSpec {
    pub id: &'static str,
    /// Repository it is fetched from.
    pub repo: &'static str,
    /// Path of the graph within the repository.
    pub onnx_path: &'static str,
    /// Path of the tokenizer within the repository.
    pub tokenizer_path: &'static str,
    /// Pinned digests, when known.
    pub onnx_hash: Option<&'static str>,
    pub tokenizer_hash: Option<&'static str>,
    /// Pairs are truncated to this many tokens.
    pub max_seq: usize,
    /// Approximate download size.
    pub approx_mb: u64,
    pub note: &'static str,
}

/// The known rerankers.
pub open spec fn rerankers() -> Seq<RerankerSpec> {
    seq![
        RerankerSpec {
            id: "ms-marco-MiniLM-L-6-v2-int8",
            repo: "Xenova/ms-marco-MiniLM-L-6-v2",
            onnx_path: "onnx/model_int8.onnx",
            tokenizer_path: "tokenizer.json",
            onnx_hash: None,
            tokenizer_hash: None,
            max_seq: 512,
            approx_mb: 22,
            note: "default; tiny, English, trained on MS MARCO relevance judgements",
        },
        RerankerSpec {
            id: "jina-reranker-v2-base-multilingual-int8",
            repo: "jinaai/jina-reranker-v2-base-multilingual",
            onnx_path: "onnx/model_int8.onnx",
            tokenizer_path: "tokenizer.json",
            onnx_hash: None,
            tokenizer_hash: None,
            max_seq: 1024,
            approx_mb: 267,
            note: "multilingual; ~12x the size and per-query cost of the default",
        },
    ]
}

/// The known rerankers.
pub fn reranker_registry() -> (r: Vec<RerankerSpec>)
    ensures
        r@ == rerankers(),
{
    let mut v: Vec<RerankerSpec> = Vec::new();
    v.push(
        RerankerSpec {
            id: "ms-marco-MiniLM-L-6-v2-int8",
            repo: "Xenova/ms-marco-MiniLM-L-6-v2",
            onnx_path: "onnx/model_int8.onnx",
            tokenizer_path: "tokenizer.json",
            onnx_hash: None,
            tokenizer_hash: None,
            max_seq: 512,
            approx_mb: 22,
            note: "default; tiny, English, trained on MS MARCO relevance judgements",
        },
    );
    v.push(
        RerankerSpec {
            id: "jina-reranker-v2-base-multilingual-int8",
            repo: "jinaai/jina-reranker-v2-base-multilingual",
            onnx_path: "onnx/model_int8.onnx",
            tokenizer_path: "tokenizer.json",
            onnx_hash: None,
            tokenizer_hash: None,
            max_seq: 1024,
            approx_mb: 267,
            note: "multilingual; ~12x the size and per-query cost of the default",
        },
    );
    proof {
        assert(v@ =~= rerankers());
    }
    v
}

/// The first of `specs` with that id.
pub open spec fn first_reranker(specs: Seq<RerankerSpec>, id: Seq<char>) -> Option<RerankerSpec>
    decreases specs.len(),
{
    if specs.len() == 0 {
        None
    } else if specs[0].id@ == id {
        Some(specs[0])
    } else {
        first_reranker(specs.drop_first(), id)
    }
}

/// The ids of the known rerankers, for an error message.
pub open spec fn reranker_ids(specs: Seq<RerankerSpec>) -> Seq<Seq<char>> {
    specs.map_values(|m: RerankerSpec| m.id@)
}

/// What the user is told about a reranker that is not registered.
pub open spec fn unknown_reranker(id: Seq<char>) -> Seq<char> {
    "unknown reranker `"@ + id + "`. Known rerankers: "@ + text::joined(
        reranker_ids(rerankers()),
        ", "@,
    )
}

/// Finds a reranker by id; the error is a message that lists the known ones.
pub fn lookup(id: &str) -> (r: Result<RerankerSpec, String>)
    ensures
        match r {
            Ok(m) => first_reranker(rerankers(), id@) == Some(m),
            Err(e) => first_reranker(rerankers(), id@) is None && e@ == unknown_reranker(id@),
        },
{
    let all = reranker_registry();
    let mut known: Vec<String> = Vec::new();
    let mut i: usize = 0;
    let ghost ids = reranker_ids(rerankers());
    proof {
        assert(rerankers().skip(0) =~= rerankers());
        assert(text::views(known@) =~= ids.take(0));
    }
    while i < all.len()
        invariant
            all@ == rerankers(),
            ids == reranker_ids(rerankers()),
            i <= all@.len(),
            first_reranker(rerankers(), id@) == first_reranker(rerankers().skip(i as int), id@),
            text::views(known@) == ids.take(i as int),
        decreases all@.len() - i,
    {
        if text::same(all[i].id, id) {
            return Ok(all[i]);
        }
        let s = all[i].id.to_owned();
        proof {
            assert(rerankers().skip(i as int).drop_first() =~= rerankers().skip(i + 1));
            text::lemma_views_push(known@, s);
            assert(ids.take(i + 1) =~= ids.take(i as int).push(s@));
        }
        known.push(s);
        i += 1;
    }
    proof {
        assert(ids.take(all@.len() as int) =~= ids);
    }
    let mut e = "unknown reranker `".to_owned();
    e.append(id);
    e.append("`. Known rerankers: ");
    e.append(text::join(&known, ", ").as_str());
    Err(e)
}

/// The head of a document, as much of it as the reranker sees.
pub fn capped(doc: &str) -> (r: String)
    ensures
        r@ == chars::first_chars(doc@, DOC_CHAR_CAP as nat),
{
    chars::take_chars(doc, DOC_CHAR_CAP)
}

/// Which reranker a search uses: none if it was switched off for this query; the one named for
/// this query; the configured one, if the configuration has one on; else the default, if
/// reranking was asked for.
pub open spec fn chosen_reranker(
    no_rerank: bool,
    rerank: bool,
    rerank_model: Option<Seq<char>>,
    configured: Seq<char>,
) -> Option<Seq<char>> {
    if no_rerank {
        None
    } else {
        match rerank_model {
            Some(m) => Some(m),
            None => if configured != "off"@ {
                Some(configured)
            } else if rerank {
                Some(DEFAULT_RERANKER@)
            } else {
                None
            },
        }
    }
}

/// Decides which reranker a search uses.
pub fn effective_reranker(
    no_rerank: bool,
    rerank: bool,
    rerank_model: &Option<String>,
    configured: &str,
) -> (r: Option<String>)
    ensures
        (match r {
            Some(s) => Some(s@),
            None => None,
        }) == chosen_reranker(
            no_rerank,
            rerank,
            match rerank_model {
                Some(m) => Some(m@),
                None => None,
            },
            configured@,
        ),
{
    if no_rerank {
        return None;
    }
    match rerank_model {
        Some(m) => Some(m.as_str().to_owned()),
        None => {
            if !text::same(configured, "off") {
                Some(configured.to_owned())
            } else if rerank {
                Some(DEFAULT_RERANKER.to_owned())
            } else {
                None
            }
        },
    }
}

/// Which column of a reranker's output is the relevance score: the only one, or, of a
/// classifier's, the second.
pub fn logit_column(cols: usize) -> (r: usize)
    ensures
        r == (if cols == 1 {
            0int
        } else {
            1
        }),
{
    if cols == 1 {
        0
    } else {
        1
    }
}

// ------------------------------------------------------------------ laws

/// Switching reranking off wins; then the model named for the query; then the configured one,
/// unless that is off; and the default where reranking is only asked for.
pub proof fn the_query_decides_before_the_configuration(
    rerank: bool,
    model: Option<Seq<char>>,
    m: Seq<char>,
    configured: Seq<char>,
)
    ensures
        chosen_reranker(true, rerank, model, configured) is None,
        chosen_reranker(false, rerank, Some(m), configured) == Some(m),
        configured != "off"@ ==> chosen_reranker(false, rerank, None, configured) == Some(
            configured,
        ),
        chosen_reranker(false, true, None, "off"@) == Some("ms-marco-MiniLM-L-6-v2-int8"@),
        chosen_reranker(false, false, None, "off"@) is None,
{
}

/// What the registry says of each reranker.
pub proof fn the_rerankers_are_these()
    ensures
        rerankers().len() == 2,
        rerankers()[0].id@ == "ms-marco-MiniLM-L-6-v2-int8"@,
        rerankers()[0].repo@ == "Xenova/ms-marco-MiniLM-L-6-v2"@,
        rerankers()[0].onnx_path@ == "onnx/model_int8.onnx"@,
        rerankers()[0].max_seq == 512,
        rerankers()[0].approx_mb == 22,
        rerankers()[1].id@ == "jina-reranker-v2-base-multilingual-int8"@,
        rerankers()[1].repo@ == "jinaai/jina-reranker-v2-base-multilingual"@,
        rerankers()[1].onnx_path@ == "onnx/model_int8.onnx"@,
        rerankers()[1].max_seq == 1024,
        rerankers()[1].approx_mb == 267,
        forall|i: int|
            0 <= i < 2 ==> (#[trigger] rerankers()[i]).tokenizer_path@ == "tokenizer.json"@,
        DOC_CHAR_CAP == 600,
        PAIR_BATCH == 16,
{
}

/// A reranker is found by its id: the first that has it, and none where none has.
pub proof fn a_reranker_is_found_by_its_id(specs: Seq<RerankerSpec>, id: Seq<char>, i: int)
    requires
        0 <= i < specs.len(),
        forall|j: int| 0 <= j < i ==> (#[trigger] specs[j]).id@ != id,
    ensures
        specs[i].id@ == id ==> first_reranker(specs, id) == Some(specs[i]),
        first_reranker(Seq::<RerankerSpec>::empty(), id) is None,
        (forall|j: int| 0 <= j < specs.len() ==> (#[trigger] specs[j]).id@ != id)
            ==> first_reranker(specs, id) is None,
    decreases specs.len(),
{
    let rest = specs.drop_first();
    assert forall|j: int| 0 <= j < rest.len() implies #[trigger] rest[j] == specs[j + 1] by {}
    if specs[0].id@ != id && rest.len() > 0 {
        let k = if i > 0 {
            i - 1
        } else {
            0
        };
        assert forall|j: int| 0 <= j < k implies (#[trigger] rest[j]).id@ != id by {
            assert(specs[j + 1].id@ != id);
        }
        a_reranker_is_found_by_its_id(rest, id, k);
        if forall|j: int| 0 <= j < specs.len() ==> (#[trigger] specs[j]).id@ != id {
            assert forall|j: int| 0 <= j < rest.len() implies (#[trigger] rest[j]).id@ != id by {
                assert(specs[j + 1].id@ != id);
            }
        }
    }
}

/// The ids that a message lists are those of the rerankers, in order.
pub proof fn the_known_rerankers_are_listed(specs: Seq<RerankerSpec>, i: int)
    requires
        0 <= i < specs.len(),
    ensures
        reranker_ids(specs).len() == specs.len(),
        reranker_ids(specs)[i] == specs[i].id@,
{
}

} // verus!
