//! What a tokenizer is set to, and whether it can be used. A tokenizer is read from a file, and
//! some settings make it panic on some text; they are looked for before any text is encoded.
use crate::chars;
use crate::charsmap;
use tokenizers::{ModelWrapper, NormalizerWrapper, PostProcessorWrapper, PreTokenizerWrapper};
use vstd::prelude::*;

verus! {

#[verifier::external_type_specification]
#[verifier::external_body]
pub struct ExTokenizer(tokenizers::Tokenizer);

#[verifier::external_type_specification]
#[verifier::external_body]
pub struct ExNormalizer(tokenizers::NormalizerWrapper);

#[verifier::external_type_specification]
#[verifier::external_body]
pub struct ExPreTokenizer(tokenizers::PreTokenizerWrapper);

#[verifier::external_type_specification]
#[verifier::external_body]
pub struct ExPostProcessor(tokenizers::PostProcessorWrapper);

// ------------------------------------------------------------------ rewriting

/// How a step rewrites a text before it is split.
#[derive(Debug, Clone, Copy, PartialEq, Eq, Structural)]
pub enum Rewriting {
    /// Character by character, in a fixed way.
    Plain,
    /// By a map that comes with the tokenizer.
    Table,
    /// What matches a pattern.
    Pattern,
    /// By putting a text before it.
    Prefix,
    /// In several steps.
    Chain,
}

/// A pattern to look for.
pub struct Pattern {
    /// Whether it is a regular expression, rather than a text.
    pub regex: bool,
    pub text: String,
}

/// A pattern as mathematical values.
pub struct PatternView {
    pub regex: bool,
    pub text: Seq<char>,
}

impl View for Pattern {
    type V = PatternView;

    open spec fn view(&self) -> PatternView {
        PatternView { regex: self.regex, text: self.text@ }
    }
}

/// The steps in which a tokenizer rewrites a text, as `Tokenizer::get_normalizer` gives them: none
/// without a normalizer, those of a sequence, else the one there is.
pub uninterp spec fn rewriting_steps(t: tokenizers::Tokenizer) -> Seq<NormalizerWrapper>;

/// Calls `tokenizers::Tokenizer::get_normalizer`: the normalizers, one by one.
#[verifier::external_body]
fn normalizers_of<'a>(t: &'a tokenizers::Tokenizer) -> (r: Vec<&'a NormalizerWrapper>)
    ensures
        r@.len() == rewriting_steps(*t).len(),
        forall|i: int| 0 <= i < r@.len() ==> *(#[trigger] r@[i]) == rewriting_steps(*t)[i],
{
    match t.get_normalizer() {
        None => Vec::new(),
        Some(NormalizerWrapper::Sequence(s)) => s.as_ref().iter().collect(),
        Some(n) => vec![n],
    }
}

/// The kind of a normalizer.
pub uninterp spec fn rewriting_kind(n: NormalizerWrapper) -> Rewriting;

/// Tells the variants of `tokenizers::NormalizerWrapper` apart.
#[verifier::external_body]
fn rewriting_of(n: &NormalizerWrapper) -> (r: Rewriting)
    ensures
        r == rewriting_kind(*n),
{
    match n {
        NormalizerWrapper::Precompiled(_) => Rewriting::Table,
        NormalizerWrapper::Replace(_) => Rewriting::Pattern,
        NormalizerWrapper::Prepend(_) => Rewriting::Prefix,
        NormalizerWrapper::Sequence(_) => Rewriting::Chain,
        NormalizerWrapper::BertNormalizer(_) | NormalizerWrapper::ByteLevel(_) => Rewriting::Plain,
        NormalizerWrapper::StripNormalizer(_) | NormalizerWrapper::Nmt(_) => Rewriting::Plain,
        NormalizerWrapper::StripAccents(_) | NormalizerWrapper::Lowercase(_) => Rewriting::Plain,
        NormalizerWrapper::NFC(_) | NormalizerWrapper::NFD(_) => Rewriting::Plain,
        NormalizerWrapper::NFKC(_) | NormalizerWrapper::NFKD(_) => Rewriting::Plain,
    }
}

/// The map of a normalizer, in base64, as it is written to a file; `None` without one.
pub uninterp spec fn map_written(n: NormalizerWrapper) -> Option<Seq<char>>;

/// Calls `toml::Value::try_from` on a normalizer with a map, which writes the map in base64.
#[verifier::external_body]
fn written_map(n: &NormalizerWrapper) -> (r: Option<String>)
    ensures
        match r {
            Some(s) => map_written(*n) == Some(s@),
            None => map_written(*n) is None,
        },
{
    match n {
        NormalizerWrapper::Precompiled(p) => toml::Value::try_from(p)
            .ok()?
            .get("precompiled_charsmap")?
            .as_str()
            .map(|s| s.to_owned()),
        _ => None,
    }
}

/// The pattern of a normalizer, as it is written to a file; `None` without one.
pub uninterp spec fn pattern_written(n: NormalizerWrapper) -> Option<PatternView>;

/// Calls `toml::Value::try_from` on a normalizer with a pattern, which writes the pattern, and
/// whether it is a regular expression.
#[verifier::external_body]
fn written_pattern(n: &NormalizerWrapper) -> (r: Option<Pattern>)
    ensures
        match r {
            Some(p) => pattern_written(*n) == Some(p@),
            None => pattern_written(*n) is None,
        },
{
    let NormalizerWrapper::Replace(p) = n else { return None };
    let v = toml::Value::try_from(p).ok()?;
    let pattern = v.get("pattern")?;
    match pattern.get("String") {
        Some(s) => Some(Pattern { regex: false, text: s.as_str()?.to_owned() }),
        None => Some(Pattern { regex: true, text: pattern.get("Regex")?.as_str()?.to_owned() }),
    }
}

/// The text that a normalizer puts before another; `None` where it puts none.
pub uninterp spec fn prefix_set(n: NormalizerWrapper) -> Option<Seq<char>>;

/// Reads the public field of `tokenizers::normalizers::Prepend`.
#[verifier::external_body]
fn prefix_of(n: &NormalizerWrapper) -> (r: Option<String>)
    ensures
        match r {
            Some(s) => prefix_set(*n) == Some(s@),
            None => prefix_set(*n) is None,
        },
{
    match n {
        NormalizerWrapper::Prepend(p) => Some(p.prepend.clone()),
        _ => None,
    }
}

/// Whether a pattern always matches from its start to its end. One that may move the start of a
/// match, by `\K`, may end before it starts.
pub open spec fn matches_forward(pattern: Seq<char>) -> bool {
    !chars::has_substring(pattern, "\\K"@)
}

/// Whether a step can do its work on every text, by itself.
pub open spec fn rewrites_well(n: NormalizerWrapper) -> bool {
    match rewriting_kind(n) {
        Rewriting::Plain => true,
        Rewriting::Table => map_written(n) matches Some(s) && charsmap::is_base64(s)
            && charsmap::is_sound(charsmap::decoded(s)),
        Rewriting::Pattern => pattern_written(n) matches Some(p) && matches_forward(p.text),
        Rewriting::Prefix => prefix_set(n) is Some,
        Rewriting::Chain => false,
    }
}

/// Whether a step may begin a text with a character that stands for none of the original: one that
/// replaces what may be empty, or that puts nothing before it.
pub open spec fn loosens(n: NormalizerWrapper) -> bool {
    match rewriting_kind(n) {
        Rewriting::Pattern => pattern_written(n) matches Some(p) && (p.regex || p.text.len() == 0),
        Rewriting::Prefix => prefix_set(n) matches Some(s) && s.len() == 0,
        _ => false,
    }
}

/// Whether a step needs every character to stand for one of the original.
pub open spec fn needs_ties(n: NormalizerWrapper) -> bool {
    rewriting_kind(n) == Rewriting::Plain || rewriting_kind(n) == Rewriting::Table
}

/// Whether some step may begin a text with a character that stands for none of the original.
pub open spec fn any_loosens(steps: Seq<NormalizerWrapper>) -> bool {
    exists|i: int| 0 <= i < steps.len() && loosens(#[trigger] steps[i])
}

/// Whether the steps can be taken one after the other on every text.
pub open spec fn rewrites_all(steps: Seq<NormalizerWrapper>) -> bool {
    &&& forall|i: int| 0 <= i < steps.len() ==> rewrites_well(#[trigger] steps[i])
    &&& forall|i: int, j: int|
        0 <= i < j < steps.len() && loosens(#[trigger] steps[i]) ==> !needs_ties(#[trigger] steps[j])
}

/// Whether a pattern always matches from its start to its end.
fn is_forward(pattern: &str) -> (r: bool)
    ensures
        r == matches_forward(pattern@),
{
    !chars::contains(pattern, "\\K")
}

/// Whether a step can do its work on every text, and whether it loosens what it works on.
fn look_at_rewriting(n: &NormalizerWrapper) -> (r: (bool, bool))
    ensures
        r.0 == rewrites_well(*n),
        r.1 == loosens(*n),
{
    match rewriting_of(n) {
        Rewriting::Plain => (true, false),
        Rewriting::Chain => (false, false),
        Rewriting::Table => match written_map(n) {
            None => (false, false),
            Some(s) => match charsmap::decode(s.as_str()) {
                None => (false, false),
                Some(map) => (charsmap::sound(&map), false),
            },
        },
        Rewriting::Pattern => match written_pattern(n) {
            None => (false, false),
            Some(p) => (is_forward(p.text.as_str()), p.regex || p.text.as_str().is_empty()),
        },
        Rewriting::Prefix => match prefix_of(n) {
            None => (false, false),
            Some(s) => (true, s.as_str().is_empty()),
        },
    }
}

/// Whether the steps can be taken one after the other on every text, and whether any loosens it.
fn look_at_rewritings(t: &tokenizers::Tokenizer) -> (r: (bool, bool))
    ensures
        r.0 == rewrites_all(rewriting_steps(*t)),
        r.0 ==> r.1 == any_loosens(rewriting_steps(*t)),
{
    let steps = normalizers_of(t);
    let ghost all = rewriting_steps(*t);
    let mut loose = false;
    let mut i: usize = 0;
    while i < steps.len()
        invariant
            all == rewriting_steps(*t),
            steps@.len() == all.len(),
            forall|i: int| 0 <= i < all.len() ==> *(#[trigger] steps@[i]) == all[i],
            i <= all.len(),
            loose == any_loosens(all.take(i as int)),
            rewrites_all(all.take(i as int)),
        decreases all.len() - i,
    {
        let n = steps[i];
        let (well, loosens_here) = look_at_rewriting(n);
        let tied = match rewriting_of(n) {
            Rewriting::Plain => true,
            Rewriting::Table => true,
            _ => false,
        };
        proof {
            assert(*n == all[i as int]);
            assert(tied == needs_ties(all[i as int]));
            if loose && tied {
                let before = all.take(i as int);
                let k = choose|k: int| 0 <= k < before.len() && loosens(#[trigger] before[k]);
                assert(loosens(all[k]) && needs_ties(all[i as int]));
            }
        }
        if !well || (loose && tied) {
            return (false, false);
        }
        proof {
            let before = all.take(i as int);
            let now = all.take(i + 1);
            assert forall|k: int| 0 <= k < i implies #[trigger] now[k] == before[k] by {}
            assert(now[i as int] == all[i as int]);
            if loosens_here {
                assert(loosens(now[i as int]));
            }
            if loose {
                let k = choose|k: int| 0 <= k < before.len() && loosens(#[trigger] before[k]);
                assert(loosens(now[k]));
            }
            if any_loosens(now) && !loosens_here {
                let k = choose|k: int| 0 <= k < now.len() && loosens(#[trigger] now[k]);
                assert(loosens(before[k]));
            }
            assert forall|a: int, b: int|
                0 <= a < b < now.len() && loosens(#[trigger] now[a]) implies !needs_ties(
                #[trigger] now[b],
            ) by {
                assert(loosens(before[a]));
                if b < i {
                    assert(!needs_ties(before[b]));
                }
            }
        }
        loose = loose || loosens_here;
        i += 1;
    }
    proof {
        assert(all.take(all.len() as int) =~= all);
    }
    (true, loose)
}

// ------------------------------------------------------------------ splitting

/// How a step splits a text into words.
#[derive(Debug, Clone, Copy, PartialEq, Eq, Structural)]
pub enum Splitting {
    /// At characters of some kind.
    Plain,
    /// Into bytes, each written as a character.
    Bytes,
    /// At what matches a pattern.
    Pattern,
    /// Into pieces of this many characters.
    Fixed { length: usize },
    /// In several steps.
    Chain,
}

/// The steps in which a tokenizer splits a text, as `Tokenizer::get_pre_tokenizer` gives them: none
/// without a pre-tokenizer, those of a sequence, else the one there is.
pub uninterp spec fn splitting_steps(t: tokenizers::Tokenizer) -> Seq<PreTokenizerWrapper>;

/// Calls `tokenizers::Tokenizer::get_pre_tokenizer`: the pre-tokenizers, one by one.
#[verifier::external_body]
fn pre_tokenizers_of<'a>(t: &'a tokenizers::Tokenizer) -> (r: Vec<&'a PreTokenizerWrapper>)
    ensures
        r@.len() == splitting_steps(*t).len(),
        forall|i: int| 0 <= i < r@.len() ==> *(#[trigger] r@[i]) == splitting_steps(*t)[i],
{
    match t.get_pre_tokenizer() {
        None => Vec::new(),
        Some(PreTokenizerWrapper::Sequence(s)) => s.as_ref().iter().collect(),
        Some(p) => vec![p],
    }
}

/// The kind of a pre-tokenizer.
pub uninterp spec fn splitting_kind(p: PreTokenizerWrapper) -> Splitting;

/// Tells the variants of `tokenizers::PreTokenizerWrapper` apart.
#[verifier::external_body]
fn splitting_of(p: &PreTokenizerWrapper) -> (r: Splitting)
    ensures
        r == splitting_kind(*p),
{
    match p {
        PreTokenizerWrapper::ByteLevel(_) => Splitting::Bytes,
        PreTokenizerWrapper::Split(_) => Splitting::Pattern,
        PreTokenizerWrapper::FixedLength(f) => Splitting::Fixed { length: f.length },
        PreTokenizerWrapper::Sequence(_) => Splitting::Chain,
        PreTokenizerWrapper::BertPreTokenizer(_) => Splitting::Plain,
        PreTokenizerWrapper::Delimiter(_) | PreTokenizerWrapper::Metaspace(_) => Splitting::Plain,
        PreTokenizerWrapper::Whitespace(_) | PreTokenizerWrapper::Digits(_) => Splitting::Plain,
        PreTokenizerWrapper::WhitespaceSplit(_) => Splitting::Plain,
        PreTokenizerWrapper::Punctuation(_) => Splitting::Plain,
        PreTokenizerWrapper::UnicodeScripts(_) => Splitting::Plain,
    }
}

/// The pattern that a pre-tokenizer splits at, whether text or regular expression; empty without
/// one.
pub uninterp spec fn split_pattern(p: PreTokenizerWrapper) -> Seq<char>;

/// Reads the public field of `tokenizers::pre_tokenizers::split::Split` that holds its pattern.
#[verifier::external_body]
fn split_pattern_of(p: &PreTokenizerWrapper) -> (r: String)
    ensures
        r@ == split_pattern(*p),
{
    match p {
        PreTokenizerWrapper::Split(s) => match &s.pattern {
            tokenizers::pre_tokenizers::split::SplitPattern::String(t) => t.clone(),
            tokenizers::pre_tokenizers::split::SplitPattern::Regex(t) => t.clone(),
        },
        _ => String::new(),
    }
}

/// Whether a step can split every text, where `loose` says that a text may begin with a character
/// that stands for none of the original.
pub open spec fn splits_well(p: PreTokenizerWrapper, loose: bool) -> bool {
    match splitting_kind(p) {
        Splitting::Plain => true,
        Splitting::Bytes => !loose,
        Splitting::Pattern => matches_forward(split_pattern(p)),
        Splitting::Fixed { length } => length > 0,
        Splitting::Chain => false,
    }
}

/// Whether the steps can split every text.
pub open spec fn splits_all(steps: Seq<PreTokenizerWrapper>, loose: bool) -> bool {
    forall|i: int| 0 <= i < steps.len() ==> splits_well(#[trigger] steps[i], loose)
}

/// Whether a tokenizer's steps can split every text.
fn look_at_splittings(t: &tokenizers::Tokenizer, loose: bool) -> (r: bool)
    ensures
        r == splits_all(splitting_steps(*t), loose),
{
    let steps = pre_tokenizers_of(t);
    let ghost all = splitting_steps(*t);
    let mut i: usize = 0;
    while i < steps.len()
        invariant
            all == splitting_steps(*t),
            steps@.len() == all.len(),
            forall|i: int| 0 <= i < all.len() ==> *(#[trigger] steps@[i]) == all[i],
            i <= all.len(),
            forall|k: int| 0 <= k < i ==> splits_well(#[trigger] all[k], loose),
        decreases all.len() - i,
    {
        let p = steps[i];
        let well = match splitting_of(p) {
            Splitting::Plain => true,
            Splitting::Bytes => !loose,
            Splitting::Pattern => is_forward(split_pattern_of(p).as_str()),
            Splitting::Fixed { length } => length > 0,
            Splitting::Chain => false,
        };
        proof {
            assert(*p == all[i as int]);
            assert(well == splits_well(all[i as int], loose));
        }
        if !well {
            return false;
        }
        i += 1;
    }
    true
}

// ------------------------------------------------------------------ added tokens

/// A token that is looked for in a text by itself.
pub struct Mark {
    pub content: String,
    /// Whether it is looked for in texts that were rewritten.
    pub rewritten: bool,
    /// The content once it was rewritten itself.
    pub written: Option<String>,
    /// Whether the white space to its left belongs to it.
    pub left: bool,
    /// Whether the white space to its right belongs to it.
    pub right: bool,
}

/// An added token as mathematical values.
pub struct MarkView {
    pub content: Seq<char>,
    pub rewritten: bool,
    pub written: Option<Seq<char>>,
    pub left: bool,
    pub right: bool,
}

impl View for Mark {
    type V = MarkView;

    open spec fn view(&self) -> MarkView {
        MarkView {
            content: self.content@,
            rewritten: self.rewritten,
            written: match self.written {
                Some(s) => Some(s@),
                None => None,
            },
            left: self.left,
            right: self.right,
        }
    }
}

/// The added tokens among `v`.
pub open spec fn mark_views(v: Seq<Mark>) -> Seq<MarkView> {
    v.map_values(|m: Mark| m@)
}

/// The added tokens of a tokenizer, as `AddedVocabulary::get_added_tokens_decoder` gives them.
pub uninterp spec fn marks_added(t: tokenizers::Tokenizer) -> Set<MarkView>;

/// Calls `tokenizers::AddedVocabulary::get_added_tokens_decoder`: the added tokens, in no order;
/// and for each `AddedVocabulary::simple_id_to_token`, which gives its content rewritten.
#[verifier::external_body]
fn added_marks(t: &tokenizers::Tokenizer) -> (r: Vec<Mark>)
    ensures
        mark_views(r@).to_set() == marks_added(*t),
{
    let all = t.get_added_vocabulary();
    all.get_added_tokens_decoder().iter().map(|(id, a)| Mark {
        content: a.content.clone(),
        rewritten: a.normalized,
        written: all.simple_id_to_token(*id),
        left: a.lstrip,
        right: a.rstrip,
    }).collect()
}

/// What is looked for.
pub open spec fn sought(m: MarkView) -> Seq<char> {
    match m.written {
        Some(s) if m.rewritten => s,
        _ => m.content,
    }
}

/// Whether a token is white space, and takes more of it to its left only.
pub open spec fn reaches_back(m: MarkView) -> bool {
    m.left && !m.right && chars::all_whitespace(sought(m))
}

/// Whether every token can be looked for: there is something to look for, and none can end before
/// it starts, since none takes the white space to its right, or none that lies within it reaches
/// back.
pub open spec fn marks_apart(t: tokenizers::Tokenizer) -> bool {
    &&& forall|m: MarkView| #[trigger] marks_added(t).contains(m) ==> sought(m).len() > 0
    &&& {
        ||| forall|m: MarkView| #[trigger] marks_added(t).contains(m) ==> !m.right
        ||| forall|m: MarkView| #[trigger] marks_added(t).contains(m) ==> !reaches_back(m)
    }
}

/// Whether every added token can be looked for.
fn look_at_marks(t: &tokenizers::Tokenizer) -> (r: bool)
    ensures
        r == marks_apart(*t),
{
    let marks = added_marks(t);
    let ghost all = mark_views(marks@);
    let mut empty = false;
    let mut right = false;
    let mut back = false;
    let mut i: usize = 0;
    while i < marks.len()
        invariant
            all == mark_views(marks@),
            all.len() == marks@.len(),
            i <= marks@.len(),
            empty == exists|k: int| 0 <= k < i && sought(#[trigger] all[k]).len() == 0,
            right == exists|k: int| 0 <= k < i && (#[trigger] all[k]).right,
            back == exists|k: int| 0 <= k < i && reaches_back(#[trigger] all[k]),
        decreases marks@.len() - i,
    {
        let m = &marks[i];
        proof {
            assert(all[i as int] == m@);
        }
        let s: &str = match &m.written {
            Some(s) if m.rewritten => s.as_str(),
            _ => m.content.as_str(),
        };
        if s.is_empty() {
            empty = true;
        }
        if m.right {
            right = true;
        }
        if m.left && !m.right && chars::is_all_whitespace(s) {
            back = true;
        }
        i += 1;
    }
    proof {
        let set = marks_added(*t);
        assert(set == all.to_set());
        assert forall|k: int| 0 <= k < all.len() implies set.contains(#[trigger] all[k]) by {}
        assert forall|m: MarkView| #[trigger] set.contains(m) implies exists|k: int|
            0 <= k < all.len() && #[trigger] all[k] == m by {
            assert(all.contains(m));
        }
    }
    !empty && (!right || !back)
}

// ------------------------------------------------------------------ the model

/// Whether a tokenizer's model draws one of several ways to cut a word, by chance.
pub uninterp spec fn draws(t: tokenizers::Tokenizer) -> bool;

/// Calls `tokenizers::Tokenizer::get_model`: whether it is a unigram model that is set to sample.
#[verifier::external_body]
fn draws_by_chance(t: &tokenizers::Tokenizer) -> (r: bool)
    ensures
        r == draws(*t),
{
    match t.get_model() {
        ModelWrapper::Unigram(m) => m.alpha.is_some(),
        _ => false,
    }
}

// ------------------------------------------------------------------ special tokens

/// How a step adds special tokens.
#[derive(Debug, Clone, Copy, PartialEq, Eq, Structural)]
pub enum Processing {
    /// In one of the fixed ways of a model family.
    Family,
    /// By a template.
    Template,
    /// In several steps.
    Chain,
}

/// The steps in which a tokenizer adds special tokens, as `Tokenizer::get_post_processor` gives
/// them: none without a post-processor, those of a sequence, else the one there is.
pub uninterp spec fn processing_steps(t: tokenizers::Tokenizer) -> Seq<PostProcessorWrapper>;

/// Calls `tokenizers::Tokenizer::get_post_processor`: the post-processors, one by one.
#[verifier::external_body]
fn post_processors_of<'a>(t: &'a tokenizers::Tokenizer) -> (r: Vec<&'a PostProcessorWrapper>)
    ensures
        r@.len() == processing_steps(*t).len(),
        forall|i: int| 0 <= i < r@.len() ==> *(#[trigger] r@[i]) == processing_steps(*t)[i],
{
    match t.get_post_processor() {
        None => Vec::new(),
        Some(PostProcessorWrapper::Sequence(s)) => s.as_ref().iter().collect(),
        Some(p) => vec![p],
    }
}

/// The kind of a post-processor.
pub uninterp spec fn processing_kind(p: PostProcessorWrapper) -> Processing;

/// Tells the variants of `tokenizers::PostProcessorWrapper` apart.
#[verifier::external_body]
fn processing_of(p: &PostProcessorWrapper) -> (r: Processing)
    ensures
        r == processing_kind(*p),
{
    match p {
        PostProcessorWrapper::Bert(_) => Processing::Family,
        PostProcessorWrapper::Roberta(_) => Processing::Family,
        PostProcessorWrapper::ByteLevel(_) => Processing::Family,
        PostProcessorWrapper::Template(_) => Processing::Template,
        PostProcessorWrapper::Sequence(_) => Processing::Chain,
    }
}

/// How many special tokens a step adds to a text, or to a pair, as `PostProcessor::added_tokens`
/// gives it.
pub uninterp spec fn tokens_added(p: PostProcessorWrapper, pair: bool) -> usize;

/// Calls `tokenizers::PostProcessor::added_tokens`: how many special tokens a text, or a pair,
/// gets. A sequence is left out, since it adds up the counts of its members unchecked.
#[verifier::external_body]
fn added_tokens(p: &PostProcessorWrapper, pair: bool) -> (r: usize)
    requires
        processing_kind(*p) != Processing::Chain,
    ensures
        r == tokens_added(*p, pair),
{
    tokenizers::PostProcessor::added_tokens(p, pair)
}

/// Whether every special token that a template for texts names is one it knows; so without one.
pub uninterp spec fn knows_of_texts(p: PostProcessorWrapper) -> bool;

/// Calls `TemplateProcessingBuilder::build` on the template for texts and its special tokens: it
/// succeeds exactly where all that the template names are there.
#[verifier::external_body]
fn text_template_known(p: &PostProcessorWrapper) -> (r: bool)
    ensures
        r == knows_of_texts(*p),
{
    match p {
        PostProcessorWrapper::Template(t) => {
            tokenizers::processors::template::TemplateProcessing::builder()
                .single(t.single.clone())
                .special_tokens(t.get_special_tokens().clone())
                .build()
                .is_ok()
        },
        _ => true,
    }
}

/// Whether every special token that a template for pairs names is one it knows; so without one.
pub uninterp spec fn knows_of_pairs(p: PostProcessorWrapper) -> bool;

/// Calls `TemplateProcessingBuilder::build` on the template for pairs, taken as a template, and its
/// special tokens: it succeeds exactly where all that the template names are there.
#[verifier::external_body]
fn pair_template_known(p: &PostProcessorWrapper) -> (r: bool)
    ensures
        r == knows_of_pairs(*p),
{
    match p {
        PostProcessorWrapper::Template(t) => {
            tokenizers::processors::template::TemplateProcessing::builder()
                .single(t.get_pair().clone())
                .special_tokens(t.get_special_tokens().clone())
                .build()
                .is_ok()
        },
        _ => true,
    }
}

/// A template for texts, as `TemplateProcessing::get_single` writes it: its pieces, one for each
/// special token and each text. Nothing without a template.
pub uninterp spec fn template_written(p: PostProcessorWrapper) -> Seq<char>;

/// Calls `TemplateProcessing::get_single`: the template for texts, written out.
#[verifier::external_body]
fn written_template(p: &PostProcessorWrapper) -> (r: String)
    ensures
        r@ == template_written(*p),
{
    match p {
        PostProcessorWrapper::Template(t) => t.get_single(),
        _ => String::new(),
    }
}

/// Whether a step can add special tokens to every text, or pair: its template names none that it
/// does not know, and, for a text, no second text.
pub open spec fn processes_well(p: PostProcessorWrapper, pair: bool) -> bool {
    &&& processing_kind(p) != Processing::Chain
    &&& if pair {
        knows_of_pairs(p)
    } else {
        knows_of_texts(p) && !chars::has_substring(template_written(p), "Sequence { id: B"@)
    }
}

/// Whether the steps can add special tokens one after the other. A template takes one text or a
/// pair, and may leave more, so there is one at most.
pub open spec fn processes_all(steps: Seq<PostProcessorWrapper>, pair: bool) -> bool {
    &&& forall|i: int| 0 <= i < steps.len() ==> processes_well(#[trigger] steps[i], pair)
    &&& forall|i: int, j: int|
        0 <= i < j < steps.len() && processing_kind(#[trigger] steps[i]) == Processing::Template
            ==> processing_kind(#[trigger] steps[j]) != Processing::Template
}

/// How many special tokens the steps add.
pub open spec fn added_by(steps: Seq<PostProcessorWrapper>, pair: bool) -> int
    decreases steps.len(),
{
    if steps.len() == 0 {
        0
    } else {
        added_by(steps.drop_last(), pair) + tokens_added(steps.last(), pair)
    }
}

/// Whether none of the steps is a sequence itself.
pub open spec fn flat(steps: Seq<PostProcessorWrapper>) -> bool {
    forall|i: int|
        0 <= i < steps.len() ==> processing_kind(#[trigger] steps[i]) != Processing::Chain
}

/// How many special tokens a tokenizer adds; `None` where a step is a sequence itself, or they are
/// more than can be counted.
fn count_added(t: &tokenizers::Tokenizer, pair: bool) -> (r: Option<usize>)
    ensures
        match r {
            Some(n) => flat(processing_steps(*t)) && n == added_by(processing_steps(*t), pair),
            None => !flat(processing_steps(*t)) || added_by(processing_steps(*t), pair)
                > usize::MAX,
        },
{
    let steps = post_processors_of(t);
    let ghost all = processing_steps(*t);
    let mut sum: Option<usize> = Some(0);
    let mut i: usize = 0;
    while i < steps.len()
        invariant
            all == processing_steps(*t),
            steps@.len() == all.len(),
            forall|i: int| 0 <= i < all.len() ==> *(#[trigger] steps@[i]) == all[i],
            i <= all.len(),
            forall|k: int|
                0 <= k < i ==> processing_kind(#[trigger] all[k]) != Processing::Chain,
            0 <= added_by(all.take(i as int), pair),
            match sum {
                Some(n) => n == added_by(all.take(i as int), pair),
                None => added_by(all.take(i as int), pair) > usize::MAX,
            },
        decreases all.len() - i,
    {
        let p = steps[i];
        proof {
            assert(*p == all[i as int]);
            assert(all.take(i + 1).drop_last() =~= all.take(i as int));
        }
        if processing_of(p) == Processing::Chain {
            return None;
        }
        let n: usize = added_tokens(p, pair);
        sum = match sum {
            Some(m) => if n <= usize::MAX - m {
                Some(m + n)
            } else {
                None
            },
            None => None,
        };
        i += 1;
    }
    proof {
        assert(all.take(all.len() as int) =~= all);
    }
    sum
}

/// Whether a tokenizer's steps can add special tokens to every text, or pair.
fn look_at_processings(t: &tokenizers::Tokenizer, pair: bool) -> (r: bool)
    ensures
        r == processes_all(processing_steps(*t), pair),
{
    let steps = post_processors_of(t);
    let ghost all = processing_steps(*t);
    let mut template = false;
    let mut i: usize = 0;
    while i < steps.len()
        invariant
            all == processing_steps(*t),
            steps@.len() == all.len(),
            forall|i: int| 0 <= i < all.len() ==> *(#[trigger] steps@[i]) == all[i],
            i <= all.len(),
            forall|k: int| 0 <= k < i ==> processes_well(#[trigger] all[k], pair),
            template == exists|k: int|
                0 <= k < i && processing_kind(#[trigger] all[k]) == Processing::Template,
            forall|a: int, b: int|
                0 <= a < b < i && processing_kind(#[trigger] all[a]) == Processing::Template
                    ==> processing_kind(#[trigger] all[b]) != Processing::Template,
        decreases all.len() - i,
    {
        let p = steps[i];
        let kind = processing_of(p);
        let well = kind != Processing::Chain && if pair {
            pair_template_known(p)
        } else {
            text_template_known(p) && !chars::contains(
                written_template(p).as_str(),
                "Sequence { id: B",
            )
        };
        let again = template && kind == Processing::Template;
        proof {
            assert(*p == all[i as int]);
            assert(well == processes_well(all[i as int], pair));
            assert(kind == processing_kind(all[i as int]));
        }
        if !well || again {
            return false;
        }
        if kind == Processing::Template {
            template = true;
        }
        i += 1;
    }
    true
}

// ------------------------------------------------------------------ lengths

/// How a tokenizer shortens what is too long.
#[derive(Debug, Clone, Copy, PartialEq, Eq, Structural)]
pub struct Truncation {
    pub max_length: usize,
    /// How far the parts overlap that an overlong text is cut into.
    pub stride: usize,
    /// Whether the longer text of a pair is shortened first, rather than always the same one.
    pub longest_first: bool,
}

/// How a tokenizer lengthens what is too short.
#[derive(Debug, Clone, Copy, PartialEq, Eq, Structural)]
pub struct Padding {
    /// The length to reach; without one, that of the longest text of a batch.
    pub fixed: Option<usize>,
    /// The length becomes a multiple of this.
    pub multiple: Option<usize>,
}

/// The truncation that a tokenizer is set to, as `Tokenizer::get_truncation` gives it.
pub uninterp spec fn truncation_set(t: tokenizers::Tokenizer) -> Option<Truncation>;

/// Calls `tokenizers::Tokenizer::get_truncation`: the truncation the tokenizer is set to.
#[verifier::external_body]
fn truncation_of(t: &tokenizers::Tokenizer) -> (r: Option<Truncation>)
    ensures
        r == truncation_set(*t),
{
    t.get_truncation().map(|p| Truncation {
        max_length: p.max_length,
        stride: p.stride,
        longest_first: matches!(p.strategy, tokenizers::TruncationStrategy::LongestFirst),
    })
}

/// The padding that a tokenizer is set to, as `Tokenizer::get_padding` gives it.
pub uninterp spec fn padding_set(t: tokenizers::Tokenizer) -> Option<Padding>;

/// Calls `tokenizers::Tokenizer::get_padding`: the padding the tokenizer is set to.
#[verifier::external_body]
fn padding_of(t: &tokenizers::Tokenizer) -> (r: Option<Padding>)
    ensures
        r == padding_set(*t),
{
    t.get_padding().map(|p| Padding {
        fixed: match p.strategy {
            tokenizers::PaddingStrategy::Fixed(n) => Some(n),
            tokenizers::PaddingStrategy::BatchLongest => None,
        },
        multiple: p.pad_to_multiple_of,
    })
}

/// Whether two tokenizers differ in nothing but their truncation.
pub open spec fn same_but_truncation(a: tokenizers::Tokenizer, b: tokenizers::Tokenizer) -> bool {
    &&& rewriting_steps(a) == rewriting_steps(b)
    &&& splitting_steps(a) == splitting_steps(b)
    &&& processing_steps(a) == processing_steps(b)
    &&& marks_added(a) == marks_added(b)
    &&& draws(a) == draws(b)
    &&& padding_set(a) == padding_set(b)
}

/// What truncation at `max_length` is for pairs: the longer text is shortened first, and the parts
/// do not overlap.
pub open spec fn cut_at(max_length: usize) -> Truncation {
    Truncation { max_length, stride: 0, longest_first: true }
}

/// Calls `tokenizers::Tokenizer::with_truncation`, which sets the truncation and nothing else. It
/// subtracts the special tokens of a text from the length unchecked, so there has to be room for
/// them; it refuses a stride above what remains, and there is none.
#[verifier::external_body]
fn set_truncation(t: &mut tokenizers::Tokenizer, max_length: usize) -> (r: Result<(), String>)
    requires
        flat(processing_steps(*old(t))),
        added_by(processing_steps(*old(t)), false) <= max_length,
    ensures
        r is Ok,
        truncation_set(*final(t)) == Some(cut_at(max_length)),
        same_but_truncation(*final(t), *old(t)),
{
    let params = tokenizers::TruncationParams {
        max_length,
        stride: 0,
        strategy: tokenizers::TruncationStrategy::LongestFirst,
        ..Default::default()
    };
    t.with_truncation(Some(params)).map(|_| ()).map_err(|e| e.to_string())
}

/// Whether there is room for a tokenizer's special tokens within `max_length`.
pub open spec fn room_for_added(t: tokenizers::Tokenizer, max_length: usize) -> bool {
    &&& flat(processing_steps(t))
    &&& added_by(processing_steps(t), false) <= max_length
}

/// Sets a tokenizer to cut pairs at `max_length`. Says whether there was room for its special
/// tokens; if not, nothing is set.
pub fn cut_pairs(t: &mut tokenizers::Tokenizer, max_length: usize) -> (r: Result<(), String>)
    ensures
        match r {
            Ok(_) => {
                &&& room_for_added(*old(t), max_length)
                &&& truncation_set(*final(t)) == Some(cut_at(max_length))
                &&& same_but_truncation(*final(t), *old(t))
            },
            Err(m) => {
                &&& !room_for_added(*old(t), max_length)
                &&& m@ == "configuring truncation: no room for the special tokens"@
                &&& *final(t) == *old(t)
            },
        },
{
    if let Some(n) = count_added(t, false) {
        if n <= max_length {
            return set_truncation(t, max_length);
        }
    }
    Err("configuring truncation: no room for the special tokens".to_owned())
}

/// The most tokens that a tokenizer may be set to pad a text to: beyond, a single text takes
/// gigabytes.
pub const PAD_LIMIT: usize = 0x100_0000;

/// Whether a truncation leaves room for `added` special tokens, and for parts that overlap by its
/// stride. A single text is cut to what remains. Of a pair, each text may be cut to half of that,
/// or, where always the same one is shortened, to a single token.
pub open spec fn leaves_room(c: Truncation, added: int, pair: bool) -> bool {
    let room = c.max_length - added;
    &&& room >= 0
    &&& c.stride == 0 || room == 0 || (if pair {
        c.longest_first && c.stride < room / 2
    } else {
        c.stride < room
    })
}

/// Whether a padding stays within bounds.
pub open spec fn pads_modestly(p: Padding) -> bool {
    &&& p.fixed is Some ==> p.fixed->0 <= PAD_LIMIT
    &&& p.multiple is Some ==> p.multiple->0 <= PAD_LIMIT
}

// ------------------------------------------------------------------ all together

/// Whether a tokenizer's settings let it encode every text, or every pair.
///
/// They do not where a map leads astray, where a pattern may match backwards, where a step that
/// needs every character to stand for one of the original follows one that may break this, where
/// pieces of no characters are asked for, where added tokens may swallow one another, where a model
/// draws by chance, where a template names what is not there, where a truncation leaves no room, or
/// where a padding knows no bounds. Sequences within sequences are not looked into, and count as
/// unfit; and where the text decides, it is taken to be the worst one.
pub open spec fn can_encode(t: tokenizers::Tokenizer, pair: bool) -> bool {
    &&& rewrites_all(rewriting_steps(t))
    &&& splits_all(splitting_steps(t), any_loosens(rewriting_steps(t)))
    &&& marks_apart(t)
    &&& !draws(t)
    &&& processes_all(processing_steps(t), pair)
    &&& truncation_set(t) is Some ==> leaves_room(
        truncation_set(t)->0,
        added_by(processing_steps(t), pair),
        pair,
    )
    &&& padding_set(t) is Some ==> pads_modestly(padding_set(t)->0)
}

/// Whether a truncation leaves room.
fn has_room(c: Truncation, added: Option<usize>, pair: bool) -> (r: bool)
    ensures
        r == match added {
            Some(n) => leaves_room(c, n as int, pair),
            None => false,
        },
{
    match added {
        None => false,
        Some(n) => {
            if c.max_length < n {
                return false;
            }
            let room: usize = c.max_length - n;
            c.stride == 0 || room == 0 || if pair {
                c.longest_first && c.stride < room / 2
            } else {
                c.stride < room
            }
        },
    }
}

/// Whether a padding stays within bounds.
fn is_modest(p: Padding) -> (r: bool)
    ensures
        r == pads_modestly(p),
{
    let fixed = match p.fixed {
        Some(n) => n <= PAD_LIMIT,
        None => true,
    };
    let multiple = match p.multiple {
        Some(n) => n <= PAD_LIMIT,
        None => true,
    };
    fixed && multiple
}

/// Whether a tokenizer's settings let it encode every text, or every pair.
pub fn is_able(t: &tokenizers::Tokenizer, pair: bool) -> (r: bool)
    ensures
        r == can_encode(*t, pair),
{
    let (rewrites, loose) = look_at_rewritings(t);
    if !rewrites || !look_at_splittings(t, loose) || !look_at_marks(t) || draws_by_chance(t)
        || !look_at_processings(t, pair) {
        return false;
    }
    if let Some(c) = truncation_of(t) {
        let added = count_added(t, pair);
        proof {
            let steps = processing_steps(*t);
            assert forall|i: int| 0 <= i < steps.len() implies processing_kind(#[trigger] steps[i])
                != Processing::Chain by {
                assert(processes_well(steps[i], pair));
            }
            assert(flat(steps));
        }
        if !has_room(c, added, pair) {
            return false;
        }
    }
    match padding_of(t) {
        Some(p) => is_modest(p),
        None => true,
    }
}

// ------------------------------------------------------------------ laws

/// A tokenizer that rewrites nothing, splits nothing, adds nothing and draws nothing can encode
/// whatever it is given.
pub proof fn a_plain_tokenizer_encodes_everything(t: tokenizers::Tokenizer, pair: bool)
    requires
        rewriting_steps(t).len() == 0,
        splitting_steps(t).len() == 0,
        processing_steps(t).len() == 0,
        marks_added(t) == Set::<MarkView>::empty(),
        !draws(t),
        truncation_set(t) is None,
        padding_set(t) is None,
    ensures
        can_encode(t, pair),
{
}

/// Special tokens add up over the steps.
pub proof fn special_tokens_add_up(
    a: Seq<PostProcessorWrapper>,
    b: Seq<PostProcessorWrapper>,
    p: PostProcessorWrapper,
    pair: bool,
)
    ensures
        added_by(seq![], pair) == 0,
        added_by(seq![p], pair) == tokens_added(p, pair),
        added_by(a + b, pair) == added_by(a, pair) + added_by(b, pair),
    decreases b.len(),
{
    assert(seq![p].drop_last() =~= seq![]);
    assert(added_by(Seq::<PostProcessorWrapper>::empty(), pair) == 0);
    reveal_with_fuel(added_by, 2);
    if b.len() == 0 {
        assert(a + b =~= a);
    } else {
        special_tokens_add_up(a, b.drop_last(), p, pair);
        assert((a + b).drop_last() =~= a + b.drop_last());
        assert((a + b).last() == b.last());
    }
}

/// Cut pairs leave room: whatever is cut at a length that has room for the special tokens of a pair
/// is fit to be encoded.
pub proof fn cut_pairs_leave_room(t: tokenizers::Tokenizer, max_length: usize)
    requires
        truncation_set(t) == Some(cut_at(max_length)),
        added_by(processing_steps(t), true) <= max_length,
        rewriting_steps(t).len() == 0,
        splitting_steps(t).len() == 0,
        processes_all(processing_steps(t), true),
        marks_apart(t),
        !draws(t),
        padding_set(t) is None,
    ensures
        can_encode(t, true),
        truncation_set(t)->0.max_length == max_length,
        truncation_set(t)->0.longest_first,
        truncation_set(t)->0.stride == 0,
{
}

} // verus!
