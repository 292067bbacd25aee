use tokenizers::models::unigram::Unigram;
use tokenizers::models::wordlevel::WordLevel;
use tokenizers::normalizers::replace::ReplacePattern;
use tokenizers::normalizers::{Lowercase, Precompiled, Prepend, Replace, Sequence, Strip, NFC};
use tokenizers::pre_tokenizers::byte_level::ByteLevel;
use tokenizers::pre_tokenizers::fixed_length::FixedLength;
use tokenizers::pre_tokenizers::metaspace::Metaspace;
use tokenizers::pre_tokenizers::sequence::Sequence as Splits;
use tokenizers::pre_tokenizers::split::{Split, SplitPattern};
use tokenizers::pre_tokenizers::whitespace::WhitespaceSplit;
use tokenizers::processors::sequence::Sequence as Processors;
use tokenizers::processors::template::TemplateProcessing;
use tokenizers::{AddedToken, NormalizerWrapper, SplitDelimiterBehavior, Tokenizer};
use wom::batch::{text_inputs, tokenise};
use wom::charsmap::{decode, sound};
use wom::settings::is_able;

fn words() -> Tokenizer {
    let vocab = ["?", "a", "b", "ab", "xa", "\u{2581}a"]
        .iter()
        .enumerate()
        .map(|(i, w)| (w.to_string(), i as u32))
        .collect();
    Tokenizer::new(WordLevel::builder().vocab(vocab).unk_token("?".into()).build().unwrap())
}

fn ids(t: &Tokenizer, text: &str) -> Result<Vec<u32>, String> {
    let e = tokenise(t, &text_inputs(&vec![text.to_string()]), "tokenising")?;
    Ok(e[0].ids.clone())
}

fn refused(t: &Tokenizer) -> bool {
    let e = ids(t, "a").err();
    assert_eq!(e.is_none(), is_able(t, false));
    e == Some("tokenising: the tokenizer's settings cannot be used".to_string())
}

fn rewriting(steps: Vec<NormalizerWrapper>) -> Tokenizer {
    let mut t = words();
    t.with_normalizer(Some(Sequence::new(steps))).unwrap();
    t
}

fn regex(pattern: &str, content: &str) -> NormalizerWrapper {
    Replace::new(ReplacePattern::Regex(pattern.to_string()), content).unwrap().into()
}

#[test]
fn pieces_of_no_characters_are_refused() {
    let mut t = words();
    t.with_pre_tokenizer(Some(FixedLength::new(1)));
    assert_eq!(ids(&t, "ab").unwrap(), vec![1, 2]);
    t.with_pre_tokenizer(Some(FixedLength::new(0)));
    assert!(refused(&t));
    t.with_pre_tokenizer(Some(Splits::new(vec![
        WhitespaceSplit {}.into(),
        FixedLength::new(0).into(),
    ])));
    assert!(refused(&t));
}

/// A map that turns `A` into `b`: the first unit leads to the second block, where the unit of the
/// letter stands, which leads to its value.
fn map_of(value: u32, leap: u32) -> Vec<u8> {
    let mut units = vec![0u32; 512];
    units[0] = 256 << 10;
    units[321] = (leap << 10) | 256 | 65;
    units[257] = 0x8000_0000 | value;
    let mut map = 2048u32.to_le_bytes().to_vec();
    for u in units {
        map.extend(u.to_le_bytes());
    }
    map.extend("b\0\u{e9}\0".as_bytes());
    map
}

#[test]
fn a_map_is_looked_at_before_it_is_used() {
    let with = |map: &[u8]| rewriting(vec![Precompiled::from(map).unwrap().into()]);
    let good = map_of(0, 321 ^ 257);
    assert!(sound(&good));
    assert_eq!(ids(&with(&good), "A").unwrap(), vec![2]);
    assert_eq!(ids(&with(&good), "a").unwrap(), vec![1]);
    // A text within a character, a text past the end, and units that are not there.
    assert!(refused(&with(&map_of(3, 321 ^ 257))));
    assert!(refused(&with(&map_of(9, 321 ^ 257))));
    assert!(refused(&with(&map_of(0, 321 ^ 600))));
    // The end of the texts is a text: the empty one.
    assert!(sound(&map_of(5, 321 ^ 257)));
    // No units at all.
    assert!(refused(&with(&[0, 0, 0, 0])));
    assert!(refused(&rewriting(vec![Precompiled::default().into()])));
    assert!(!sound(&vec![4, 0, 0]));
    assert!(!sound(&vec![8, 0, 0, 0, 1, 0, 0, 0]));
}

#[test]
fn base64_is_read() {
    assert_eq!(decode("").unwrap(), Vec::<u8>::new());
    assert_eq!(decode("AP+/").unwrap(), vec![0, 255, 191]);
    assert_eq!(decode("aGk=").unwrap(), b"hi");
    assert_eq!(decode("aA==").unwrap(), b"h");
    assert!(decode("aGk").is_none());
    assert!(decode("a=k=").is_none());
    assert!(decode("a-b_").is_none());
}

#[test]
fn patterns_that_match_backwards_are_refused() {
    assert_eq!(ids(&rewriting(vec![regex("c+", "a")]), "ccc").unwrap(), vec![1]);
    assert!(refused(&rewriting(vec![regex("(?=a\\K)", "b")])));
    let split = |pattern: SplitPattern| {
        let mut t = words();
        t.with_pre_tokenizer(Some(
            Split::new(pattern, SplitDelimiterBehavior::Removed, false).unwrap(),
        ));
        t
    };
    assert_eq!(ids(&split(SplitPattern::Regex(",+".to_string())), "a,,b").unwrap(), vec![1, 2]);
    assert_eq!(ids(&split(SplitPattern::String(",".to_string())), "a,b").unwrap(), vec![1, 2]);
    assert!(refused(&split(SplitPattern::Regex("(?=a\\K)".to_string()))));
}

#[test]
fn what_needs_every_character_tied_comes_first() {
    let text = |s: &str| -> NormalizerWrapper {
        Replace::new(ReplacePattern::String(s.to_string()), "x").unwrap().into()
    };
    let prepend = |s: &str| -> NormalizerWrapper { Prepend::new(s.to_string()).into() };
    assert_eq!(ids(&rewriting(vec![Lowercase.into(), regex("^", "x")]), "A").unwrap(), vec![4]);
    assert!(refused(&rewriting(vec![regex("^", "x"), Lowercase.into()])));
    assert!(refused(&rewriting(vec![text(""), NFC.into()])));
    assert_eq!(ids(&rewriting(vec![text("X"), Lowercase.into()]), "XA").unwrap(), vec![4]);
    assert_eq!(ids(&rewriting(vec![prepend("x"), Lowercase.into()]), "A").unwrap(), vec![4]);
    assert!(refused(&rewriting(vec![prepend(""), Lowercase.into()])));
    let mut t = rewriting(vec![Strip::new(false, true).into(), regex(" {2,}", "\u{2581}")]);
    t.with_pre_tokenizer(Some(Metaspace::default()));
    assert_eq!(ids(&t, "a  a ").unwrap(), vec![5, 5]);
    t.with_pre_tokenizer(Some(ByteLevel::default()));
    assert!(refused(&t));
}

#[test]
fn sequences_are_looked_into_once() {
    assert_eq!(ids(&rewriting(vec![]), "a").unwrap(), vec![1]);
    let inner = Sequence::new(vec![Lowercase.into()]);
    assert!(refused(&rewriting(vec![inner.into()])));
    let template = TemplateProcessing::builder()
        .try_single("[CLS] $A")
        .unwrap()
        .special_tokens(vec![("[CLS]", 7u32)])
        .build()
        .unwrap();
    let mut t = words();
    let chain = Processors::new(vec![ByteLevel::default().into(), template.into()]);
    t.with_post_processor(Some(chain.clone()));
    assert_eq!(ids(&t, "a").unwrap(), vec![7, 1]);
    t.with_post_processor(Some(Processors::new(vec![chain.into()])));
    assert!(refused(&t));
}

#[test]
fn tokens_that_swallow_one_another_are_refused() {
    let with = |space: AddedToken| {
        let mut t = words();
        t.with_pre_tokenizer(Some(WhitespaceSplit {}));
        t.add_tokens([AddedToken::from("<m>", true).rstrip(true), space]).unwrap();
        t
    };
    let t = with(AddedToken::from("<n>", true).lstrip(true));
    assert_eq!(ids(&t, "a <m>  <n> b").unwrap(), vec![1, 6, 7, 2]);
    assert!(refused(&with(AddedToken::from(" ", true).lstrip(true))));
    assert!(!refused(&with(AddedToken::from("<n>", false).lstrip(true))));
    assert!(!refused(&with(AddedToken::from(" ", true))));
    // A token of which rewriting leaves nothing.
    let mut t = rewriting(vec![Strip::new(true, true).into()]);
    t.add_tokens([AddedToken::from(" ", true)]).unwrap();
    assert!(!refused(&t));
    t.add_tokens([AddedToken::from("\u{3000}", false)]).unwrap();
    assert!(refused(&t));
}

#[test]
fn models_that_draw_by_chance_are_refused() {
    let vocab = vec![("?".to_string(), 0.0), ("a".to_string(), -1.0)];
    let mut m = Unigram::from(vocab, Some(0), false).unwrap();
    assert_eq!(ids(&Tokenizer::new(m.clone()), "a").unwrap(), vec![1]);
    m.alpha = Some(0.5);
    assert!(refused(&Tokenizer::new(m)));
}
