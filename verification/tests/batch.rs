use tokenizers::models::wordlevel::WordLevel;
use tokenizers::pre_tokenizers::whitespace::Whitespace;
use tokenizers::processors::bert::BertProcessing;
use tokenizers::processors::sequence::Sequence;
use tokenizers::processors::template::TemplateProcessing;
use tokenizers::{
    PaddingParams, PaddingStrategy, Tokenizer, TruncationParams, TruncationStrategy,
};
use wom::batch::{
    batches, bucket_seq, embedding_runs, hidden_layout, inverse, length_order, logit_positions,
    ort_ctx, pack, pair_inputs, pair_runs, pooled_offsets, reranking_runs, text_inputs, tokenise,
    Encoded, Layout, PairTokenizer, SEQ_BUCKETS,
};
use wom::embed::Pooling;

#[test]
fn bucket_seq_rounds_up_to_the_ladder() {
    assert_eq!(bucket_seq(1, 512), 32);
    assert_eq!(bucket_seq(32, 512), 32);
    assert_eq!(bucket_seq(33, 512), 64);
    assert_eq!(bucket_seq(200, 512), 256);
    assert_eq!(bucket_seq(512, 512), 512);
}

#[test]
fn bucket_seq_never_exceeds_the_models_limit() {
    // A model that caps at 256: asking for more must not build a tensor the graph cannot accept.
    for len in [1, 100, 255, 256, 300, 1000] {
        assert!(bucket_seq(len, 256) <= 256, "len={len}");
    }
    assert_eq!(bucket_seq(1000, 512), 512);
}

#[test]
fn bucket_seq_always_covers_the_requested_length() {
    for len in 1..=512usize {
        let b = bucket_seq(len, 512);
        assert!(b >= len, "bucket {b} truncates length {len}");
    }
}

#[test]
fn bucket_ladder_is_sorted_and_ends_at_the_common_limit() {
    assert!(SEQ_BUCKETS.windows(2).all(|w| w[0] < w[1]));
    assert_eq!(*SEQ_BUCKETS.last().unwrap(), 512);
}

#[test]
fn a_limit_of_zero_counts_as_one() {
    assert_eq!(bucket_seq(5, 0), 1);
    assert_eq!(bucket_seq(600, 1024), 1024);
}

fn tokens(ids: &[u32]) -> Encoded {
    Encoded {
        ids: ids.to_vec(),
        mask: vec![1; ids.len()],
        types: ids.iter().map(|i| i % 2).collect(),
    }
}

#[test]
fn texts_are_grouped_by_length() {
    let t = vec![tokens(&[1, 2, 3]), tokens(&[4]), tokens(&[5, 6]), tokens(&[7])];
    let order = length_order(&t);
    assert_eq!(order, vec![1, 3, 2, 0]);
    assert_eq!(inverse(&order), vec![3, 0, 2, 1]);
}

#[test]
fn documents_count_every_token_and_pad_with_zeros() {
    let t = vec![tokens(&[9, 8]), tokens(&[7])];
    let p = pack(&t, vec![1, 0], 512, false);
    assert_eq!(p.seq, 32);
    assert_eq!(p.ids.len(), 64);
    assert_eq!((p.ids[0], p.mask[0], p.ids[1], p.mask[1]), (7, 1, 0, 0));
    assert_eq!((p.ids[32], p.ids[33], p.ids[34]), (9, 8, 0));
    assert!(p.types.iter().all(|x| *x == 0));
}

#[test]
fn pairs_keep_their_masks_and_types() {
    let mut e = tokens(&[3, 4, 5]);
    e.mask[2] = 0;
    let p = pack(&vec![e], vec![0], 2, true);
    // Longer than the limit: cut.
    assert_eq!(p.seq, 2);
    assert_eq!(p.ids, vec![3, 4]);
    assert_eq!(p.types, vec![1, 0]);
    assert_eq!(p.mask, vec![1, 1]);
}

#[test]
fn batches_hold_so_many_texts_each() {
    let t: Vec<Encoded> = (0..5).map(|i| tokens(&[i])).collect();
    let b = batches(&t, &vec![4, 3, 2, 1, 0], 2, 512, false);
    let slots: Vec<Vec<usize>> = b.iter().map(|p| p.slots.clone()).collect();
    assert_eq!(slots, vec![vec![4, 3], vec![2, 1], vec![0]]);
    assert!(batches(&t, &vec![], 2, 512, false).is_empty());
}

#[test]
fn outputs_of_the_wrong_shape_are_refused() {
    assert_eq!(hidden_layout(&vec![2, 32, 384], "m", 384), Ok(Layout { seq: 32, hidden: 384 }));
    assert_eq!(
        hidden_layout(&vec![2, 384], "m", 384).unwrap_err(),
        "expected last_hidden_state of rank 3, got shape [2, 384]. Is `m` a bare encoder export?"
    );
    assert_eq!(
        hidden_layout(&vec![2, 32, 768], "m", 384).unwrap_err(),
        "model m produced hidden size 768 but the registry says 384; the registry entry is wrong or the wrong file was downloaded"
    );
}

#[test]
fn pooling_takes_the_first_token_or_all_that_count() {
    let t = vec![tokens(&[9, 8]), tokens(&[7, 6, 5])];
    let p = pack(&t, vec![0, 1], 512, false);
    let l = Layout { seq: 32, hidden: 4 };
    assert_eq!(pooled_offsets(Pooling::Cls, &p, 1, l), vec![32 * 4]);
    assert_eq!(pooled_offsets(Pooling::Mean, &p, 1, l), vec![128, 132, 136]);
    assert_eq!(pooled_offsets(Pooling::Mean, &p, 0, l), vec![0, 4]);
}

#[test]
fn logits_are_read_from_their_column() {
    assert_eq!(logit_positions(&vec![3, 1], 3, "m"), Ok(vec![0, 1, 2]));
    assert_eq!(logit_positions(&vec![3, 2], 3, "m"), Ok(vec![1, 3, 5]));
    assert_eq!(
        logit_positions(&vec![2, 1], 3, "m").unwrap_err(),
        "expected reranker logits of shape [3, n], got [2, 1]. Is `m` a cross-encoder export?"
    );
    assert!(logit_positions(&vec![3], 3, "m").is_err());
}

#[test]
fn errors_say_what_was_being_done() {
    assert_eq!(ort_ctx(Ok::<i32, String>(3), "x"), Ok(3));
    assert_eq!(ort_ctx(Err::<i32, String>("boom".into()), "doing it"), Err("doing it: boom".into()));
}

fn word_tokenizer() -> Tokenizer {
    let vocab = ["[UNK]", "tax", "forms", "cake"]
        .iter()
        .enumerate()
        .map(|(i, w)| (w.to_string(), i as u32))
        .collect();
    let model = WordLevel::builder().vocab(vocab).unk_token("[UNK]".into()).build().unwrap();
    let mut t = Tokenizer::new(model);
    t.with_pre_tokenizer(Some(Whitespace {}));
    t
}

#[test]
fn texts_become_tokens() {
    let t = word_tokenizer();
    let texts = vec!["tax forms".to_string(), "cake".to_string(), "pie tax".to_string()];
    let e = tokenise(&t, &text_inputs(&texts), "tokenising batch").unwrap();
    let ids: Vec<Vec<u32>> = e.iter().map(|x| x.ids.clone()).collect();
    assert_eq!(ids, vec![vec![1, 2], vec![3], vec![0, 1]]);
    assert!(e.iter().all(|x| x.is_aligned(512)));
    assert!(tokenise(&t, &text_inputs(&vec![]), "tokenising batch").unwrap().is_empty());
}

#[test]
fn pairs_become_tokens_of_two_types() {
    let t = word_tokenizer();
    let docs = vec!["tax forms".to_string()];
    let e = tokenise(&t, &pair_inputs("cake", &docs), "tokenising rerank pairs").unwrap();
    assert_eq!(e[0].ids, vec![3, 1, 2]);
    assert_eq!(e[0].types, vec![0, 1, 1]);
}

#[test]
fn a_tokenizer_that_fails_is_reported() {
    // No unknown token: a word outside the vocabulary cannot be encoded.
    let vocab = [("tax".to_string(), 0u32)].into_iter().collect();
    let t = Tokenizer::new(WordLevel::builder().vocab(vocab).unk_token("?".into()).build().unwrap());
    let e = tokenise(&t, &text_inputs(&vec!["pie".to_string()]), "tokenising batch").unwrap_err();
    assert_eq!(e, "tokenising batch: WordLevel error: Missing [UNK] token from the vocabulary");
    let e = embedding_runs(&t, &vec!["pie".to_string()], 2, 512).err().unwrap();
    assert!(e.ends_with("Missing [UNK] token from the vocabulary"), "got: {e}");
}

#[test]
fn texts_are_run_shortest_first_and_come_back_in_order() {
    let t = word_tokenizer();
    let texts = vec!["tax forms".to_string(), "cake".to_string(), "pie tax cake".to_string()];
    let r = embedding_runs(&t, &texts, 2, 512).unwrap();
    assert_eq!(r.order, vec![1, 0, 2]);
    assert_eq!(r.batches.len(), 2);
    assert_eq!(r.batches[0].slots, vec![1, 0]);
    assert_eq!(r.batches[1].slots, vec![2]);
    assert_eq!(&r.batches[0].ids[..2], &[3, 0]);
    assert_eq!(&r.batches[0].ids[32..35], &[1, 2, 0]);
    assert_eq!(&r.batches[0].mask[32..35], &[1, 1, 0]);
    assert_eq!(inverse(&r.order), vec![1, 0, 2]);
    assert!(embedding_runs(&t, &vec![], 2, 512).unwrap().batches.is_empty());
}

#[test]
fn pairs_are_run_as_they_come() {
    let t = word_tokenizer();
    let docs: Vec<String> = (0..17).map(|_| "tax forms".to_string()).collect();
    let t = PairTokenizer::new(t, 512).unwrap();
    let r = reranking_runs(&t, "cake", &docs).unwrap();
    assert_eq!(r.order, (0..17).collect::<Vec<usize>>());
    assert_eq!(r.batches.len(), 2);
    assert_eq!(&r.batches[0].ids[..4], &[3, 1, 2, 0]);
    assert_eq!(&r.batches[0].types[..4], &[0, 1, 1, 0]);
    assert_eq!(r.batches[1].slots, vec![16]);
}

#[test]
fn pairs_without_a_mask_or_a_type_are_refused() {
    let good = tokens(&[1, 2, 3]);
    let r = pair_runs(&vec![good.clone(), good.clone()], 512).unwrap();
    assert_eq!(r.order, vec![0, 1]);
    assert_eq!(r.batches[0].slots, vec![0, 1]);
    let bad = Encoded { types: vec![0], ..good.clone() };
    let e = pair_runs(&vec![good.clone(), bad], 512).err().unwrap();
    assert_eq!(e, "the tokenizer left tokens without a mask or a type");
    let bad = Encoded { mask: vec![], ..good };
    assert!(pair_runs(&vec![bad], 512).is_err());
    assert!(pair_runs(&vec![], 512).unwrap().batches.is_empty());
    // What no row can hold needs neither, and what is left over does no harm.
    let long = Encoded { ids: vec![9; 40], mask: vec![1; 33], types: vec![1; 32] };
    let r = pair_runs(&vec![long.clone()], 32).unwrap();
    assert_eq!((r.batches[0].seq, r.batches[0].types[31]), (32, 1));
    assert!(pair_runs(&vec![long], 33).is_err());
    let over = Encoded { ids: vec![9], mask: vec![1; 3], types: vec![0; 2] };
    assert_eq!(pair_runs(&vec![over], 512).unwrap().batches[0].mask[..2], [1, 0]);
}

#[test]
fn pairs_are_cut_at_the_limit_of_the_model() {
    let mut t = word_tokenizer();
    t.with_post_processor(Some(BertProcessing::default()));
    let docs = vec!["tax forms cake tax forms".to_string()];
    let p = PairTokenizer::new(t.clone(), 7).unwrap();
    let r = reranking_runs(&p, "cake", &docs).unwrap();
    // The longer text is shortened, and the closing token stays.
    assert_eq!(r.batches[0].ids[..7], [101, 3, 102, 1, 2, 3, 102]);
    assert!(reranking_runs(&p, "cake", &vec![]).unwrap().batches.is_empty());
    assert_eq!(
        PairTokenizer::new(t.clone(), 1).err().unwrap(),
        "configuring truncation: no room for the special tokens"
    );
    // Room for the two tokens around a text, but not for the three around a pair.
    let p = PairTokenizer::new(t, 2).unwrap();
    assert_eq!(
        reranking_runs(&p, "cake", &docs).err().unwrap(),
        "tokenising rerank pairs: the tokenizer's settings cannot be used"
    );
}

fn cut_to(t: &mut Tokenizer, max_length: usize, stride: usize, strategy: TruncationStrategy) {
    // A tokenizer file is taken as it is, so the settings are put in without a check.
    t.with_truncation(Some(TruncationParams::default())).unwrap();
    let p = t.get_truncation_mut().unwrap();
    p.max_length = max_length;
    p.stride = stride;
    p.strategy = strategy;
}

fn encode_texts(t: &Tokenizer) -> Result<Vec<Encoded>, String> {
    let texts = vec!["tax forms cake pie tax forms".to_string()];
    tokenise(t, &text_inputs(&texts), "tokenising batch")
}

fn encode_pairs(t: &Tokenizer) -> Result<Vec<Encoded>, String> {
    let docs = vec!["tax forms cake pie tax forms".to_string()];
    tokenise(t, &pair_inputs("cake pie tax forms", &docs), "tokenising rerank pairs")
}

#[test]
fn a_truncation_without_room_is_refused() {
    let mut t = word_tokenizer();
    cut_to(&mut t, 4, 0, TruncationStrategy::LongestFirst);
    assert_eq!(encode_texts(&t).unwrap()[0].ids, vec![1, 2, 3, 0]);
    assert_eq!(encode_pairs(&t).unwrap()[0].ids.len(), 4);
    cut_to(&mut t, 4, 3, TruncationStrategy::LongestFirst);
    assert_eq!(encode_texts(&t).unwrap()[0].ids.len(), 4);
    let e = encode_pairs(&t).unwrap_err();
    assert!(e.starts_with("tokenising rerank pairs: the tokenizer's settings"), "got: {e}");
    cut_to(&mut t, 4, 1, TruncationStrategy::LongestFirst);
    assert_eq!(encode_pairs(&t).unwrap()[0].ids.len(), 4);
    cut_to(&mut t, 4, 1, TruncationStrategy::OnlySecond);
    assert!(encode_pairs(&t).is_err());
    cut_to(&mut t, 4, 4, TruncationStrategy::LongestFirst);
    let e = encode_texts(&t).unwrap_err();
    assert!(e.starts_with("tokenising batch: the tokenizer's settings"), "got: {e}");
    cut_to(&mut t, 0, 4, TruncationStrategy::LongestFirst);
    assert!(encode_texts(&t).unwrap()[0].ids.is_empty());
    // Three special tokens around a pair, two around a text, and room for two.
    t.with_post_processor(Some(BertProcessing::default()));
    cut_to(&mut t, 2, 0, TruncationStrategy::LongestFirst);
    assert_eq!(encode_texts(&t).unwrap()[0].ids, vec![101, 102]);
    assert!(encode_pairs(&t).is_err());
    cut_to(&mut t, 1, 0, TruncationStrategy::LongestFirst);
    assert!(encode_texts(&t).is_err());
}

#[test]
fn padding_without_bounds_is_refused() {
    let mut t = word_tokenizer();
    let pad = |fixed, multiple| PaddingParams {
        strategy: PaddingStrategy::Fixed(fixed),
        pad_to_multiple_of: multiple,
        ..PaddingParams::default()
    };
    t.with_padding(Some(pad(8, None)));
    let e = &encode_texts(&t).unwrap()[0];
    assert_eq!((e.ids.len(), e.mask[7]), (8, 0));
    t.with_padding(Some(pad(usize::MAX, None)));
    assert!(encode_texts(&t).is_err());
    t.with_padding(Some(pad(8, Some(usize::MAX))));
    assert!(encode_texts(&t).is_err());
}

#[test]
fn a_template_that_cannot_be_filled_is_refused() {
    let mut t = word_tokenizer();
    let template = |single: &str, pair: &str| {
        TemplateProcessing::builder()
            .try_single(single)
            .unwrap()
            .try_pair(pair)
            .unwrap()
            .special_tokens(vec![("[CLS]", 7u32)])
            .build()
            .unwrap()
    };
    let good = template("[CLS] $A", "[CLS] $A $B:1");
    t.with_post_processor(Some(good.clone()));
    assert_eq!(encode_texts(&t).unwrap()[0].ids[..2], [7, 1]);
    assert_eq!(encode_pairs(&t).unwrap()[0].ids[0], 7);
    // The second text of a pair, where there is none.
    t.with_post_processor(Some(template("[CLS] $B", "[CLS] $A $B:1")));
    assert!(encode_texts(&t).is_err());
    assert!(encode_pairs(&t).is_ok());
    // A special token that the template does not know.
    let mut odd = good.clone();
    odd.set_single("[SEP] $A".try_into().unwrap());
    t.with_post_processor(Some(odd));
    assert!(encode_texts(&t).is_err());
    assert!(encode_pairs(&t).is_ok());
    // Two templates in a row.
    let twice = Sequence::new(vec![good.clone().into(), good.into()]);
    t.with_post_processor(Some(twice));
    assert!(encode_texts(&t).is_err());
}
