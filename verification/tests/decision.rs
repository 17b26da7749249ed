//! Decisions: readouts and the answer alphabet.

use ignis_core::decision::{
    argmax, candidate_label, gather_logits, AnswerAlphabet, LabelTokenizer, Readout,
    NEG_INFINITY_BITS,
};
use ignis_core::types::TokenId;

fn bits(values: &[f32]) -> Vec<u32> {
    values.iter().map(|v| v.to_bits()).collect()
}

/// Every character is a token of its own; some bigrams are one token.
struct Fake {
    bigrams: Vec<&'static str>,
    normalizes: bool,
}

impl LabelTokenizer for Fake {
    fn encode(&self, text: &str) -> Option<Vec<TokenId>> {
        if let Some(at) = self.bigrams.iter().position(|b| *b == text) {
            return Some(vec![1_000 + at as TokenId]);
        }
        if text == "7" {
            return None;
        }
        if self.normalizes && text == "a" {
            return Some(vec!['A' as TokenId]);
        }
        Some(text.chars().map(|c| c as TokenId).collect())
    }

    fn decode(&self, ids: &[TokenId]) -> Option<String> {
        let id = *ids.first()?;
        if id >= 1_000 {
            return self.bigrams.get((id - 1_000) as usize).map(|b| b.to_string());
        }
        char::from_u32(id).map(|c| c.to_string())
    }
}

#[test]
fn a_label_is_admitted_only_if_it_is_one_token_that_round_trips() {
    let alphabet = AnswerAlphabet::from_tokenizer(&Fake {
        bigrams: vec!["AB", "ZZ"],
        normalizes: false,
    });
    assert_eq!(alphabet.len(), 61 + 2, "62 characters but one, and the two bigrams");
    assert_eq!(alphabet.position("A"), Some(0));
    assert_eq!(alphabet.position("a"), Some(26));
    assert_eq!(alphabet.position("0"), Some(52));
    assert_eq!(alphabet.position("7"), None, "it cannot be encoded");
    assert_eq!(alphabet.position("BQ"), None, "two tokens name another option's");
    assert_eq!(alphabet.position("AB"), Some(61));
    assert_eq!(alphabet.position("ZZ"), Some(62));
    let ids: Vec<TokenId> = alphabet.tokens().iter().map(|t| t.id).collect();
    let mut unique = ids.clone();
    unique.sort();
    unique.dedup();
    assert_eq!(unique.len(), ids.len(), "no two slots name one token");
}

#[test]
fn every_label_that_round_trips_is_named_once() {
    let fake = Fake { bigrams: vec!["AB", "ZZ"], normalizes: false };
    let alphabet = AnswerAlphabet::from_tokenizer(&fake);
    let mut named = 0;
    for n in 0..738 {
        let label = candidate_label(n);
        let round_trips = match fake.encode(&label) {
            Some(ids) if ids.len() == 1 => fake.decode(&ids) == Some(label.clone()),
            _ => false,
        };
        let slots = alphabet.tokens().iter().filter(|t| t.label == label).count();
        assert_eq!(slots, round_trips as usize, "{label}");
        named += slots;
    }
    assert_eq!(named, alphabet.len());
}

#[test]
fn a_tokenizer_that_normalizes_loses_the_label() {
    let alphabet = AnswerAlphabet::from_tokenizer(&Fake { bigrams: vec![], normalizes: true });
    assert_eq!(alphabet.position("a"), None);
    assert_eq!(alphabet.position("A"), Some(0));
}

#[test]
fn more_options_than_labels_are_refused() {
    let alphabet = AnswerAlphabet::from_tokenizer(&Fake { bigrams: vec![], normalizes: false });
    assert_eq!(alphabet.take(3).map(|t| t.len()), Some(3));
    assert_eq!(alphabet.take(3).unwrap()[2].label, "C");
    assert_eq!(alphabet.take(61).map(|t| t.len()), Some(61));
    assert!(alphabet.take(62).is_none());
    assert!(!alphabet.is_empty());
}

#[test]
fn labels_stand_in_pool_order() {
    assert_eq!(candidate_label(0), "A");
    assert_eq!(candidate_label(25), "Z");
    assert_eq!(candidate_label(26), "a");
    assert_eq!(candidate_label(61), "9");
    assert_eq!(candidate_label(62), "AA");
    assert_eq!(candidate_label(62 + 27), "BB");
    assert_eq!(candidate_label(737), "ZZ");
}

#[test]
fn an_answer_past_the_row_reads_negative_infinity() {
    let row = bits(&[0.5, -1.0, 3.0]);
    assert_eq!(
        gather_logits(&row, &[2, 9, 0]),
        vec![3.0f32.to_bits(), NEG_INFINITY_BITS, 0.5f32.to_bits()]
    );
    assert_eq!(f32::from_bits(NEG_INFINITY_BITS), f32::NEG_INFINITY);
}

#[test]
fn the_largest_value_is_the_first_of_several() {
    assert_eq!(argmax(&bits(&[1.0, 3.0, 3.0, -2.0])), Some(1));
    assert_eq!(argmax(&bits(&[-5.0, -0.5, -1.0])), Some(1));
    assert_eq!(argmax(&bits(&[0.0, -0.0])), Some(0));
    assert_eq!(argmax(&bits(&[-0.0, 0.0])), Some(0), "both zeros are one value");
    assert_eq!(argmax(&bits(&[f32::NEG_INFINITY, f32::INFINITY])), Some(1));
    assert_eq!(argmax(&bits(&[1.0, f32::NAN, 2.0])), Some(2), "no number is larger than none");
    assert_eq!(argmax(&bits(&[f32::NAN, 2.0])), Some(0));
    assert_eq!(argmax(&[]), None);
}

#[test]
fn a_readout_keeps_the_answers_and_the_unrestricted_winner() {
    let readout = Readout::gather(&bits(&[0.0, 9.0, 4.0, 5.0]), &[2, 3], 77);
    assert_eq!(readout.full_argmax, 1);
    assert_eq!(readout.full_log_sum_exp_bits, 77);
    assert_eq!(readout.winner(), Some(1));
    assert_eq!(Readout::gather(&[], &[], 0).winner(), None);
    assert_eq!(Readout::gather(&[], &[4], 0).full_argmax, 0);
}
