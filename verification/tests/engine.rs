use askouija::dict::Dictionary;
use askouija::ouija::{Ouija, OuijaStatus};
use std::sync::Arc;

fn dict_of(words: &[&str]) -> Arc<Dictionary> {
    let vecs: Vec<Vec<u8>> = words.iter().map(|w| w.as_bytes().to_vec()).collect();
    Arc::new(Dictionary::new(vecs))
}

fn push_all(o: &mut Ouija, s: &str) -> Vec<bool> {
    s.bytes()
        .map(|c| matches!(o.push_char(c), OuijaStatus::Accept))
        .collect()
}

fn done_words(st: OuijaStatus) -> Vec<String> {
    match st {
        OuijaStatus::Done(ws) => ws
            .into_iter()
            .map(|w| String::from_utf8(w).unwrap())
            .collect(),
        _ => panic!("expected Done"),
    }
}

#[test]
fn scenario_single_word() {
    let d = dict_of(&["CAT", "CATS", "A", "TAG"]);
    let mut o = Ouija::new(d);
    assert_eq!(push_all(&mut o, "CAT"), vec![true, true, true]);
    assert!(o.accepting);
    assert_eq!(done_words(o.finalize()), vec!["CAT"]);
}

#[test]
fn scenario_longer_word_wins() {
    let d = dict_of(&["CAT", "CATS", "A", "TAG"]);
    let mut o = Ouija::new(d);
    assert_eq!(push_all(&mut o, "CATS"), vec![true, true, true, true]);
    assert!(o.accepting);
    assert_eq!(done_words(o.finalize()), vec!["CATS"]);
}

#[test]
fn scenario_two_words() {
    let d = dict_of(&["A", "TAG"]);
    let mut o = Ouija::new(d);
    assert!(matches!(o.push_char(b'A'), OuijaStatus::Accept));
    assert!(o.accepting);
    assert!(matches!(o.push_char(b'T'), OuijaStatus::Accept));
    assert!(!o.accepting);
    assert!(matches!(o.push_char(b'A'), OuijaStatus::Accept));
    assert!(matches!(o.push_char(b'G'), OuijaStatus::Accept));
    assert!(o.accepting);
    assert_eq!(o.message, b"ATAG".to_vec());
    assert_eq!(done_words(o.finalize()), vec!["A", "TAG"]);
}

#[test]
fn scenario_immediate_reject() {
    let d = dict_of(&["DOG"]);
    let mut o = Ouija::new(d);
    assert!(matches!(o.push_char(b'C'), OuijaStatus::Reject));
    assert!(o.message.is_empty());
    assert!(!o.accepting);
}

#[test]
fn scenario_minimum_words_win() {
    let d = dict_of(&["ANT", "AN", "T"]);
    let mut o = Ouija::new(d);
    assert_eq!(push_all(&mut o, "AN"), vec![true, true]);
    assert!(o.accepting);
    assert!(o.legal_next_characters().contains(&b'T'));
    assert!(matches!(o.push_char(b'T'), OuijaStatus::Accept));
    assert_eq!(done_words(o.finalize()), vec!["ANT"]);
}

#[test]
fn minimality_among_many_decompositions() {
    let d = dict_of(&["A", "AA", "AAA"]);
    let mut o = Ouija::new(d);
    assert_eq!(push_all(&mut o, "AAAA"), vec![true, true, true, true]);
    let words = done_words(o.finalize());
    assert_eq!(words.len(), 2);
    assert_eq!(words.concat(), "AAAA");
    for w in &words {
        assert!(["A", "AA", "AAA"].contains(&w.as_str()));
    }
}

#[test]
fn rejection_leaves_state_unchanged() {
    let d = dict_of(&["CAT", "TAG"]);
    let mut o = Ouija::new(d);
    assert!(matches!(o.push_char(b'C'), OuijaStatus::Accept));
    let message_before = o.message.clone();
    let accepting_before = o.accepting;
    let legal_before = o.legal_next_characters();
    assert!(matches!(o.push_char(b'X'), OuijaStatus::Reject));
    assert_eq!(o.message, message_before);
    assert_eq!(o.accepting, accepting_before);
    assert_eq!(o.legal_next_characters(), legal_before);
    assert!(matches!(o.push_char(b'A'), OuijaStatus::Accept));
}

#[test]
fn legal_next_characters_exact() {
    let d = dict_of(&["CAT", "DOG"]);
    let mut o = Ouija::new(d);
    assert_eq!(o.legal_next_characters(), vec![b'C', b'D']);
    assert!(matches!(o.push_char(b'C'), OuijaStatus::Accept));
    assert_eq!(o.legal_next_characters(), vec![b'A']);
}

#[test]
fn legal_next_characters_replenished_at_boundary() {
    let d = dict_of(&["AN", "ANT", "GO"]);
    let mut o = Ouija::new(d);
    assert_eq!(push_all(&mut o, "AN"), vec![true, true]);
    // "AN" is complete, so besides the continuation of "ANT" the whole
    // dictionary is open again.
    assert_eq!(o.legal_next_characters(), vec![b'A', b'G', b'T']);
}

#[test]
fn case_insensitive_matching() {
    let d = dict_of(&["CAT"]);
    let mut o = Ouija::new(d);
    assert_eq!(push_all(&mut o, "cAt"), vec![true, true, true]);
    assert!(o.accepting);
    // The stored dictionary word is returned, not the typed case.
    assert_eq!(done_words(o.finalize()), vec!["CAT"]);
}

#[test]
fn finalize_rejects_without_boundary() {
    let d = dict_of(&["ABC"]);
    let mut o = Ouija::new(d);
    assert!(matches!(o.finalize(), OuijaStatus::Reject));
    assert!(matches!(o.push_char(b'A'), OuijaStatus::Accept));
    assert!(matches!(o.finalize(), OuijaStatus::Reject));
    assert!(o.find_valid_sequences().is_none());
    // The engine stays alive and can still finish the word.
    assert_eq!(push_all(&mut o, "BC"), vec![true, true]);
    assert_eq!(done_words(o.finalize()), vec!["ABC"]);
}

#[test]
fn empty_dictionary_rejects_everything() {
    let d = dict_of(&[]);
    let mut o = Ouija::new(d);
    assert!(o.legal_next_characters().is_empty());
    assert!(matches!(o.push_char(b'A'), OuijaStatus::Reject));
    assert!(matches!(o.finalize(), OuijaStatus::Reject));
}

#[test]
fn find_valid_sequences_on_empty_message() {
    let d = dict_of(&["CAT"]);
    let o = Ouija::new(d);
    // The empty message is trivially decomposable into zero words.
    let ws = o.find_valid_sequences().unwrap();
    assert!(ws.is_empty());
}

#[test]
fn shared_dictionary_serves_many_sessions() {
    let d = dict_of(&["HI", "HAT"]);
    let mut first = Ouija::new(Arc::clone(&d));
    let mut second = Ouija::new(Arc::clone(&d));
    assert_eq!(push_all(&mut first, "HI"), vec![true, true]);
    assert_eq!(push_all(&mut second, "HAT"), vec![true, true, true]);
    assert_eq!(done_words(first.finalize()), vec!["HI"]);
    assert_eq!(done_words(second.finalize()), vec!["HAT"]);
}
