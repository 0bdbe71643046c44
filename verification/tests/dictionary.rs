use askouija::dict::{
    copy_bytes, line_admissible, word_matches, word_matches_at, word_matches_prefix, Dictionary,
};

fn lines_of(lines: &[&str]) -> Vec<Vec<u8>> {
    lines.iter().map(|l| l.as_bytes().to_vec()).collect()
}

#[test]
fn from_lines_keeps_only_admissible_words() {
    let d = Dictionary::from_lines(lines_of(&["cat", "a", "B", "x1", "", "Dog", "A"]));
    let kept: Vec<&[u8]> = d.words().iter().map(|w| w.as_slice()).collect();
    assert_eq!(kept, vec![b"cat".as_slice(), b"a", b"Dog", b"A"]);
    assert_eq!(d.len(), 4);
}

#[test]
fn line_admissible_cases() {
    assert!(line_admissible(&b"cat".to_vec()));
    assert!(line_admissible(&b"a".to_vec()));
    assert!(line_admissible(&b"A".to_vec()));
    assert!(line_admissible(&b"ZZ".to_vec()));
    assert!(!line_admissible(&b"b".to_vec()));
    assert!(!line_admissible(&b"".to_vec()));
    assert!(!line_admissible(&b"x1".to_vec()));
    assert!(!line_admissible(&b"two words".to_vec()));
}

#[test]
fn word_matching_is_case_insensitive() {
    assert!(word_matches(&b"CAT".to_vec(), &b"cat".to_vec()));
    assert!(word_matches(&b"cAt".to_vec(), &b"CaT".to_vec()));
    assert!(!word_matches(&b"CAT".to_vec(), &b"CATS".to_vec()));
    assert!(!word_matches(&b"CAT".to_vec(), &b"CAR".to_vec()));
}

#[test]
fn word_prefix_matching() {
    assert!(word_matches_prefix(&b"CATS".to_vec(), &b"cat".to_vec()));
    assert!(word_matches_prefix(&b"CATS".to_vec(), &b"".to_vec()));
    assert!(!word_matches_prefix(&b"CAT".to_vec(), &b"CATS".to_vec()));
    assert!(!word_matches_prefix(&b"CAT".to_vec(), &b"AT".to_vec()));
}

#[test]
fn word_window_matching() {
    let text = b"XCATX".to_vec();
    assert!(word_matches_at(&b"cat".to_vec(), &text, 1));
    assert!(!word_matches_at(&b"cat".to_vec(), &text, 0));
    assert!(!word_matches_at(&b"cat".to_vec(), &text, 3));
}

#[test]
fn copy_bytes_copies() {
    let src = b"WORD".to_vec();
    assert_eq!(copy_bytes(&src), src);
    assert_eq!(copy_bytes(&Vec::new()), Vec::<u8>::new());
}

#[test]
fn upper_byte_folds_ascii() {
    assert_eq!(askouija::text::upper_byte(b'a'), b'A');
    assert_eq!(askouija::text::upper_byte(b'z'), b'Z');
    assert_eq!(askouija::text::upper_byte(b'M'), b'M');
    assert_eq!(askouija::text::upper_byte(b'1'), b'1');
}
