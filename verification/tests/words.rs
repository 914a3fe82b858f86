use heavykeeper::priority_queue::TopKQueue;
use heavykeeper::sip::SipState;
use heavykeeper::words::{next_word, Word, MAX_WORD_LEN};
use std::cmp::Ordering;
use std::collections::HashSet;

fn words(text: &[u8]) -> Vec<String> {
    let mut out = Vec::new();
    let mut pos = 0;
    while let Some((word, after)) = next_word(text, pos) {
        out.push(String::from_utf8(word.as_slice().to_vec()).unwrap());
        pos = after;
    }
    out
}

#[test]
fn words_are_lower_case_runs_of_letters() {
    assert_eq!(words(b""), Vec::<String>::new());
    assert_eq!(words(b" 12, 34!"), Vec::<String>::new());
    assert_eq!(words(b"Hello, World"), vec!["hello", "world"]);
    assert_eq!(words(b"  don't STOP-now9x@[`{"), vec!["don", "t", "stop", "now", "x"]);
    assert_eq!(words("a\u{e9}b".as_bytes()), vec!["a", "b"]);
    assert_eq!(words(b"AZaz"), vec!["azaz"]);
}

#[test]
fn runs_that_are_too_long_are_passed_over() {
    let longest = "x".repeat(MAX_WORD_LEN);
    let too_long = "y".repeat(MAX_WORD_LEN + 1);
    let text = format!("{longest} {too_long} z {too_long}");
    assert_eq!(words(text.as_bytes()), vec![longest, "z".to_string()]);
}

#[test]
fn a_full_word_takes_no_more() {
    let mut word = Word::new();
    assert!(word.as_slice().is_empty());
    for i in 0..100u8 {
        word.push(i);
    }
    assert_eq!(word.as_slice().len(), MAX_WORD_LEN);
    assert_eq!(word.as_slice()[63], 63);
    word.clear();
    assert!(word.as_slice().is_empty());
    word.push(7);
    assert_eq!(word.as_slice(), &[7]);
}

#[test]
fn words_are_compared_and_hashed_by_content() {
    let mut a = Word::new();
    for b in b"abcdef" {
        a.push(*b);
    }
    a.clear();
    a.push(b'q');
    let mut b = Word::new();
    b.push(b'q');
    assert_eq!(a, b);
    assert_eq!(a.cmp(&b), Ordering::Equal);
    let state = SipState::with_seed(12);
    assert_eq!(state.hash_one(&a), state.hash_one(&b));
    assert_eq!(state.hash_one(&a), state.hash_one(b"q".as_slice()));
    let mut set = HashSet::new();
    set.insert(a.clone());
    assert!(set.contains(&b));
    b.push(b'r');
    assert!(a < b);
    assert!(!set.contains(&b));
}

#[test]
fn words_can_be_tracked() {
    let mut queue: TopKQueue<Word> = TopKQueue::with_capacity(2);
    let mut pos = 0;
    let text = b"the cat and the dog and the bird";
    while let Some((word, after)) = next_word(text, pos) {
        let count = queue.get(&word).unwrap_or(0) + 1;
        queue.upsert(word, count);
        pos = after;
    }
    assert_eq!(queue.get(b"the".as_slice()), Some(3));
    assert_eq!(queue.min_count(), 1);
}
