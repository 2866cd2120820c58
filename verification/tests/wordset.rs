use password_filter::wordset::{same_word, WordSet};

#[test]
fn new_set_is_empty() {
    let set = WordSet::new();
    assert!(!set.contains("a"));
    assert!(!set.contains(""));
    assert!(set.words().is_empty());
    assert!(set.into_words().is_empty());
}

#[test]
fn insert_says_whether_the_word_was_new() {
    let mut set = WordSet::new();
    assert!(set.insert("alpha"));
    assert!(set.insert("beta"));
    assert!(!set.insert("alpha"));
    assert!(!set.insert("beta"));
    assert!(set.insert(""));
    assert!(!set.insert(""));
    assert_eq!(set.words().len(), 3);
}

#[test]
fn contains_finds_what_was_inserted() {
    let mut set = WordSet::new();
    set.insert("alpha");
    set.insert("beta");
    assert!(set.contains("alpha"));
    assert!(set.contains("beta"));
    assert!(!set.contains("gamma"));
    assert!(!set.contains("alph"));
    assert!(!set.contains("alphabet"));
    assert!(!set.contains("Alpha"));
}

#[test]
fn words_hold_each_word_once() {
    let mut set = WordSet::new();
    for word in ["b", "a", "b", "c", "a", "b"] {
        set.insert(word);
    }
    let mut words = set.into_words();
    words.sort();
    assert_eq!(words, vec!["a", "b", "c"]);
}

#[test]
fn same_word_compares_all_characters() {
    assert!(same_word("", ""));
    assert!(same_word("abcd", "abcd"));
    assert!(same_word("héllo", "héllo"));
    assert!(!same_word("abcd", "abce"));
    assert!(!same_word("abcd", "xbcd"));
    assert!(!same_word("abc", "abcd"));
    assert!(!same_word("abcd", "abc"));
    assert!(!same_word("", "a"));
    assert!(!same_word("hello", "héllo"));
}
