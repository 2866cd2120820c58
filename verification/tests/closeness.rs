use password_filter::closeness::count_matching;
use password_filter::password::Password;

#[test]
fn closeness_counts_matching_positions() {
    assert_eq!(count_matching("abcd", "abxd"), 3);
    assert_eq!(count_matching("abcd", "abce"), 3);
    assert_eq!(count_matching("abcd", "abdd"), 3);
    assert_eq!(count_matching("abcd", "abxy"), 2);
    assert_eq!(count_matching("abcd", "wxyz"), 0);
    assert_eq!(count_matching("abcd", "dcba"), 0);
}

#[test]
fn closeness_is_symmetric() {
    let pairs = [
        ("abcd", "abxd"),
        ("abcd", "wxyz"),
        ("abc", "abcdef"),
        ("", "abc"),
        ("tarts", "trees"),
    ];
    for (a, b) in pairs {
        assert_eq!(count_matching(a, b), count_matching(b, a));
        let left = Password::candidate(a);
        let right = Password::witness(b, 1);
        assert_eq!(left.closeness_to(&right), right.closeness_to(&left));
    }
}

#[test]
fn closeness_to_itself_is_the_length() {
    for word in ["", "a", "abcd", "password", "aaaa"] {
        let password = Password::candidate(word);
        assert_eq!(password.closeness_to(&password), word.chars().count());
        assert_eq!(count_matching(word, word), word.chars().count());
    }
}

#[test]
fn closeness_stops_at_the_shorter_word() {
    assert_eq!(count_matching("abc", "abcdef"), 3);
    assert_eq!(count_matching("abcdef", "abc"), 3);
    assert_eq!(count_matching("abc", "abcabc"), 3);
    assert_eq!(count_matching("abcxyz", "abcdefghi"), 3);
    assert_eq!(count_matching("xbc", "abcdef"), 2);
    // What follows the overlap changes nothing.
    assert_eq!(count_matching("abc", "abczzz"), count_matching("abc", "abc"));
    assert_eq!(count_matching("abc", "abcabc"), count_matching("abc", "abcxyz"));
}

#[test]
fn closeness_with_an_empty_word_is_zero() {
    assert_eq!(count_matching("", ""), 0);
    assert_eq!(count_matching("", "abc"), 0);
    assert_eq!(count_matching("abc", ""), 0);
}

#[test]
fn closeness_compares_characters_not_bytes() {
    // 'é' takes two bytes; positions are counted in characters.
    assert_eq!(count_matching("héllo", "hello"), 4);
    assert_eq!(count_matching("héllo", "héllo"), 5);
    assert_eq!(count_matching("日本語", "日本人"), 2);
}

#[test]
fn closeness_to_works_between_variants() {
    let candidate = Password::candidate("tarts");
    let witness = Password::witness("trees", 3);
    assert_eq!(candidate.closeness_to(&witness), 2);
    assert_eq!(witness.closeness_to(&candidate), 2);
}
