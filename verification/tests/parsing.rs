use password_filter::parse::{parse_distance, parse_line};
use password_filter::password::{Password, PasswordParseError};
use std::str::FromStr;

fn word_and_distance(line: &str) -> (String, Option<usize>) {
    match parse_line(line) {
        Ok(password) => (password.word().to_string(), password.distance()),
        Err(error) => panic!("{:?} for {:?}", error, line),
    }
}

fn error_of(line: &str) -> PasswordParseError {
    match parse_line(line) {
        Ok(password) => panic!("{:?} for {:?}", password, line),
        Err(error) => error,
    }
}

#[test]
fn one_token_is_a_candidate() {
    assert_eq!(word_and_distance("abcd"), (String::from("abcd"), None));
    assert!(matches!(parse_line("abcd"), Ok(Password::Candidate(_))));
    assert_eq!(word_and_distance("x"), (String::from("x"), None));
}

#[test]
fn two_tokens_are_a_witness() {
    assert_eq!(word_and_distance("abcd 2"), (String::from("abcd"), Some(2)));
    assert!(matches!(parse_line("abcd 2"), Ok(Password::Witness(_, 2))));
    assert_eq!(word_and_distance("abcd 0"), (String::from("abcd"), Some(0)));
    assert_eq!(word_and_distance("password 12"), (String::from("password"), Some(12)));
}

#[test]
fn further_tokens_are_ignored() {
    assert_eq!(word_and_distance("abcd 2 extra"), (String::from("abcd"), Some(2)));
    assert_eq!(word_and_distance("abcd 2 3 4 5"), (String::from("abcd"), Some(2)));
    assert_eq!(word_and_distance("abcd 2 "), (String::from("abcd"), Some(2)));
    assert_eq!(word_and_distance("abcd 2  not a number"), (String::from("abcd"), Some(2)));
}

#[test]
fn empty_line_is_no_input() {
    assert_eq!(error_of(""), PasswordParseError::NoInput);
}

#[test]
fn second_token_must_be_a_number() {
    assert_eq!(error_of("abcd x"), PasswordParseError::BadDistance);
    assert_eq!(error_of("abcd 2x"), PasswordParseError::BadDistance);
    assert_eq!(error_of("abcd x2"), PasswordParseError::BadDistance);
    assert_eq!(error_of("abcd 1.5"), PasswordParseError::BadDistance);
    assert_eq!(error_of("abcd 1_000"), PasswordParseError::BadDistance);
    assert_eq!(error_of("abcd two 2"), PasswordParseError::BadDistance);
}

#[test]
fn distance_must_not_be_negative() {
    assert_eq!(error_of("abcd -1"), PasswordParseError::BadDistance);
    assert_eq!(error_of("abcd -0"), PasswordParseError::BadDistance);
    assert_eq!(error_of("abcd -"), PasswordParseError::BadDistance);
}

#[test]
fn empty_second_token_is_a_bad_distance() {
    assert_eq!(error_of("abcd "), PasswordParseError::BadDistance);
    assert_eq!(error_of("abcd  2"), PasswordParseError::BadDistance);
    assert_eq!(error_of(" "), PasswordParseError::BadDistance);
}

#[test]
fn line_that_starts_with_a_space_has_an_empty_word() {
    assert_eq!(word_and_distance(" 3"), (String::new(), Some(3)));
}

#[test]
fn plus_sign_and_leading_zeros_are_read() {
    assert_eq!(word_and_distance("abcd +3"), (String::from("abcd"), Some(3)));
    assert_eq!(word_and_distance("abcd 007"), (String::from("abcd"), Some(7)));
    assert_eq!(word_and_distance("abcd +0"), (String::from("abcd"), Some(0)));
    assert_eq!(error_of("abcd +"), PasswordParseError::BadDistance);
    assert_eq!(error_of("abcd ++1"), PasswordParseError::BadDistance);
    assert_eq!(error_of("abcd +-1"), PasswordParseError::BadDistance);
}

#[test]
fn distance_must_fit_the_machine_word() {
    let largest = format!("abcd {}", usize::MAX);
    assert_eq!(word_and_distance(&largest), (String::from("abcd"), Some(usize::MAX)));
    let beyond = format!("abcd {}0", usize::MAX);
    assert_eq!(error_of(&beyond), PasswordParseError::BadDistance);
    let next = format!("abcd {}", usize::MAX as u128 + 1);
    assert_eq!(error_of(&next), PasswordParseError::BadDistance);
    assert_eq!(
        error_of("abcd 99999999999999999999999999999999999999999999"),
        PasswordParseError::BadDistance
    );
}

#[test]
fn only_ascii_digits_count() {
    assert_eq!(error_of("abcd ٣"), PasswordParseError::BadDistance);
    assert_eq!(error_of("abcd ２"), PasswordParseError::BadDistance);
}

#[test]
fn only_the_space_separates_tokens() {
    assert_eq!(word_and_distance("abcd\t2"), (String::from("abcd\t2"), None));
    assert_eq!(word_and_distance("ab-cd"), (String::from("ab-cd"), None));
}

#[test]
fn words_may_hold_any_characters() {
    assert_eq!(word_and_distance("héllo 4"), (String::from("héllo"), Some(4)));
    assert_eq!(word_and_distance("日本語"), (String::from("日本語"), None));
    assert_eq!(word_and_distance("日本語 1 x"), (String::from("日本語"), Some(1)));
}

#[test]
fn from_str_reads_a_line() {
    let witness = Password::from_str("abcd 2").unwrap();
    assert_eq!(witness.word(), "abcd");
    assert_eq!(witness.distance(), Some(2));
    let candidate: Password = "wxyz".parse().unwrap();
    assert_eq!(candidate.word(), "wxyz");
    assert_eq!(candidate.distance(), None);
    assert!(matches!(Password::from_str(""), Err(PasswordParseError::NoInput)));
    assert!(matches!("abcd x".parse::<Password>(), Err(PasswordParseError::BadDistance)));
}

#[test]
fn parse_distance_reads_decimal_numbers() {
    assert_eq!(parse_distance("0"), Some(0));
    assert_eq!(parse_distance("7"), Some(7));
    assert_eq!(parse_distance("10"), Some(10));
    assert_eq!(parse_distance("1234567890"), Some(1234567890));
    assert_eq!(parse_distance("+42"), Some(42));
    assert_eq!(parse_distance("000"), Some(0));
    assert_eq!(parse_distance(""), None);
    assert_eq!(parse_distance("+"), None);
    assert_eq!(parse_distance("-"), None);
    assert_eq!(parse_distance("4 2"), None);
    assert_eq!(parse_distance(" 42"), None);
    assert_eq!(parse_distance("42 "), None);
    assert_eq!(parse_distance("0x10"), None);
}

#[test]
fn parse_distance_agrees_with_the_standard_parser() {
    let largest = usize::MAX.to_string();
    let beyond = format!("{}1", usize::MAX);
    let tokens = [
        "", "0", "1", "9", "10", "99", "100", "007", "+", "-", "+1", "-1", "+0", "-0", "++1", "1+",
        "1-", "a", "1a", "a1", " 1", "1 ", "1.0", "1e3", "1_0", "٣", "４", "4294967295",
        "4294967296", "18446744073709551615", "18446744073709551616", "18446744073709551620",
        "99999999999999999999", "000000000000000000000000000001", &largest, &beyond,
    ];
    for token in tokens {
        assert_eq!(parse_distance(token), token.parse::<usize>().ok(), "{:?}", token);
    }
}
