//! The line format: a word, optionally followed by a space and a distance.
//!
//! A line is cut into tokens at each space. The first token is the word; the
//! second, where there is one, is the distance in decimal digits, and what
//! follows it is ignored. Two spaces in a row enclose an empty token.

use crate::password::{Password, PasswordParseError, Record};
use vstd::prelude::*;
use vstd::std_specs::iter::IteratorSpec;

verus! {

/// Where the token that starts at `from` ends: the position of the first
/// space at or after `from`, or the length of the line where no space
/// follows.
pub open spec fn token_end(line: Seq<char>, from: int) -> int
    decreases line.len() - from,
{
    if from < 0 || from >= line.len() {
        line.len() as int
    } else if line[from] == ' ' {
        from
    } else {
        token_end(line, from + 1)
    }
}

/// Is `c` one of the ten decimal digits?
pub open spec fn is_digit(c: char) -> bool {
    '0' <= c <= '9'
}

/// The number that a decimal digit stands for.
pub open spec fn digit_value(c: char) -> nat {
    (c as int - '0' as int) as nat
}

/// Does `s` hold decimal digits only?
pub open spec fn all_digits(s: Seq<char>) -> bool {
    forall|i: int| 0 <= i < s.len() ==> is_digit(#[trigger] s[i])
}

/// The number that a sequence of decimal digits stands for.
pub open spec fn decimal_value(digits: Seq<char>) -> nat
    decreases digits.len(),
{
    if digits.len() == 0 {
        0
    } else {
        10 * decimal_value(digits.drop_last()) + digit_value(digits.last())
    }
}

/// The token without the plus sign that may stand in front of the digits.
pub open spec fn unsigned_part(token: Seq<char>) -> Seq<char> {
    if token.len() > 0 && token[0] == '+' {
        token.drop_first()
    } else {
        token
    }
}

/// The distance that a token stands for: one or more decimal digits, with or
/// without a plus sign in front, whose value fits the machine word. Any other
/// token stands for no distance.
pub open spec fn distance_of(token: Seq<char>) -> Option<nat> {
    let digits = unsigned_part(token);
    if digits.len() > 0 && all_digits(digits) && decimal_value(digits) <= usize::MAX {
        Some(decimal_value(digits))
    } else {
        None
    }
}

/// What a line stands for. The empty line holds no word. A line without a
/// space is a candidate. Any other line is a witness, if its second token is
/// a distance.
pub open spec fn record_of(line: Seq<char>) -> Result<Record, PasswordParseError> {
    let end = token_end(line, 0);
    let word = line.subrange(0, end);
    if line.len() == 0 {
        Err(PasswordParseError::NoInput)
    } else if end == line.len() {
        Ok(Record::Candidate { word })
    } else {
        match distance_of(line.subrange(end + 1, token_end(line, end + 1))) {
            Some(distance) => Ok(Record::Witness { word, distance }),
            None => Err(PasswordParseError::BadDistance),
        }
    }
}

/// A token lies within the line, holds no space, and is followed by a space
/// or by the end of the line.
pub proof fn lemma_token_end(line: Seq<char>, from: int)
    requires
        0 <= from <= line.len(),
    ensures
        from <= token_end(line, from) <= line.len(),
        forall|i: int| from <= i < token_end(line, from) ==> line[i] != ' ',
        token_end(line, from) < line.len() ==> line[token_end(line, from)] == ' ',
    decreases line.len() - from,
{
    if from < line.len() && line[from] != ' ' {
        lemma_token_end(line, from + 1);
    }
}

/// A stretch without a space that ends at a space, or at the end of the line,
/// is a token.
pub proof fn lemma_token_ends_at(line: Seq<char>, from: int, end: int)
    requires
        0 <= from <= end <= line.len(),
        forall|i: int| from <= i < end ==> line[i] != ' ',
        end < line.len() ==> line[end] == ' ',
    ensures
        token_end(line, from) == end,
    decreases end - from,
{
    if from < end {
        lemma_token_ends_at(line, from + 1, end);
    }
}

/// A word that is not empty and holds no space, alone on its line, is a
/// candidate.
pub proof fn lemma_word_alone_is_candidate(word: Seq<char>)
    requires
        word.len() > 0,
        forall|i: int| 0 <= i < word.len() ==> word[i] != ' ',
    ensures
        record_of(word) == Ok::<Record, PasswordParseError>(Record::Candidate { word }),
{
    lemma_token_ends_at(word, 0, word.len() as int);
    assert(word.subrange(0, word.len() as int) =~= word);
}

/// A word that holds no space, then a space, then decimal digits of a value
/// that fits, is a witness with that word and that value for its distance.
pub proof fn lemma_word_and_digits_are_witness(word: Seq<char>, digits: Seq<char>)
    requires
        forall|i: int| 0 <= i < word.len() ==> word[i] != ' ',
        digits.len() > 0,
        all_digits(digits),
        decimal_value(digits) <= usize::MAX,
    ensures
        record_of(word + seq![' '] + digits) == Ok::<Record, PasswordParseError>(
            Record::Witness { word, distance: decimal_value(digits) },
        ),
{
    let line = word + seq![' '] + digits;
    let end = word.len() as int;
    lemma_token_ends_at(line, 0, end);
    assert forall|i: int| end + 1 <= i < line.len() implies line[i] != ' ' by {
        assert(line[i] == digits[i - end - 1]);
    }
    lemma_token_ends_at(line, end + 1, line.len() as int);
    assert(line.subrange(0, end) =~= word);
    assert(line.subrange(end + 1, line.len() as int) =~= digits);
}

/// Cutting the line at or after the end of a token does not move that end.
proof fn lemma_token_end_of_prefix(line: Seq<char>, from: int, k: int)
    requires
        0 <= from <= k <= line.len(),
        token_end(line, from) <= k,
    ensures
        token_end(line.take(k), from) == token_end(line, from),
    decreases k - from,
{
    lemma_token_end(line, from);
    if from < k && line[from] != ' ' {
        lemma_token_end_of_prefix(line, from + 1, k);
    }
}

/// The word of a record that was read from a line is the first token of the
/// line: it holds no space, and it is empty only where the line begins with
/// a space.
pub proof fn lemma_word_is_first_token(line: Seq<char>)
    requires
        record_of(line) is Ok,
    ensures
        record_of(line)->Ok_0.word() == line.subrange(0, token_end(line, 0)),
        forall|i: int|
            0 <= i < record_of(line)->Ok_0.word().len() ==> record_of(line)->Ok_0.word()[i] != ' ',
        record_of(line)->Ok_0.word().len() == 0 <==> line[0] == ' ',
{
    lemma_token_end(line, 0);
}

/// What follows the second token has no influence on what the line stands
/// for.
pub proof fn lemma_further_tokens_ignored(line: Seq<char>)
    requires
        token_end(line, 0) < line.len(),
    ensures
        record_of(line) == record_of(line.take(token_end(line, token_end(line, 0) + 1))),
{
    let end = token_end(line, 0);
    lemma_token_end(line, 0);
    lemma_token_end(line, end + 1);
    let stop = token_end(line, end + 1);
    let cut = line.take(stop);
    lemma_token_end_of_prefix(line, 0, stop);
    lemma_token_end_of_prefix(line, end + 1, stop);
    assert(cut.subrange(0, end) =~= line.subrange(0, end));
    assert(cut.subrange(end + 1, stop) =~= line.subrange(end + 1, stop));
}

/// The value of the first `k` digits is no more than the value of them all.
proof fn lemma_decimal_value_grows(digits: Seq<char>, k: int)
    requires
        0 <= k <= digits.len(),
    ensures
        decimal_value(digits.take(k)) <= decimal_value(digits),
    decreases digits.len(),
{
    if k == digits.len() {
        assert(digits.take(k) =~= digits);
    } else {
        lemma_decimal_value_grows(digits.drop_last(), k);
        assert(digits.drop_last().take(k) =~= digits.take(k));
    }
}

/// Finds the end of the token that starts at `from`.
fn find_token_end(line: &str, from: usize, total: usize) -> (end: usize)
    requires
        total == line@.len(),
        from <= total,
    ensures
        end == token_end(line@, from as int),
{
    let mut rest = line.chars();
    let mut i: usize = 0;
    loop
        invariant
            0 <= i <= total,
            total == line@.len(),
            from <= total,
            rest.remaining() == line@.skip(i as int),
            i >= from ==> token_end(line@, from as int) == token_end(line@, i as int),
        decreases total - i,
    {
        match rest.next() {
            None => {
                return i;
            },
            Some(c) => {
                if i >= from && c == ' ' {
                    return i;
                }
                i = i + 1;
            },
        }
    }
}

/// The number that `c` stands for, if it is a decimal digit.
fn digit_of(c: char) -> (digit: Option<usize>)
    ensures
        digit is Some <==> is_digit(c),
        digit matches Some(d) ==> d == digit_value(c),
{
    if '0' <= c && c <= '9' {
        Some((c as u32 - '0' as u32) as usize)
    } else {
        None
    }
}

/// Reads one or more decimal digits as a number. Gives `None` for anything
/// else, and for a number that does not fit.
fn parse_digits(digits: &str) -> (number: Option<usize>)
    ensures
        number is Some <==> digits@.len() > 0 && all_digits(digits@) && decimal_value(digits@)
            <= usize::MAX,
        number matches Some(value) ==> value == decimal_value(digits@),
{
    let mut rest = digits.chars();
    let mut value: usize = 0;
    let mut any = false;
    let ghost mut n: int = 0;
    loop
        invariant
            0 <= n <= digits@.len(),
            any == (n > 0),
            rest.remaining() == digits@.skip(n),
            all_digits(digits@.take(n)),
            value == decimal_value(digits@.take(n)),
        decreases digits@.len() - n,
    {
        let c = match rest.next() {
            None => {
                assert(digits@.take(n) =~= digits@);
                return if any {
                    Some(value)
                } else {
                    None
                };
            },
            Some(c) => c,
        };
        proof {
            // The digits read so far and `c` are worth no more than all of
            // them: once they do not fit, nothing that follows can mend it.
            assert(digits@.take(n + 1).drop_last() =~= digits@.take(n));
            lemma_decimal_value_grows(digits@, n + 1);
        }
        let digit = match digit_of(c) {
            None => {
                return None;
            },
            Some(digit) => digit,
        };
        let tenfold = match value.checked_mul(10) {
            None => {
                return None;
            },
            Some(tenfold) => tenfold,
        };
        value = match tenfold.checked_add(digit) {
            None => {
                return None;
            },
            Some(sum) => sum,
        };
        any = true;
        proof {
            n = n + 1;
        }
    }
}

/// Reads a distance: decimal digits, with or without a plus sign in front.
/// Gives `None` for anything else, and for a number that does not fit.
pub fn parse_distance(token: &str) -> (distance: Option<usize>)
    ensures
        distance is Some <==> distance_of(token@) is Some,
        distance matches Some(d) ==> distance_of(token@) == Some(d as nat),
{
    let total = token.unicode_len();
    if total > 0 && token.get_char(0) == '+' {
        parse_digits(token.substring_char(1, total))
    } else {
        parse_digits(token)
    }
}

/// Reads one line: `word` for a candidate, `word distance` for a witness.
pub fn parse_line(line: &str) -> (parsed: Result<Password, PasswordParseError>)
    ensures
        record_of(line@) == match parsed {
            Ok(password) => Ok::<Record, PasswordParseError>(password@),
            Err(error) => Err(error),
        },
{
    let total = line.unicode_len();
    if total == 0 {
        return Err(PasswordParseError::NoInput);
    }
    let end = find_token_end(line, 0, total);
    proof {
        lemma_token_end(line@, 0);
    }
    let word = line.substring_char(0, end);
    if end == total {
        return Ok(Password::candidate(word));
    }
    let stop = find_token_end(line, end + 1, total);
    proof {
        lemma_token_end(line@, end + 1);
    }
    match parse_distance(line.substring_char(end + 1, stop)) {
        Some(distance) => Ok(Password::witness(word, distance)),
        None => Err(PasswordParseError::BadDistance),
    }
}

} // verus!
