//! Positional closeness of two words: the number of positions at which both
//! words hold the same character.

use vstd::prelude::*;
use vstd::set_lib::{lemma_int_range, lemma_len_subset, set_int_range};
use vstd::std_specs::iter::IteratorSpec;
use vstd::utf8::encode_utf8;

verus! {

/// The positions at which `a` and `b` both have a character and the two
/// characters are equal.
pub open spec fn matching_positions(a: Seq<char>, b: Seq<char>) -> Set<int> {
    Set::new(|i: int| 0 <= i < a.len() && i < b.len() && a[i] == b[i])
}

/// The closeness of two words: how many positions match.
pub open spec fn closeness(a: Seq<char>, b: Seq<char>) -> nat {
    matching_positions(a, b).len()
}

/// The shorter of two lengths.
pub open spec fn overlap(a: Seq<char>, b: Seq<char>) -> int {
    if a.len() <= b.len() {
        a.len() as int
    } else {
        b.len() as int
    }
}

/// There are finitely many matching positions, and no more of them than the
/// shorter word has characters.
pub proof fn lemma_closeness_bounded(a: Seq<char>, b: Seq<char>)
    ensures
        matching_positions(a, b).finite(),
        closeness(a, b) <= overlap(a, b),
{
    let range = set_int_range(0, overlap(a, b));
    lemma_int_range(0, overlap(a, b));
    assert(matching_positions(a, b).subset_of(range));
    lemma_len_subset(matching_positions(a, b), range);
}

/// Closeness does not depend on the order of the two words.
pub proof fn lemma_closeness_symmetric(a: Seq<char>, b: Seq<char>)
    ensures
        closeness(a, b) == closeness(b, a),
{
    assert(matching_positions(a, b) =~= matching_positions(b, a));
}

/// A word matches itself at every position.
pub proof fn lemma_closeness_self(a: Seq<char>)
    ensures
        closeness(a, a) == a.len(),
{
    lemma_int_range(0, a.len() as int);
    assert(matching_positions(a, a) =~= set_int_range(0, a.len() as int));
}

/// Only the positions that both words have count: cutting both words down to
/// the length of the shorter one leaves the closeness unchanged.
pub proof fn lemma_closeness_truncates(a: Seq<char>, b: Seq<char>)
    ensures
        closeness(a, b) == closeness(a.take(overlap(a, b)), b.take(overlap(a, b))),
{
    let m = overlap(a, b);
    assert(matching_positions(a, b) =~= matching_positions(a.take(m), b.take(m)));
}

/// Whatever follows the end of the shorter word has no influence: two words
/// that agree with `a` and `b` on the overlap, and have that same overlap,
/// are as close as `a` and `b`.
pub proof fn lemma_closeness_ignores_excess(
    a: Seq<char>,
    b: Seq<char>,
    a2: Seq<char>,
    b2: Seq<char>,
)
    requires
        overlap(a2, b2) == overlap(a, b),
        a2.take(overlap(a, b)) == a.take(overlap(a, b)),
        b2.take(overlap(a, b)) == b.take(overlap(a, b)),
    ensures
        closeness(a2, b2) == closeness(a, b),
{
    lemma_closeness_truncates(a, b);
    lemma_closeness_truncates(a2, b2);
}

/// One where `a` and `b` hold the same character at position `i`, else zero.
spec fn match_at(a: Seq<char>, b: Seq<char>, i: int) -> nat {
    if a[i] == b[i] {
        1
    } else {
        0
    }
}

/// Closeness of the first `i + 1` characters in terms of the first `i`.
proof fn lemma_closeness_step(a: Seq<char>, b: Seq<char>, i: int)
    requires
        0 <= i < a.len(),
        i < b.len(),
    ensures
        closeness(a.take(i + 1), b.take(i + 1)) == closeness(a.take(i), b.take(i)) + match_at(
            a,
            b,
            i,
        ),
{
    let before = matching_positions(a.take(i), b.take(i));
    let after = matching_positions(a.take(i + 1), b.take(i + 1));
    lemma_closeness_bounded(a.take(i), b.take(i));
    if a[i] == b[i] {
        assert(after =~= before.insert(i));
    } else {
        assert(after =~= before);
    }
}

/// A sequence of characters is never longer than its UTF-8 encoding.
proof fn lemma_encoding_not_shorter(chars: Seq<char>)
    ensures
        chars.len() <= encode_utf8(chars).len(),
    decreases chars.len(),
{
    if chars.len() > 0 {
        lemma_encoding_not_shorter(chars.drop_first());
    }
}

/// Counts the positions at which `a` and `b` hold the same character, up to
/// the end of the shorter of the two.
pub fn count_matching(a: &str, b: &str) -> (count: usize)
    ensures
        count == closeness(a@, b@),
{
    // A string has no more characters than bytes, so the count fits.
    let bound = a.as_bytes().len();
    proof {
        lemma_encoding_not_shorter(a@);
    }
    let mut rest_a = a.chars();
    let mut rest_b = b.chars();
    let mut count: usize = 0;
    let ghost mut i: int = 0;
    proof {
        lemma_closeness_bounded(a@.take(0), b@.take(0));
    }
    loop
        invariant_except_break
            rest_a.remaining() == a@.skip(i),
            rest_b.remaining() == b@.skip(i),
        invariant
            0 <= i <= overlap(a@, b@),
            a@.len() <= bound,
            count == closeness(a@.take(i), b@.take(i)),
            count <= i,
        ensures
            i == overlap(a@, b@),
        decreases a@.len() - i,
    {
        let next_a = rest_a.next();
        let next_b = rest_b.next();
        match (next_a, next_b) {
            (Some(ca), Some(cb)) => {
                proof {
                    lemma_closeness_step(a@, b@, i);
                }
                if ca == cb {
                    count = count + 1;
                }
                proof {
                    i = i + 1;
                }
            },
            _ => {
                break ;
            },
        }
    }
    proof {
        lemma_closeness_truncates(a@, b@);
    }
    count
}

} // verus!
