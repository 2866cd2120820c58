//! A set of words, kept as a list in which no word occurs twice.

use vstd::prelude::*;
use vstd::std_specs::iter::IteratorSpec;

verus! {

/// Do the two strings hold the same characters?
pub fn same_word(a: &str, b: &str) -> (same: bool)
    ensures
        same == (a@ == b@),
{
    let mut rest_a = a.chars();
    let mut rest_b = b.chars();
    let ghost mut i: int = 0;
    loop
        invariant
            0 <= i <= a@.len(),
            i <= b@.len(),
            rest_a.remaining() == a@.skip(i),
            rest_b.remaining() == b@.skip(i),
            a@.take(i) == b@.take(i),
        decreases a@.len() - i,
    {
        let next_a = rest_a.next();
        let next_b = rest_b.next();
        match (next_a, next_b) {
            (Some(ca), Some(cb)) => {
                if ca != cb {
                    return false;
                }
                proof {
                    i = i + 1;
                }
            },
            (None, None) => {
                assert(a@ =~= a@.take(i));
                assert(b@ =~= b@.take(i));
                return true;
            },
            _ => {
                return false;
            },
        }
    }
}

/// The elements of a list that grew by one are those of the list before and
/// the new one.
proof fn lemma_push_to_set(list: Seq<Seq<char>>, word: Seq<char>)
    ensures
        list.push(word).to_set() == list.to_set().insert(word),
{
    assert forall|w: Seq<char>| list.push(word).to_set().contains(w) <==> list.to_set().insert(
        word,
    ).contains(w) by {
        if list.contains(w) {
            let j = choose|j: int| 0 <= j < list.len() && list[j] == w;
            assert(list.push(word)[j] == w);
        }
        if w == word {
            assert(list.push(word)[list.len() as int] == w);
        }
    }
}

/// A finite set of words.
pub struct WordSet {
    words: Vec<String>,
}

impl View for WordSet {
    type V = Set<Seq<char>>;

    closed spec fn view(&self) -> Set<Seq<char>> {
        self.words.deep_view().to_set()
    }
}

impl DeepView for WordSet {
    type V = Set<Seq<char>>;

    open spec fn deep_view(&self) -> Set<Seq<char>> {
        self@
    }
}

impl WordSet {
    #[verifier::type_invariant]
    spec fn distinct(&self) -> bool {
        self.words.deep_view().no_duplicates()
    }

    /// The empty set.
    pub fn new() -> (set: WordSet)
        ensures
            set@ == Set::<Seq<char>>::empty(),
    {
        WordSet { words: Vec::new() }
    }

    /// Is `word` in the set?
    pub fn contains(&self, word: &str) -> (found: bool)
        ensures
            found == self@.contains(word@),
    {
        let mut k: usize = 0;
        while k < self.words.len()
            invariant
                0 <= k <= self.words.len(),
                forall|j: int| 0 <= j < k ==> self.words.deep_view()[j] != word@,
            decreases self.words.len() - k,
        {
            if same_word(self.words[k].as_str(), word) {
                assert(self.words.deep_view()[k as int] == word@);
                return true;
            }
            k = k + 1;
        }
        false
    }

    /// Adds `word` to the set, and says whether it was new.
    pub fn insert(&mut self, word: &str) -> (added: bool)
        ensures
            final(self)@ == old(self)@.insert(word@),
            added == !old(self)@.contains(word@),
    {
        if self.contains(word) {
            return false;
        }
        // The list is moved out, grown and put back whole, so that the set
        // holds distinct words at every moment.
        let mut taken = WordSet::new();
        core::mem::swap(self, &mut taken);
        proof {
            use_type_invariant(&taken);
        }
        let mut words = taken.words;
        let ghost before = words.deep_view();
        words.push(word.to_owned());
        proof {
            assert(words.deep_view() =~= before.push(word@));
            lemma_push_to_set(before, word@);
        }
        *self = WordSet { words };
        true
    }

    /// The words of the set, each of them once.
    pub fn words(&self) -> (words: &Vec<String>)
        ensures
            words.deep_view().no_duplicates(),
            words.deep_view().to_set() == self@,
    {
        proof {
            use_type_invariant(self);
        }
        &self.words
    }

    /// Gives up the set for the list of its words, each of them once.
    pub fn into_words(self) -> (words: Vec<String>)
        ensures
            words.deep_view().no_duplicates(),
            words.deep_view().to_set() == self@,
    {
        proof {
            use_type_invariant(&self);
        }
        self.words
    }
}

} // verus!
