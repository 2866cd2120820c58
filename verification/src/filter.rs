//! The filtering engine: which words of the pool are consistent with every
//! witness.
//!
//! Each witness stands for a constraint: the sought word is as close to the
//! witness's word as the witness's distance says. The words of the pool that
//! meet the constraint are the witness's consistency set, and the words that
//! lie in the consistency set of every witness survive.

use crate::closeness::{closeness, lemma_closeness_bounded};
use crate::password::{Password, Record};
use crate::wordset::WordSet;
use vstd::prelude::*;

verus! {

/// The words that occur in the pool, as the word of a candidate or of a
/// witness.
pub open spec fn pool_words(records: Seq<Record>) -> Set<Seq<char>> {
    Set::new(
        |w: Seq<char>| exists|i: int| 0 <= i < records.len() && #[trigger] records[i].word() == w,
    )
}

/// The consistency set of `witness`: the words of the pool whose closeness to
/// the witness's word is the witness's distance. A record without a distance
/// has an empty consistency set.
pub open spec fn consistency_set(records: Seq<Record>, witness: Record) -> Set<Seq<char>> {
    Set::new(
        |w: Seq<char>|
            {
                &&& pool_words(records).contains(w)
                &&& witness.distance() == Some(closeness(w, witness.word()))
            },
    )
}

/// The witnesses of the pool, in the order of the pool.
pub open spec fn witnesses(records: Seq<Record>) -> Seq<Record> {
    records.filter(|r: Record| r is Witness)
}

/// Does the pool hold a witness?
pub open spec fn has_witness(records: Seq<Record>) -> bool {
    exists|i: int| 0 <= i < records.len() && #[trigger] records[i] is Witness
}

/// The words that lie in every one of `sets`.
pub open spec fn common_words(sets: Seq<Set<Seq<char>>>) -> Set<Seq<char>> {
    Set::new(|w: Seq<char>| forall|k: int| 0 <= k < sets.len() ==> #[trigger] sets[k].contains(w))
}

/// Is `w` in the consistency set of every witness of the pool?
pub open spec fn survives(records: Seq<Record>, w: Seq<char>) -> bool {
    forall|i: int|
        #![trigger records[i]]
        0 <= i < records.len() && records[i] is Witness ==> consistency_set(
            records,
            records[i],
        ).contains(w)
}

/// The words that lie in the consistency set of every witness of the pool.
/// This says something only of a pool that holds a witness: without one,
/// nothing is ruled out.
pub open spec fn survivors(records: Seq<Record>) -> Set<Seq<char>> {
    Set::new(|w: Seq<char>| survives(records, w))
}

/// Taking one more record into the pool adds its word to the consistency
/// set if the word meets the constraint, and changes nothing otherwise.
proof fn lemma_consistency_set_step(records: Seq<Record>, witness: Record, i: int)
    requires
        0 <= i < records.len(),
    ensures
        consistency_set(records.take(i + 1), witness) == if witness.distance() == Some(
            closeness(records[i].word(), witness.word()),
        ) {
            consistency_set(records.take(i), witness).insert(records[i].word())
        } else {
            consistency_set(records.take(i), witness)
        },
{
    let shorter = records.take(i);
    let longer = records.take(i + 1);
    assert forall|w: Seq<char>|
        pool_words(longer).contains(w) <==> pool_words(shorter).contains(w) || w
            == records[i].word() by {
        if pool_words(longer).contains(w) {
            let j = choose|j: int| 0 <= j < longer.len() && #[trigger] longer[j].word() == w;
            if j < i {
                assert(shorter[j].word() == w);
            }
        }
        if pool_words(shorter).contains(w) {
            let j = choose|j: int| 0 <= j < shorter.len() && #[trigger] shorter[j].word() == w;
            assert(longer[j].word() == w);
        }
        if w == records[i].word() {
            assert(longer[i].word() == w);
        }
    }
    if witness.distance() == Some(closeness(records[i].word(), witness.word())) {
        assert(consistency_set(longer, witness) =~= consistency_set(shorter, witness).insert(
            records[i].word(),
        ));
    } else {
        assert(consistency_set(longer, witness) =~= consistency_set(shorter, witness));
    }
}

/// The consistency set of `witness` within the pool, or `None` where
/// `witness` is a candidate and so constrains nothing.
pub fn consistent_words(records: &Vec<Password>, witness: &Password) -> (set: Option<WordSet>)
    ensures
        set is Some <==> witness@ is Witness,
        set matches Some(words) ==> words@ == consistency_set(records.deep_view(), witness@),
{
    match witness.distance() {
        None => None,
        Some(distance) => {
            let ghost pool = records.deep_view();
            let mut words = WordSet::new();
            let mut i: usize = 0;
            while i < records.len()
                invariant
                    0 <= i <= records.len(),
                    pool == records.deep_view(),
                    witness@.distance() == Some(distance as nat),
                    words@ == consistency_set(pool.take(i as int), witness@),
                decreases records.len() - i,
            {
                let other = &records[i];
                proof {
                    lemma_consistency_set_step(pool, witness@, i as int);
                }
                if distance == other.closeness_to(witness) {
                    words.insert(other.word());
                }
                i = i + 1;
            }
            assert(pool.take(i as int) =~= pool);
            Some(words)
        },
    }
}

/// The witnesses among the first `i + 1` records are those among the first
/// `i`, followed by record `i` if it is a witness.
proof fn lemma_witnesses_step(records: Seq<Record>, i: int)
    requires
        0 <= i < records.len(),
    ensures
        witnesses(records.take(i + 1)) == if records[i] is Witness {
            witnesses(records.take(i)).push(records[i])
        } else {
            witnesses(records.take(i))
        },
{
    reveal(Seq::filter);
    assert(records.take(i + 1).drop_last() =~= records.take(i));
}

/// The consistency set of each witness of the pool, in the order of the
/// witnesses. Candidates contribute no set.
pub fn consistency_sets(records: &Vec<Password>) -> (sets: Vec<WordSet>)
    ensures
        sets.len() == witnesses(records.deep_view()).len(),
        forall|k: int|
            0 <= k < sets.len() ==> #[trigger] sets[k]@ == consistency_set(
                records.deep_view(),
                witnesses(records.deep_view())[k],
            ),
{
    let ghost pool = records.deep_view();
    let mut sets: Vec<WordSet> = Vec::new();
    let mut i: usize = 0;
    while i < records.len()
        invariant
            0 <= i <= records.len(),
            pool == records.deep_view(),
            sets.len() == witnesses(pool.take(i as int)).len(),
            forall|k: int|
                0 <= k < sets.len() ==> #[trigger] sets[k]@ == consistency_set(
                    pool,
                    witnesses(pool.take(i as int))[k],
                ),
        decreases records.len() - i,
    {
        proof {
            lemma_witnesses_step(pool, i as int);
        }
        match consistent_words(records, &records[i]) {
            None => {},
            Some(words) => {
                sets.push(words);
            },
        }
        i = i + 1;
    }
    assert(pool.take(i as int) =~= pool);
    sets
}

/// Does every set from index `from` on hold `word`?
fn in_all_from(sets: &Vec<WordSet>, from: usize, word: &str) -> (everywhere: bool)
    ensures
        everywhere == forall|k: int|
            from <= k < sets.len() ==> #[trigger] sets.deep_view()[k].contains(word@),
{
    let ghost family = sets.deep_view();
    let mut k: usize = from;
    while k < sets.len()
        invariant
            from <= k,
            family == sets.deep_view(),
            forall|j: int| from <= j < k && j < sets.len() ==> #[trigger] family[j].contains(word@),
        decreases sets.len() - k,
    {
        assert(family[k as int] == sets[k as int]@);
        if !sets[k].contains(word) {
            return false;
        }
        k = k + 1;
    }
    true
}

/// A word of the first set lies in every set if it lies in every set after
/// the first.
proof fn lemma_common_from_second(sets: Seq<Set<Seq<char>>>, w: Seq<char>)
    requires
        sets.len() > 0,
        sets[0].contains(w),
    ensures
        common_words(sets).contains(w) <==> forall|k: int|
            1 <= k < sets.len() ==> #[trigger] sets[k].contains(w),
{
}

/// The elements of the first `j + 1` items of a list are those of the first
/// `j` and item `j`.
proof fn lemma_take_contains_step(list: Seq<Seq<char>>, j: int, w: Seq<char>)
    requires
        0 <= j < list.len(),
    ensures
        list.take(j + 1).contains(w) <==> list.take(j).contains(w) || w == list[j],
{
    let shorter = list.take(j);
    let longer = list.take(j + 1);
    if shorter.contains(w) {
        let n = choose|n: int| 0 <= n < shorter.len() && shorter[n] == w;
        assert(longer[n] == w);
    }
    if w == list[j] {
        assert(longer[j] == w);
    }
    if longer.contains(w) {
        let n = choose|n: int| 0 <= n < longer.len() && longer[n] == w;
        if n < j {
            assert(shorter[n] == w);
        }
    }
}

/// The words that lie in every one of `sets`, or `None` where there is no
/// set to begin with.
pub fn shared_words(sets: &Vec<WordSet>) -> (shared: Option<WordSet>)
    ensures
        shared is Some <==> sets.len() > 0,
        shared matches Some(words) ==> words@ == common_words(sets.deep_view()),
{
    if sets.len() == 0 {
        return None;
    }
    let first = sets[0].words();
    let ghost family = sets.deep_view();
    let ghost listed = first.deep_view();
    let mut shared = WordSet::new();
    let mut j: usize = 0;
    while j < first.len()
        invariant
            0 <= j <= first.len(),
            sets.len() > 0,
            family == sets.deep_view(),
            listed == first.deep_view(),
            listed.to_set() == family[0],
            forall|w: Seq<char>|
                shared@.contains(w) <==> listed.take(j as int).contains(w) && common_words(
                    family,
                ).contains(w),
        decreases first.len() - j,
    {
        let word = first[j].as_str();
        let everywhere = in_all_from(sets, 1, word);
        proof {
            assert(listed[j as int] == word@);
            lemma_common_from_second(family, word@);
            assert forall|w: Seq<char>|
                listed.take(j + 1).contains(w) <==> listed.take(j as int).contains(w) || w
                    == word@ by {
                lemma_take_contains_step(listed, j as int, w);
            }
        }
        if everywhere {
            shared.insert(word);
        }
        j = j + 1;
    }
    proof {
        assert(listed.take(j as int) =~= listed);
        assert forall|w: Seq<char>| common_words(family).contains(w) implies listed.contains(
            w,
        ) by {
            assert(family[0].contains(w));
        }
    }
    Some(shared)
}

/// The words of the pool that are consistent with every witness, each of them
/// once, in no particular order; or `None` where the pool holds no witness
/// and so nothing can be told.
pub fn surviving_words(records: &Vec<Password>) -> (words: Option<Vec<String>>)
    ensures
        words is Some <==> has_witness(records.deep_view()),
        words matches Some(list) ==> {
            &&& list.deep_view().no_duplicates()
            &&& list.deep_view().to_set() == survivors(records.deep_view())
        },
{
    let sets = consistency_sets(records);
    proof {
        lemma_witnesses_are_listed(records.deep_view());
        lemma_common_words_are_survivors(records.deep_view(), sets.deep_view());
    }
    match shared_words(&sets) {
        None => None,
        Some(shared) => Some(shared.into_words()),
    }
}

/// The witnesses of a pool are its records that are witnesses: each of them
/// is listed, and nothing else is.
pub proof fn lemma_witnesses_are_listed(records: Seq<Record>)
    ensures
        forall|k: int|
            0 <= k < witnesses(records).len() ==> {
                &&& (#[trigger] witnesses(records)[k]) is Witness
                &&& records.contains(witnesses(records)[k])
            },
        forall|i: int|
            0 <= i < records.len() && (#[trigger] records[i]) is Witness ==> witnesses(
                records,
            ).contains(records[i]),
        has_witness(records) <==> witnesses(records).len() > 0,
{
    let is_witness = |r: Record| r is Witness;
    let listed = witnesses(records);
    assert forall|k: int| 0 <= k < listed.len() implies (#[trigger] listed[k]) is Witness
        && records.contains(listed[k]) by {
        records.lemma_filter_pred(is_witness, k);
        assert(listed.contains(listed[k]));
        records.lemma_filter_contains_rev(is_witness, listed[k]);
    }
    assert forall|i: int|
        0 <= i < records.len() && (#[trigger] records[i]) is Witness implies listed.contains(
        records[i],
    ) by {
        records.lemma_filter_contains(is_witness, i);
    }
    if has_witness(records) {
        let i = choose|i: int| 0 <= i < records.len() && #[trigger] records[i] is Witness;
        assert(listed.contains(records[i]));
    }
    if listed.len() > 0 {
        assert(records.contains(listed[0]));
    }
}

/// The words that lie in the consistency set of each listed witness are the
/// survivors of the pool.
pub proof fn lemma_common_words_are_survivors(records: Seq<Record>, sets: Seq<Set<Seq<char>>>)
    requires
        sets.len() == witnesses(records).len(),
        forall|k: int|
            0 <= k < sets.len() ==> #[trigger] sets[k] == consistency_set(
                records,
                witnesses(records)[k],
            ),
    ensures
        common_words(sets) == survivors(records),
{
    lemma_witnesses_are_listed(records);
    let listed = witnesses(records);
    assert forall|w: Seq<char>| common_words(sets).contains(w) <==> survives(records, w) by {
        if common_words(sets).contains(w) {
            assert forall|i: int|
                #![trigger records[i]]
                0 <= i < records.len() && records[i] is Witness implies consistency_set(
                records,
                records[i],
            ).contains(w) by {
                assert(listed.contains(records[i]));
                let k = choose|k: int| 0 <= k < listed.len() && listed[k] == records[i];
                assert(sets[k].contains(w));
            }
        }
        if survives(records, w) {
            assert forall|k: int| 0 <= k < sets.len() implies #[trigger] sets[k].contains(w) by {
                assert(records.contains(listed[k]));
            }
        }
    }
}

/// Where the pool holds a witness, every survivor is a word of the pool.
pub proof fn lemma_survivors_in_pool(records: Seq<Record>)
    requires
        has_witness(records),
    ensures
        survivors(records).subset_of(pool_words(records)),
{
    let i = choose|i: int| 0 <= i < records.len() && #[trigger] records[i] is Witness;
    assert forall|w: Seq<char>| survives(records, w) implies pool_words(records).contains(w) by {
        assert(consistency_set(records, records[i]).contains(w));
    }
}

/// With a single witness in the pool, the survivors are the consistency set
/// of that witness.
pub proof fn lemma_single_witness(records: Seq<Record>, i: int)
    requires
        0 <= i < records.len(),
        records[i] is Witness,
        forall|j: int| 0 <= j < records.len() && j != i ==> !(#[trigger] records[j] is Witness),
    ensures
        survivors(records) == consistency_set(records, records[i]),
{
    assert forall|w: Seq<char>|
        survives(records, w) <==> consistency_set(records, records[i]).contains(w) by {
        if consistency_set(records, records[i]).contains(w) {
            assert forall|j: int|
                #![trigger records[j]]
                0 <= j < records.len() && records[j] is Witness implies consistency_set(
                records,
                records[j],
            ).contains(w) by {
                assert(j == i);
            }
        }
    }
}

/// A witness whose consistency set is empty leaves no survivor.
pub proof fn lemma_empty_consistency_set_leaves_nothing(records: Seq<Record>, i: int)
    requires
        0 <= i < records.len(),
        records[i] is Witness,
        consistency_set(records, records[i]) == Set::<Seq<char>>::empty(),
    ensures
        survivors(records) == Set::<Seq<char>>::empty(),
{
}

/// No word is closer to a witness than the witness's word is long, so a
/// distance beyond that length makes the consistency set empty.
pub proof fn lemma_distance_beyond_word(records: Seq<Record>, witness: Record)
    requires
        witness matches Record::Witness { word, distance } && distance > word.len(),
    ensures
        consistency_set(records, witness) == Set::<Seq<char>>::empty(),
{
    assert forall|w: Seq<char>| !consistency_set(records, witness).contains(w) by {
        lemma_closeness_bounded(w, witness.word());
    }
}

/// Two witnesses whose consistency sets have no word in common leave no
/// survivor.
pub proof fn lemma_disjoint_witnesses_leave_nothing(records: Seq<Record>, i: int, j: int)
    requires
        0 <= i < records.len(),
        0 <= j < records.len(),
        records[i] is Witness,
        records[j] is Witness,
        consistency_set(records, records[i]).disjoint(consistency_set(records, records[j])),
    ensures
        survivors(records) == Set::<Seq<char>>::empty(),
{
    assert forall|w: Seq<char>| !survives(records, w) by {
        if survives(records, w) {
            assert(consistency_set(records, records[i]).contains(w));
            assert(consistency_set(records, records[j]).contains(w));
        }
    }
}

/// Filtering what is left changes nothing: a second pool with the same
/// witnesses, whose words are words of the first pool and include its
/// survivors, has the same survivors.
pub proof fn lemma_filtering_again_changes_nothing(records: Seq<Record>, again: Seq<Record>)
    requires
        has_witness(records),
        forall|r: Record| r is Witness ==> (records.contains(r) <==> again.contains(r)),
        survivors(records).subset_of(pool_words(again)),
        pool_words(again).subset_of(pool_words(records)),
    ensures
        survivors(again) == survivors(records),
{
    let first = choose|i: int| 0 <= i < records.len() && #[trigger] records[i] is Witness;
    assert(records.contains(records[first]));
    let first_again = choose|i: int| 0 <= i < again.len() && again[i] == records[first];
    assert forall|w: Seq<char>| survives(again, w) <==> survives(records, w) by {
        if survives(again, w) {
            assert(consistency_set(again, again[first_again]).contains(w));
            assert forall|i: int|
                #![trigger records[i]]
                0 <= i < records.len() && records[i] is Witness implies consistency_set(
                records,
                records[i],
            ).contains(w) by {
                assert(records.contains(records[i]));
                let k = choose|k: int| 0 <= k < again.len() && again[k] == records[i];
                assert(consistency_set(again, again[k]).contains(w));
            }
        }
        if survives(records, w) {
            assert(survivors(records).contains(w));
            assert forall|k: int|
                #![trigger again[k]]
                0 <= k < again.len() && again[k] is Witness implies consistency_set(
                again,
                again[k],
            ).contains(w) by {
                assert(again.contains(again[k]));
                let i = choose|i: int| 0 <= i < records.len() && records[i] == again[k];
                assert(consistency_set(records, records[i]).contains(w));
            }
        }
    }
}

/// Two lists that each hold the survivors of one pool, every word once, hold
/// the same words, and as many of them: only the order may differ.
pub proof fn lemma_survivor_lists_agree(
    records: Seq<Record>,
    first: Seq<Seq<char>>,
    second: Seq<Seq<char>>,
)
    requires
        first.no_duplicates(),
        first.to_set() == survivors(records),
        second.no_duplicates(),
        second.to_set() == survivors(records),
    ensures
        first.to_multiset() == second.to_multiset(),
        first.len() == second.len(),
{
    first.to_multiset_ensures();
    second.to_multiset_ensures();
    first.lemma_multiset_has_no_duplicates();
    second.lemma_multiset_has_no_duplicates();
    assert forall|w: Seq<char>| first.to_multiset().count(w) == second.to_multiset().count(w) by {
        assert(first.contains(w) <==> first.to_set().contains(w));
        assert(second.contains(w) <==> second.to_set().contains(w));
    }
}

} // verus!
