//! Ranking the entries of a dictionary by their distance to a word.

use vstd::prelude::*;
use vstd::string::*;
use vstd::utf8::encode_utf8;
use crate::distance::{
    distance_zero_iff_equal, edit_distance, same_text_iff_same_bytes, wagner_fischer,
};
use crate::order::{
    as_keys, as_positions, closest, closest_ascends, closest_leaves_out_later, closest_length,
    select_closest,
};

verus! {

/// How many suggestions a ranking holds at most.
pub const SUGGESTION_LIMIT: usize = 10;

/// The bytes of each dictionary entry.
pub open spec fn dictionary_bytes(dictionary: Seq<String>) -> Seq<Seq<u8>> {
    Seq::new(dictionary.len(), |i: int| encode_utf8(dictionary[i]@))
}

/// Each suggestion as the bytes of its word and its distance.
pub open spec fn suggestion_bytes(suggestions: Seq<(String, usize)>) -> Seq<(Seq<u8>, nat)> {
    Seq::new(
        suggestions.len(),
        |i: int| (encode_utf8(suggestions[i].0@), suggestions[i].1 as nat),
    )
}

/// The distance from `word` to each dictionary entry, in dictionary order.
pub open spec fn distances_from(word: Seq<u8>, dictionary: Seq<Seq<u8>>) -> Seq<nat> {
    Seq::new(dictionary.len(), |i: int| edit_distance(word, dictionary[i]))
}

/// The dictionary positions that are suggested for `word`: those of the
/// smallest distances, in ascending order of distance, entries at the same
/// distance in dictionary order.
pub open spec fn suggested_positions(word: Seq<u8>, dictionary: Seq<Seq<u8>>) -> Seq<int> {
    closest(distances_from(word, dictionary), SUGGESTION_LIMIT as nat)
}

/// The suggestions for `word`: each suggested entry with its distance.
pub open spec fn suggestions_for(word: Seq<u8>, dictionary: Seq<Seq<u8>>) -> Seq<(Seq<u8>, nat)> {
    suggested_positions(word, dictionary).map_values(
        |i: int| (dictionary[i], edit_distance(word, dictionary[i])),
    )
}

/// The ranked result for `word`: nothing when the dictionary holds the word
/// itself, its suggestions otherwise.
pub open spec fn ranking(word: Seq<u8>, dictionary: Seq<Seq<u8>>) -> Seq<(Seq<u8>, nat)> {
    if dictionary.contains(word) {
        Seq::empty()
    } else {
        suggestions_for(word, dictionary)
    }
}

/// Tells whether `word` is an entry of `dictionary`, byte for byte.
fn holds_word(dictionary: &[String], word: &str) -> (found: bool)
    ensures
        found == dictionary_bytes(dictionary@).contains(word.spec_bytes()),
{
    let wanted: String = word.to_owned();
    let mut i: usize = 0;
    while i < dictionary.len()
        invariant
            i <= dictionary@.len(),
            wanted@ == word@,
            forall|k: int|
                0 <= k < i ==> #[trigger] dictionary_bytes(dictionary@)[k] != word.spec_bytes(),
        decreases dictionary.len() - i,
    {
        proof {
            same_text_iff_same_bytes(dictionary@[i as int]@, word@);
        }
        if dictionary[i] == wanted {
            assert(dictionary_bytes(dictionary@)[i as int] == word.spec_bytes());
            return true;
        }
        i += 1;
    }
    false
}

/// What a look at the dictionary says about a word.
#[derive(Debug, PartialEq, Eq)]
pub enum Verdict {
    /// The dictionary holds the word itself.
    ExactMatch,
    /// The dictionary does not hold the word; these entries are closest.
    Suggestions(Vec<(String, usize)>),
}

/// Looks `word` up in `dictionary`, and where it is not an entry, lists
/// the closest entries with their distances.
pub fn assess(word: &str, dictionary: &[String]) -> (verdict: Verdict)
    ensures
        verdict is ExactMatch <==> dictionary_bytes(dictionary@).contains(word.spec_bytes()),
        verdict matches Verdict::Suggestions(list) ==> suggestion_bytes(list@) == suggestions_for(
            word.spec_bytes(),
            dictionary_bytes(dictionary@),
        ),
{
    if holds_word(dictionary, word) {
        return Verdict::ExactMatch;
    }
    let mut distances: Vec<usize> = Vec::new();
    let mut i: usize = 0;
    while i < dictionary.len()
        invariant
            i <= dictionary@.len(),
            distances@.len() == i,
            forall|k: int|
                0 <= k < i ==> #[trigger] distances@[k] == edit_distance(
                    word.spec_bytes(),
                    encode_utf8(dictionary@[k]@),
                ),
        decreases dictionary.len() - i,
    {
        distances.push(wagner_fischer(word, dictionary[i].as_str()));
        i += 1;
    }
    let picked: Vec<usize> = select_closest(distances.as_slice(), SUGGESTION_LIMIT);
    proof {
        assert(as_keys(distances@) =~= distances_from(
            word.spec_bytes(),
            dictionary_bytes(dictionary@),
        ));
        closest_length(as_keys(distances@), SUGGESTION_LIMIT as nat);
    }
    let mut list: Vec<(String, usize)> = Vec::new();
    let mut j: usize = 0;
    while j < picked.len()
        invariant
            j <= picked@.len(),
            list@.len() == j,
            distances@.len() == dictionary@.len(),
            forall|k: int|
                0 <= k < picked@.len() ==> 0 <= #[trigger] as_positions(picked@)[k]
                    < dictionary@.len(),
            forall|k: int|
                0 <= k < j ==> (#[trigger] list@[k]).0@ == dictionary@[picked@[k] as int]@
                    && list@[k].1 == distances@[picked@[k] as int],
        decreases picked.len() - j,
    {
        let at: usize = picked[j];
        assert(as_positions(picked@)[j as int] == at);
        list.push((dictionary[at].clone(), distances[at]));
        j += 1;
    }
    Verdict::Suggestions(list)
}

/// Ranks the entries of `dictionary` by their distance to `word`. When the
/// word is itself an entry the result is empty; otherwise it holds the ten
/// closest entries, closest first, entries at the same distance in
/// dictionary order.
pub fn spell_check(word: &str, dictionary: &[String]) -> (suggestions: Vec<(String, usize)>)
    ensures
        suggestion_bytes(suggestions@) == ranking(
            word.spec_bytes(),
            dictionary_bytes(dictionary@),
        ),
        suggestions@.len() == if dictionary_bytes(dictionary@).contains(word.spec_bytes()) {
            0
        } else if dictionary@.len() <= SUGGESTION_LIMIT {
            dictionary@.len()
        } else {
            SUGGESTION_LIMIT as nat
        },
{
    proof {
        ranking_length(word.spec_bytes(), dictionary_bytes(dictionary@));
    }
    match assess(word, dictionary) {
        Verdict::ExactMatch => Vec::new(),
        Verdict::Suggestions(list) => list,
    }
}

/// How long a ranking is: empty when the word is in the dictionary, and
/// otherwise as long as the limit allows and the dictionary has entries.
pub proof fn ranking_length(word: Seq<u8>, dictionary: Seq<Seq<u8>>)
    ensures
        ranking(word, dictionary).len() == if dictionary.contains(word) {
            0
        } else if dictionary.len() <= SUGGESTION_LIMIT {
            dictionary.len()
        } else {
            SUGGESTION_LIMIT as nat
        },
{
    closest_length(distances_from(word, dictionary), SUGGESTION_LIMIT as nat);
}

/// An empty dictionary has no suggestion for any word.
pub proof fn ranking_of_empty_dictionary(word: Seq<u8>)
    ensures
        ranking(word, Seq::empty()) == Seq::<(Seq<u8>, nat)>::empty(),
{
    ranking_length(word, Seq::empty());
}

/// Each entry of a ranking is a dictionary entry together with its
/// distance to the word, and that distance is not zero.
pub proof fn ranking_entry(word: Seq<u8>, dictionary: Seq<Seq<u8>>, p: int)
    requires
        0 <= p < ranking(word, dictionary).len(),
    ensures
        0 <= suggested_positions(word, dictionary)[p] < dictionary.len(),
        ranking(word, dictionary)[p].0 == dictionary[suggested_positions(word, dictionary)[p]],
        ranking(word, dictionary)[p].1 == edit_distance(word, ranking(word, dictionary)[p].0),
        ranking(word, dictionary)[p].1 > 0,
{
    let at = suggested_positions(word, dictionary)[p];
    closest_length(distances_from(word, dictionary), SUGGESTION_LIMIT as nat);
    distance_zero_iff_equal(word, dictionary[at]);
}

/// Distances never decrease along a ranking, and entries at the same
/// distance stand in dictionary order.
pub proof fn ranking_ascends(word: Seq<u8>, dictionary: Seq<Seq<u8>>, p: int, q: int)
    requires
        0 <= p < q < ranking(word, dictionary).len(),
    ensures
        ranking(word, dictionary)[p].1 <= ranking(word, dictionary)[q].1,
        ranking(word, dictionary)[p].1 == ranking(word, dictionary)[q].1 ==> suggested_positions(
            word,
            dictionary,
        )[p] < suggested_positions(word, dictionary)[q],
{
    let keys = distances_from(word, dictionary);
    closest_length(keys, SUGGESTION_LIMIT as nat);
    closest_ascends(keys, SUGGESTION_LIMIT as nat, p, q);
}

/// A dictionary entry that a ranking leaves out is no closer to the word
/// than any entry in it.
pub proof fn ranking_keeps_nearest(word: Seq<u8>, dictionary: Seq<Seq<u8>>, p: int, i: int)
    requires
        0 <= p < ranking(word, dictionary).len(),
        0 <= i < dictionary.len(),
        !suggested_positions(word, dictionary).contains(i),
    ensures
        ranking(word, dictionary)[p].1 <= edit_distance(word, dictionary[i]),
{
    let keys = distances_from(word, dictionary);
    closest_length(keys, SUGGESTION_LIMIT as nat);
    closest_leaves_out_later(keys, SUGGESTION_LIMIT as nat, p, i);
}

/// A word and a dictionary have one ranking: two results of `spell_check`
/// for the same inputs hold the same words with the same distances.
pub proof fn ranking_is_determined(
    word: &str,
    dictionary: Seq<String>,
    first: Seq<(String, usize)>,
    second: Seq<(String, usize)>,
)
    requires
        suggestion_bytes(first) == ranking(word.spec_bytes(), dictionary_bytes(dictionary)),
        suggestion_bytes(second) == ranking(word.spec_bytes(), dictionary_bytes(dictionary)),
    ensures
        first.len() == second.len(),
        forall|k: int|
            0 <= k < first.len() ==> (#[trigger] first[k]).0@ == second[k].0@ && first[k].1
                == second[k].1,
{
    assert(suggestion_bytes(second).len() == second.len());
    assert forall|k: int| 0 <= k < first.len() implies (#[trigger] first[k]).0@ == second[k].0@
        && first[k].1 == second[k].1 by {
        assert(suggestion_bytes(first)[k] == suggestion_bytes(second)[k]);
        same_text_iff_same_bytes(first[k].0@, second[k].0@);
    }
}

} // verus!
