//! Word classification: a word is non-informative when it matches at least
//! one pattern of an injected blacklist, informative otherwise.

use crate::first_occurrences;
use crate::pattern::{regex_match, CompiledPattern};
use vstd::prelude::*;

verus! {

/// Whether `word` matches at least one of the blacklist `patterns`.
pub open spec fn matches_any(patterns: Seq<Seq<char>>, word: Seq<char>) -> bool {
    exists|k: int| 0 <= k < patterns.len() && regex_match(patterns[k], word)
}

/// One word of the universe with its classification: `informative` is false
/// exactly when the word matches some blacklist pattern.
pub struct WordClass {
    pub word: String,
    pub informative: bool,
}

/// The words of a classification list.
pub open spec fn class_words(classes: Seq<WordClass>) -> Seq<Seq<char>> {
    classes.map_values(|c: WordClass| c.word@)
}

/// Whether the classification list `classes` marks `word` non-informative.
pub open spec fn marked_non_informative(classes: Seq<WordClass>, word: Seq<char>) -> bool {
    exists|k: int| 0 <= k < classes.len() && classes[k].word@ == word && !classes[k].informative
}

/// Returns true iff `word` matches at least one pattern of the blacklist
/// `regex`.
pub fn matches_uninformative_list(word: &str, regex: &Vec<CompiledPattern>) -> (r: bool)
    ensures
        r == matches_any(regex.deep_view(), word@),
{
    let mut k: usize = 0;
    while k < regex.len()
        invariant
            k <= regex.len(),
            forall|t: int| 0 <= t < k ==> !regex_match(regex.deep_view()[t], word@),
        decreases regex.len() - k,
    {
        if regex[k].is_match(word) {
            proof {
                assert(regex_match(regex.deep_view()[k as int], word@));
            }
            return true;
        }
        k = k + 1;
    }
    false
}

/// Classifies every distinct word of the universe, in first-occurrence
/// order: a word is informative exactly when it matches no blacklist
/// pattern.
pub fn word_classification_map(universe_hrd_words: &Vec<String>, regex: &Vec<CompiledPattern>) -> (r:
    Vec<WordClass>)
    ensures
        class_words(r@) == first_occurrences(universe_hrd_words.deep_view()),
        forall|k: int|
            0 <= k < r@.len() ==> r@[k].informative == !matches_any(
                regex.deep_view(),
                r@[k].word@,
            ),
{
    let ghost words = universe_hrd_words.deep_view();
    let mut classes: Vec<WordClass> = Vec::new();
    let mut i: usize = 0;
    while i < universe_hrd_words.len()
        invariant
            i <= universe_hrd_words.len(),
            words == universe_hrd_words.deep_view(),
            class_words(classes@) == first_occurrences(words.take(i as int)),
            forall|k: int|
                0 <= k < classes@.len() ==> classes@[k].informative == !matches_any(
                    regex.deep_view(),
                    classes@[k].word@,
                ),
        decreases universe_hrd_words.len() - i,
    {
        let w = &universe_hrd_words[i];
        proof {
            assert(words.take(i + 1).drop_last() =~= words.take(i as int));
            assert(words.take(i + 1).last() == words[i as int]);
            assert(words[i as int] == universe_hrd_words@[i as int]@);
        }
        let mut seen = false;
        let mut k: usize = 0;
        while k < classes.len()
            invariant
                k <= classes.len(),
                seen <==> exists|t: int| 0 <= t < k && classes@[t].word@ == w@,
            decreases classes.len() - k,
        {
            if !seen && classes[k].word == *w {
                seen = true;
            }
            k = k + 1;
        }
        proof {
            assert(seen <==> class_words(classes@).contains(w@)) by {
                if seen {
                    let t = choose|t: int| 0 <= t < classes@.len() && classes@[t].word@ == w@;
                    assert(class_words(classes@)[t] == w@);
                }
                if class_words(classes@).contains(w@) {
                    let t = choose|t: int|
                        0 <= t < class_words(classes@).len() && class_words(classes@)[t] == w@;
                    assert(classes@[t].word@ == w@);
                }
            }
            crate::lemma_first_occurrences_contains(words.take(i as int), w@);
        }
        if !seen {
            let informative = !matches_uninformative_list(w.as_str(), regex);
            let ghost before = classes@;
            classes.push(WordClass { word: w.clone(), informative });
            proof {
                assert(class_words(classes@) =~= class_words(before).push(w@));
            }
        }
        i = i + 1;
    }
    proof {
        assert(words.take(universe_hrd_words.len() as int) =~= words);
    }
    classes
}

} // verus!
