//! Consensus description engine for families of biological sequences.
//!
//! Given the noisy, partially redundant description strings attached to the
//! sequence-similarity hits of a family, the engine derives one human
//! readable description: it tokenizes the candidate descriptions, classifies
//! words as informative or not, builds a max-normalized word frequency
//! table, enumerates every order-preserving phrase of every candidate,
//! scores the phrase universe, and selects the best-scoring (then longest)
//! phrase.
//!
//! Scores are floating-point sums of centered inverse information content
//! and are computed by the caller; the engine receives them as order- and
//! equality-preserving integer keys and performs the selection exactly.

pub mod classify;
pub mod config;
pub mod frequency;
pub mod pattern;
pub mod phrase;
pub mod selection;
pub mod seq_family;
pub mod title;
pub mod tokenize;

use vstd::prelude::*;

verus! {

/// Number of times `word` occurs in the word universe `universe`.
pub open spec fn count_occurrences(universe: Seq<Seq<char>>, word: Seq<char>) -> nat
    decreases universe.len(),
{
    if universe.len() == 0 {
        0
    } else {
        (if universe.last() == word {
            1nat
        } else {
            0nat
        }) + count_occurrences(universe.drop_last(), word)
    }
}

/// The distinct elements of `s`, each at the position of its first
/// occurrence; order and first-seen positions are preserved.
pub open spec fn first_occurrences<A>(s: Seq<A>) -> Seq<A>
    decreases s.len(),
{
    if s.len() == 0 {
        Seq::empty()
    } else if s.drop_last().contains(s.last()) {
        first_occurrences(s.drop_last())
    } else {
        first_occurrences(s.drop_last()).push(s.last())
    }
}

/// `first_occurrences` keeps exactly the elements of `s`.
pub proof fn lemma_first_occurrences_contains<A>(s: Seq<A>, x: A)
    ensures
        first_occurrences(s).contains(x) <==> s.contains(x),
    decreases s.len(),
{
    if s.len() > 0 {
        lemma_first_occurrences_contains(s.drop_last(), x);
        assert(s.contains(x) <==> (s.drop_last().contains(x) || s.last() == x)) by {
            if s.contains(x) {
                let i = choose|i: int| 0 <= i < s.len() && s[i] == x;
                if i < s.len() - 1 {
                    assert(s.drop_last()[i] == x);
                }
            }
            if s.drop_last().contains(x) {
                let i = choose|i: int| 0 <= i < s.drop_last().len() && s.drop_last()[i] == x;
                assert(s[i] == x);
            }
        }
        if !s.drop_last().contains(s.last()) {
            let prior = first_occurrences(s.drop_last());
            assert(first_occurrences(s) == prior.push(s.last()));
            if prior.contains(x) {
                let i = choose|i: int| 0 <= i < prior.len() && prior[i] == x;
                assert(prior.push(s.last())[i] == x);
            }
            if s.last() == x {
                assert(prior.push(s.last()).last() == x);
            }
            if prior.push(s.last()).contains(x) && s.last() != x {
                let i = choose|i: int|
                    0 <= i < prior.push(s.last()).len() && prior.push(s.last())[i] == x;
                assert(prior[i] == x);
            }
        }
    }
}

/// The word sequence the engine selects for `candidates` under the split
/// pattern `split`, once the caller has attached the score key
/// `score_keys[k]` to member `k` of the phrase universe.
pub open spec fn hrd_words(
    split: Seq<char>,
    candidates: Seq<Seq<char>>,
    score_keys: Seq<u32>,
) -> Seq<Seq<char>> {
    let universe = phrase::phrase_universe_of(split, candidates);
    selection::selected_hrd(Seq::new(universe.len(), |k: int| (universe[k], score_keys[k])))
}

/// Determinism of the engine: with the split pattern, the candidate list
/// and the attached score keys unchanged, a second run selects the
/// identical word sequence.  The score keys mirror the caller's
/// floating-point scores exactly, so with unchanged scores the final
/// description cannot differ between runs.
pub proof fn lemma_engine_deterministic(
    split: Seq<char>,
    candidates_a: Seq<Seq<char>>,
    keys_a: Seq<u32>,
    candidates_b: Seq<Seq<char>>,
    keys_b: Seq<u32>,
)
    requires
        candidates_a == candidates_b,
        keys_a == keys_b,
    ensures
        hrd_words(split, candidates_a, keys_a) == hrd_words(split, candidates_b, keys_b),
{
}

/// An element of `s` occurs at least once.
pub proof fn lemma_count_occurrences_positive(s: Seq<Seq<char>>, w: Seq<char>)
    requires
        s.contains(w),
    ensures
        count_occurrences(s, w) >= 1,
    decreases s.len(),
{
    if s.len() > 0 {
        if s.last() == w {
        } else {
            let i = choose|i: int| 0 <= i < s.len() && s[i] == w;
            assert(s.drop_last()[i] == w);
            lemma_count_occurrences_positive(s.drop_last(), w);
        }
    }
}

} // verus!
