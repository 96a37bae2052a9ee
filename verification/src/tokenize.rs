//! Tokenization of candidate descriptions.
//!
//! A description is split into word tokens on every match of an injected
//! split pattern.  The word universe of a candidate list is the ordered
//! multiset of all non-empty tokens of all candidates, duplicates retained.

use crate::pattern::{regex_split, CompiledPattern};
use vstd::prelude::*;

verus! {

/// `tokens` with every empty token removed; order and duplicates kept.
pub open spec fn nonempty_tokens(tokens: Seq<Seq<char>>) -> Seq<Seq<char>>
    decreases tokens.len(),
{
    if tokens.len() == 0 {
        Seq::empty()
    } else if tokens.last().len() > 0 {
        nonempty_tokens(tokens.drop_last()).push(tokens.last())
    } else {
        nonempty_tokens(tokens.drop_last())
    }
}

/// The word universe of `candidates` under the split pattern `pattern`: the
/// non-empty tokens of each candidate, concatenated in candidate order.
pub open spec fn word_universe(pattern: Seq<char>, candidates: Seq<Seq<char>>) -> Seq<Seq<char>>
    decreases candidates.len(),
{
    if candidates.len() == 0 {
        Seq::empty()
    } else {
        word_universe(pattern, candidates.drop_last()) + nonempty_tokens(
            regex_split(pattern, candidates.last()),
        )
    }
}

/// Splits one candidate description on every match of `split`, keeping empty
/// tokens, order and case.
pub fn split_candidates_descripts(candidate_words: &str, split: &CompiledPattern) -> (r: Vec<
    String,
>)
    ensures
        r.deep_view() == regex_split(split@, candidate_words@),
{
    split.split(candidate_words)
}

/// Splits every candidate description and concatenates the resulting tokens,
/// dropping empty ones: the word universe of the candidate list.
pub fn candidate_hdrs_word_universe(candidates: &Vec<String>, split: &CompiledPattern) -> (r: Vec<
    String,
>)
    ensures
        r.deep_view() == word_universe(split@, candidates.deep_view()),
{
    let mut universe: Vec<String> = Vec::new();
    let mut i: usize = 0;
    while i < candidates.len()
        invariant
            i <= candidates.len(),
            universe.deep_view() == word_universe(split@, candidates.deep_view().take(i as int)),
        decreases candidates.len() - i,
    {
        let tokens = split.split(candidates[i].as_str());
        let ghost all_tokens = tokens.deep_view();
        let ghost prior = universe.deep_view();
        let mut j: usize = 0;
        while j < tokens.len()
            invariant
                j <= tokens.len(),
                all_tokens == tokens.deep_view(),
                universe.deep_view() == prior + nonempty_tokens(all_tokens.take(j as int)),
            decreases tokens.len() - j,
        {
            proof {
                assert(all_tokens.take(j + 1).drop_last() =~= all_tokens.take(j as int));
                assert(all_tokens.take(j + 1).last() == all_tokens[j as int]);
                assert(all_tokens[j as int] == tokens@[j as int]@);
            }
            if !tokens[j].as_str().is_empty() {
                let ghost before = universe.deep_view();
                universe.push(tokens[j].clone());
                proof {
                    assert(universe.deep_view() =~= before.push(all_tokens[j as int]));
                    assert(nonempty_tokens(all_tokens.take(j + 1)) == nonempty_tokens(
                        all_tokens.take(j as int),
                    ).push(all_tokens[j as int]));
                    assert(before.push(all_tokens[j as int]) =~= prior + nonempty_tokens(
                        all_tokens.take(j + 1),
                    ));
                }
            } else {
                proof {
                    assert(universe.deep_view() =~= prior + nonempty_tokens(
                        all_tokens.take(j + 1),
                    ));
                }
            }
            j = j + 1;
        }
        proof {
            assert(all_tokens.take(tokens.len() as int) =~= all_tokens);
            assert(candidates.deep_view().take(i + 1).drop_last() =~= candidates.deep_view().take(
                i as int,
            ));
            assert(candidates.deep_view().take(i + 1).last() == candidates.deep_view()[i as int]);
            assert(universe.deep_view() == word_universe(
                split@,
                candidates.deep_view().take(i + 1),
            ));
        }
        i = i + 1;
    }
    proof {
        assert(candidates.deep_view().take(candidates.len() as int) =~= candidates.deep_view());
    }
    universe
}

} // verus!
