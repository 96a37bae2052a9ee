//! Phrase enumeration.
//!
//! Every order-preserving, non-empty subsequence of a candidate's token
//! sequence is a phrase.  Subsequences are enumerated by a bitmask running
//! from 0 to 2^n - 1: bit `i` of the mask selects token `i`, and the
//! selected tokens keep their original relative order.  The phrase universe
//! of a candidate list is the set of all distinct phrases of all
//! candidates, each re-tokenized by the split pattern into its ordered word
//! sequence.

use crate::first_occurrences;
use crate::pattern::{regex_split, CompiledPattern};
use crate::tokenize::nonempty_tokens;
use vstd::arithmetic::power2::{
    lemma2_to64, lemma_pow2_pos, lemma_pow2_strictly_increases, lemma_pow2_unfold, pow2,
};
use vstd::prelude::*;
use vstd::string::StringExecFns;

verus! {

/// The tokens of `words` at positions `start` and beyond whose bit is set
/// in `mask` (bit 0 of `mask` belongs to position `start`), in their
/// original order.
pub open spec fn select_by_mask_from(words: Seq<Seq<char>>, mask: nat, start: int) -> Seq<
    Seq<char>,
>
    decreases words.len() - start,
{
    if start < 0 || start >= words.len() {
        Seq::empty()
    } else {
        (if mask % 2 == 1 {
            seq![words[start]]
        } else {
            Seq::empty()
        }) + select_by_mask_from(words, mask / 2, start + 1)
    }
}

/// The subsequence of `words` selected by the bits of `mask`.
pub open spec fn select_by_mask(words: Seq<Seq<char>>, mask: nat) -> Seq<Seq<char>> {
    select_by_mask_from(words, mask, 0)
}

/// `words` joined with a single space between consecutive words.
pub open spec fn join_spaced(words: Seq<Seq<char>>) -> Seq<char>
    decreases words.len(),
{
    if words.len() == 0 {
        Seq::empty()
    } else if words.len() == 1 {
        words[0]
    } else {
        join_spaced(words.drop_last()) + seq![' '] + words.last()
    }
}

/// The joined phrase of every mask from 0 to 2^n - 1, in mask order.
pub open spec fn mask_phrases(tokens: Seq<Seq<char>>) -> Seq<Seq<char>> {
    Seq::new(
        pow2(tokens.len() as nat),
        |m: int| join_spaced(select_by_mask(tokens, m as nat)),
    )
}

/// The phrases of one token sequence: the joined phrase of every non-zero
/// mask, with empty strings dropped.
pub open spec fn phrase_strings(tokens: Seq<Seq<char>>) -> Seq<Seq<char>> {
    nonempty_tokens(mask_phrases(tokens))
}

/// 2^n, or `None` when that exceeds `usize::MAX`.
pub fn checked_pow2(n: usize) -> (r: Option<usize>)
    ensures
        r matches Some(v) ==> v == pow2(n as nat),
        r is None ==> pow2(n as nat) > usize::MAX,
{
    let mut total: usize = 1;
    let mut k: usize = 0;
    proof {
        lemma2_to64();
    }
    while k < n
        invariant
            k <= n,
            total == pow2(k as nat),
        decreases n - k,
    {
        if total > usize::MAX / 2 {
            proof {
                lemma_pow2_unfold((k + 1) as nat);
                if k + 1 < n {
                    lemma_pow2_strictly_increases((k + 1) as nat, n as nat);
                }
            }
            return None;
        }
        proof {
            lemma_pow2_unfold((k + 1) as nat);
        }
        total = total * 2;
        k = k + 1;
    }
    Some(total)
}

/// Enumerates every subsequence of `slice`: entry `m` of the result holds
/// the elements whose bit is set in mask `m`, in their original order.
pub fn powerset(slice: &Vec<String>) -> (r: Vec<Vec<String>>)
    requires
        pow2(slice.len() as nat) <= usize::MAX,
    ensures
        r@.len() == pow2(slice.len() as nat),
        forall|m: int|
            0 <= m < r@.len() ==> (#[trigger] r.deep_view()[m]) == select_by_mask(
                slice.deep_view(),
                m as nat,
            ),
{
    let ghost words = slice.deep_view();
    let n: usize = slice.len();
    let mut total: usize = 1;
    let mut k: usize = 0;
    proof {
        lemma2_to64();
    }
    while k < n
        invariant
            k <= n,
            n == slice.len(),
            total == pow2(k as nat),
            pow2(n as nat) <= usize::MAX,
        decreases n - k,
    {
        proof {
            lemma_pow2_unfold((k + 1) as nat);
            if k + 1 < n {
                lemma_pow2_strictly_increases((k + 1) as nat, n as nat);
            }
        }
        total = total * 2;
        k = k + 1;
    }

    let mut result: Vec<Vec<String>> = Vec::new();
    let mut mask: usize = 0;
    while mask < total
        invariant
            mask <= total,
            total == pow2(n as nat),
            n == slice.len(),
            words == slice.deep_view(),
            result@.len() == mask,
            forall|m: int|
                0 <= m < mask ==> (#[trigger] result.deep_view()[m]) == select_by_mask(
                    words,
                    m as nat,
                ),
        decreases total - mask,
    {
        let mut subset: Vec<String> = Vec::new();
        let mut rem: usize = mask;
        let mut idx: usize = 0;
        proof {
            assert(subset.deep_view() + select_by_mask_from(words, rem as nat, 0) =~= select_by_mask(
                words,
                mask as nat,
            ));
        }
        while idx < n
            invariant
                idx <= n,
                n == slice.len(),
                words == slice.deep_view(),
                subset.deep_view() + select_by_mask_from(words, rem as nat, idx as int)
                    == select_by_mask(words, mask as nat),
            decreases n - idx,
        {
            let ghost rest = select_by_mask_from(words, (rem / 2) as nat, idx + 1);
            if rem % 2 == 1 {
                let ghost before = subset.deep_view();
                subset.push(slice[idx].clone());
                proof {
                    assert(subset.deep_view() =~= before.push(words[idx as int]));
                    assert(select_by_mask_from(words, rem as nat, idx as int) == seq![
                        words[idx as int],
                    ] + rest);
                    assert(before.push(words[idx as int]) + rest =~= before + (seq![
                        words[idx as int],
                    ] + rest));
                }
            } else {
                proof {
                    assert(select_by_mask_from(words, rem as nat, idx as int) =~= rest);
                }
            }
            rem = rem / 2;
            idx = idx + 1;
        }
        proof {
            assert(words.len() == n as int);
            assert(select_by_mask_from(words, rem as nat, n as int) =~= Seq::<Seq<char>>::empty());
            assert(subset.deep_view() + Seq::<Seq<char>>::empty() =~= subset.deep_view());
        }
        let ghost rbefore = result.deep_view();
        result.push(subset);
        proof {
            assert(result.deep_view() =~= rbefore.push(select_by_mask(words, mask as nat)));
        }
        mask = mask + 1;
    }
    result
}

/// Joins `words` with single spaces.
pub fn join_words(words: &Vec<String>) -> (r: String)
    ensures
        r@ == join_spaced(words.deep_view()),
{
    let ghost all = words.deep_view();
    let mut out = String::new();
    let mut i: usize = 0;
    while i < words.len()
        invariant
            i <= words.len(),
            all == words.deep_view(),
            out@ == join_spaced(all.take(i as int)),
        decreases words.len() - i,
    {
        proof {
            assert(all.take(i + 1).drop_last() =~= all.take(i as int));
            assert(all.take(i + 1).last() == all[i as int]);
            assert(all[i as int] == words@[i as int]@);
        }
        if i > 0 {
            out.append(" ");
            proof {
                reveal_strlit(" ");
                assert(" "@ =~= seq![' ']);
            }
        }
        out.append(words[i].as_str());
        proof {
            if i == 0 {
                assert(out@ =~= all.take(1).last());
                assert(all.take(1)[0] == all.take(1).last());
            }
        }
        i = i + 1;
    }
    proof {
        assert(all.take(words.len() as int) =~= all);
    }
    out
}

/// All phrases of one candidate's token sequence: the joined phrase of
/// every mask from 0 to 2^n - 1, in mask order, with empty strings
/// dropped.
pub fn phrases(candidate_vector_description: &Vec<String>) -> (r: Vec<String>)
    requires
        pow2(candidate_vector_description.len() as nat) <= usize::MAX,
    ensures
        r.deep_view() == phrase_strings(candidate_vector_description.deep_view()),
{
    let ghost tokens = candidate_vector_description.deep_view();
    let ghost all = mask_phrases(tokens);
    let subsets = powerset(candidate_vector_description);
    let mut out: Vec<String> = Vec::new();
    let mut m: usize = 0;
    proof {
        assert(all.len() == subsets@.len());
    }
    while m < subsets.len()
        invariant
            m <= subsets.len(),
            tokens == candidate_vector_description.deep_view(),
            all == mask_phrases(tokens),
            all.len() == subsets@.len(),
            forall|t: int|
                0 <= t < subsets@.len() ==> (#[trigger] subsets.deep_view()[t]) == select_by_mask(
                    tokens,
                    t as nat,
                ),
            out.deep_view() == nonempty_tokens(all.take(m as int)),
        decreases subsets.len() - m,
    {
        let joined = join_words(&subsets[m]);
        proof {
            assert(subsets.deep_view()[m as int] == subsets@[m as int].deep_view());
            assert(joined@ == join_spaced(select_by_mask(tokens, m as nat)));
            assert(all[m as int] == join_spaced(select_by_mask(tokens, m as nat)));
            assert(all.take(m + 1).drop_last() =~= all.take(m as int));
            assert(all.take(m + 1).last() == all[m as int]);
        }
        if !joined.as_str().is_empty() {
            let ghost before = out.deep_view();
            out.push(joined);
            proof {
                assert(out.deep_view() =~= before.push(all[m as int]));
            }
        }
        m = m + 1;
    }
    proof {
        assert(all.take(subsets@.len() as int) =~= all);
    }
    out
}

/// A joined selection of non-empty words is non-empty.
proof fn lemma_join_nonempty(words: Seq<Seq<char>>)
    requires
        words.len() > 0,
        forall|i: int| 0 <= i < words.len() ==> #[trigger] words[i].len() > 0,
    ensures
        join_spaced(words).len() > 0,
{
    if words.len() == 1 {
        assert(join_spaced(words) == words[0]);
    }
}

/// Selecting with mask 0 selects nothing.
proof fn lemma_select_zero(words: Seq<Seq<char>>, start: int)
    requires
        0 <= start <= words.len(),
    ensures
        select_by_mask_from(words, 0, start) == Seq::<Seq<char>>::empty(),
    decreases words.len() - start,
{
    if start < words.len() {
        lemma_select_zero(words, start + 1);
        assert(select_by_mask_from(words, 0, start) =~= Seq::<Seq<char>>::empty());
    }
}

/// Selecting with a non-zero mask below 2^(remaining positions) selects at
/// least one word.
proof fn lemma_select_nonempty(words: Seq<Seq<char>>, mask: nat, start: int)
    requires
        0 <= start <= words.len(),
        1 <= mask,
        mask < pow2((words.len() - start) as nat),
    ensures
        select_by_mask_from(words, mask, start).len() > 0,
    decreases words.len() - start,
{
    lemma2_to64();
    if start == words.len() {
        assert(pow2(0) == 1);
        assert(false);
    } else {
        if mask % 2 == 1 {
        } else {
            lemma_pow2_unfold((words.len() - start) as nat);
            lemma_select_nonempty(words, mask / 2, start + 1);
        }
    }
}

/// Every selected word is one of `words`.
proof fn lemma_select_elements(words: Seq<Seq<char>>, mask: nat, start: int)
    requires
        forall|i: int| 0 <= i < words.len() ==> #[trigger] words[i].len() > 0,
    ensures
        forall|i: int|
            0 <= i < select_by_mask_from(words, mask, start).len()
                ==> #[trigger] select_by_mask_from(words, mask, start)[i].len() > 0,
    decreases words.len() - start,
{
    if 0 <= start < words.len() {
        lemma_select_elements(words, mask / 2, start + 1);
        let first = if mask % 2 == 1 {
            seq![words[start]]
        } else {
            Seq::<Seq<char>>::empty()
        };
        let rest = select_by_mask_from(words, mask / 2, start + 1);
        assert forall|i: int|
            0 <= i < select_by_mask_from(words, mask, start).len()
                implies #[trigger] select_by_mask_from(words, mask, start)[i].len() > 0 by {
            assert(select_by_mask_from(words, mask, start) == first + rest);
            if i < first.len() {
                assert(first[i] == words[start]);
            } else {
                assert(select_by_mask_from(words, mask, start)[i] == rest[i - first.len()]);
            }
        }
    }
}

/// With every element of `s` after position 0 non-empty and the element at
/// position 0 empty, dropping the empties removes exactly one element.
proof fn lemma_nonempty_count_tail(s: Seq<Seq<char>>)
    requires
        s.len() >= 1,
        s[0].len() == 0,
        forall|i: int| 1 <= i < s.len() ==> #[trigger] s[i].len() > 0,
    ensures
        nonempty_tokens(s).len() == s.len() - 1,
    decreases s.len(),
{
    if s.len() == 1 {
        assert(nonempty_tokens(s.drop_last()).len() == 0);
    } else {
        assert(s.drop_last()[0] == s[0]);
        lemma_nonempty_count_tail(s.drop_last());
    }
}

/// A non-empty sequence of `n` non-empty tokens yields exactly 2^n - 1
/// phrases: of the 2^n masks only the zero mask joins to the empty string.
pub proof fn lemma_phrase_count(tokens: Seq<Seq<char>>)
    requires
        tokens.len() >= 1,
        forall|i: int| 0 <= i < tokens.len() ==> #[trigger] tokens[i].len() > 0,
    ensures
        phrase_strings(tokens).len() == pow2(tokens.len() as nat) - 1,
{
    let all = mask_phrases(tokens);
    lemma_pow2_pos(tokens.len() as nat);
    assert(all.len() == pow2(tokens.len() as nat));
    lemma_select_zero(tokens, 0);
    assert(all[0].len() == 0);
    assert forall|m: int| 1 <= m < all.len() implies #[trigger] all[m].len() > 0 by {
        lemma_select_nonempty(tokens, m as nat, 0);
        lemma_select_elements(tokens, m as nat, 0);
        lemma_join_nonempty(select_by_mask(tokens, m as nat));
    }
    lemma_nonempty_count_tail(all);
}

/// The phrases of `strings` re-tokenized by `pattern`, in order.
pub open spec fn resplit(pattern: Seq<char>, strings: Seq<Seq<char>>) -> Seq<Seq<Seq<char>>> {
    strings.map_values(|p: Seq<char>| regex_split(pattern, p))
}

/// The phrases of every candidate, concatenated in candidate order.
pub open spec fn phrases_of_candidates(pattern: Seq<char>, candidates: Seq<Seq<char>>) -> Seq<
    Seq<char>,
>
    decreases candidates.len(),
{
    if candidates.len() == 0 {
        Seq::empty()
    } else {
        phrases_of_candidates(pattern, candidates.drop_last()) + phrase_strings(
            regex_split(pattern, candidates.last()),
        )
    }
}

/// The phrase universe: every distinct re-tokenized phrase of every
/// candidate, in first-encounter order.
pub open spec fn phrase_universe_of(pattern: Seq<char>, candidates: Seq<Seq<char>>) -> Seq<
    Seq<Seq<char>>,
> {
    first_occurrences(resplit(pattern, phrases_of_candidates(pattern, candidates)))
}

/// Whether the word sequences `a` and `b` are equal.
fn word_vec_eq(a: &Vec<String>, b: &Vec<String>) -> (r: bool)
    ensures
        r == (a.deep_view() == b.deep_view()),
{
    if a.len() != b.len() {
        proof {
            assert(a.deep_view().len() != b.deep_view().len());
        }
        return false;
    }
    let mut i: usize = 0;
    while i < a.len()
        invariant
            i <= a.len(),
            a@.len() == b@.len(),
            forall|t: int| 0 <= t < i ==> a.deep_view()[t] == b.deep_view()[t],
        decreases a.len() - i,
    {
        if !(a[i] == b[i]) {
            proof {
                assert(a.deep_view()[i as int] != b.deep_view()[i as int]);
            }
            return false;
        }
        proof {
            assert(a.deep_view()[i as int] == b.deep_view()[i as int]);
        }
        i = i + 1;
    }
    proof {
        assert(a.deep_view() =~= b.deep_view());
    }
    true
}

/// Whether `universe` already holds the word sequence `x`.
fn contains_word_vec(universe: &Vec<Vec<String>>, x: &Vec<String>) -> (r: bool)
    ensures
        r == universe.deep_view().contains(x.deep_view()),
{
    let mut k: usize = 0;
    while k < universe.len()
        invariant
            k <= universe.len(),
            forall|t: int| 0 <= t < k ==> universe.deep_view()[t] != x.deep_view(),
        decreases universe.len() - k,
    {
        if word_vec_eq(&universe[k], x) {
            proof {
                assert(universe.deep_view()[k as int] == x.deep_view());
            }
            return true;
        }
        k = k + 1;
    }
    false
}

/// Builds the phrase universe of the candidate list: enumerates the
/// phrases of every candidate, re-tokenizes each by the split pattern and
/// keeps every distinct word sequence once, in first-encounter order.
/// Returns `None` exactly when some candidate has too many tokens for its
/// masks to be counted in a `usize`.
pub fn phrase_universe(candidates: &Vec<String>, split: &CompiledPattern) -> (r: Option<
    Vec<Vec<String>>,
>)
    ensures
        r matches Some(v) ==> v.deep_view() == phrase_universe_of(split@, candidates.deep_view()),
        r is None <==> exists|i: int|
            0 <= i < candidates@.len() && pow2(
                regex_split(split@, candidates.deep_view()[i]).len() as nat,
            ) > usize::MAX,
{
    let ghost cands = candidates.deep_view();
    let mut all: Vec<String> = Vec::new();
    let mut i: usize = 0;
    while i < candidates.len()
        invariant
            i <= candidates.len(),
            cands == candidates.deep_view(),
            all.deep_view() == phrases_of_candidates(split@, cands.take(i as int)),
            forall|t: int|
                0 <= t < i ==> pow2(regex_split(split@, cands[t]).len() as nat) <= usize::MAX,
        decreases candidates.len() - i,
    {
        let tokens = split.split(candidates[i].as_str());
        proof {
            assert(cands[i as int] == candidates@[i as int]@);
        }
        if checked_pow2(tokens.len()).is_none() {
            return None;
        }
        let candidate_phrases = phrases(&tokens);
        let ghost add = candidate_phrases.deep_view();
        let mut j: usize = 0;
        let ghost before_all = all.deep_view();
        while j < candidate_phrases.len()
            invariant
                j <= candidate_phrases.len(),
                add == candidate_phrases.deep_view(),
                all.deep_view() == before_all + add.take(j as int),
            decreases candidate_phrases.len() - j,
        {
            let ghost prev = all.deep_view();
            all.push(candidate_phrases[j].clone());
            proof {
                assert(all.deep_view() =~= prev.push(add[j as int]));
                assert(add.take(j + 1).drop_last() =~= add.take(j as int));
                assert(add.take(j + 1).last() == add[j as int]);
                assert(prev.push(add[j as int]) =~= before_all + add.take(j + 1));
            }
            j = j + 1;
        }
        proof {
            assert(add.take(candidate_phrases@.len() as int) =~= add);
            assert(cands.take(i + 1).drop_last() =~= cands.take(i as int));
            assert(cands.take(i + 1).last() == cands[i as int]);
            assert(all.deep_view() == phrases_of_candidates(split@, cands.take(i + 1)));
        }
        i = i + 1;
    }
    proof {
        assert(cands.take(candidates@.len() as int) =~= cands);
    }

    let ghost phrase_seq = resplit(split@, all.deep_view());
    let mut universe: Vec<Vec<String>> = Vec::new();
    let mut p: usize = 0;
    while p < all.len()
        invariant
            p <= all.len(),
            phrase_seq == resplit(split@, all.deep_view()),
            phrase_seq.len() == all@.len(),
            universe.deep_view() == first_occurrences(phrase_seq.take(p as int)),
        decreases all.len() - p,
    {
        let words = split.split(all[p].as_str());
        proof {
            assert(phrase_seq[p as int] == regex_split(split@, all.deep_view()[p as int]));
            assert(all.deep_view()[p as int] == all@[p as int]@);
            assert(phrase_seq.take(p + 1).drop_last() =~= phrase_seq.take(p as int));
            assert(phrase_seq.take(p + 1).last() == phrase_seq[p as int]);
        }
        let seen = contains_word_vec(&universe, &words);
        proof {
            crate::lemma_first_occurrences_contains(phrase_seq.take(p as int), phrase_seq[p as int]);
        }
        if !seen {
            let ghost before = universe.deep_view();
            universe.push(words);
            proof {
                assert(universe.deep_view() =~= before.push(phrase_seq[p as int]));
            }
        }
        p = p + 1;
    }
    proof {
        assert(phrase_seq.take(all@.len() as int) =~= phrase_seq);
    }
    Some(universe)
}

} // verus!
