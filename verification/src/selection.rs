//! Best-phrase selection.
//!
//! Scores are floating-point values computed by the caller; they enter the
//! library as integer keys whose order and exact equality mirror the order
//! and exact equality of the underlying scores.  Selection finds the
//! maximum key, keeps the phrases that attain it exactly, finds the
//! maximum word count among those, and concatenates every phrase that
//! attains both maxima, in encounter order, into one final word sequence.

use vstd::prelude::*;

verus! {

/// A phrase (an ordered word sequence) with its score key.
pub struct ScoredPhrase {
    pub words: Vec<String>,
    pub score: u32,
}

/// The mathematical content of a scored-phrase list: each phrase as a
/// sequence of word character-sequences, with its score key.
pub open spec fn scored_views(s: Seq<ScoredPhrase>) -> Seq<(Seq<Seq<char>>, u32)> {
    s.map_values(|e: ScoredPhrase| (e.words.deep_view(), e.score))
}

/// The largest score key in `s` (0 for an empty list).
pub open spec fn max_score_of(s: Seq<(Seq<Seq<char>>, u32)>) -> u32
    decreases s.len(),
{
    if s.len() == 0 {
        0
    } else if s.len() == 1 {
        s[0].1
    } else {
        let m = max_score_of(s.drop_last());
        if s.last().1 > m {
            s.last().1
        } else {
            m
        }
    }
}

/// The entries of `s` whose score key equals `v`, in order.
pub open spec fn with_score(s: Seq<(Seq<Seq<char>>, u32)>, v: u32) -> Seq<(Seq<Seq<char>>, u32)>
    decreases s.len(),
{
    if s.len() == 0 {
        Seq::empty()
    } else if s.last().1 == v {
        with_score(s.drop_last(), v).push(s.last())
    } else {
        with_score(s.drop_last(), v)
    }
}

/// The largest phrase word count in `s` (0 for an empty list).
pub open spec fn max_phrase_len(s: Seq<(Seq<Seq<char>>, u32)>) -> int
    decreases s.len(),
{
    if s.len() == 0 {
        0
    } else if s.len() == 1 {
        s[0].0.len() as int
    } else {
        let m = max_phrase_len(s.drop_last());
        if s.last().0.len() > m {
            s.last().0.len() as int
        } else {
            m
        }
    }
}

/// The entries of `s` whose phrase has exactly `l` words, in order.
pub open spec fn with_phrase_len(s: Seq<(Seq<Seq<char>>, u32)>, l: int) -> Seq<
    (Seq<Seq<char>>, u32),
>
    decreases s.len(),
{
    if s.len() == 0 {
        Seq::empty()
    } else if s.last().0.len() == l {
        with_phrase_len(s.drop_last(), l).push(s.last())
    } else {
        with_phrase_len(s.drop_last(), l)
    }
}

/// The words of every entry of `s`, concatenated in order.
pub open spec fn concat_phrases(s: Seq<(Seq<Seq<char>>, u32)>) -> Seq<Seq<char>>
    decreases s.len(),
{
    if s.len() == 0 {
        Seq::empty()
    } else {
        concat_phrases(s.drop_last()) + s.last().0
    }
}

/// The selected word sequence: every phrase that attains the maximum
/// score key exactly and, among those, the maximum word count, flattened
/// in encounter order.
pub open spec fn selected_hrd(s: Seq<(Seq<Seq<char>>, u32)>) -> Seq<Seq<char>> {
    let top = with_score(s, max_score_of(s));
    concat_phrases(with_phrase_len(top, max_phrase_len(top)))
}

/// Some entry attains the maximum score key.
proof fn lemma_max_score_attained(s: Seq<(Seq<Seq<char>>, u32)>)
    requires
        s.len() > 0,
    ensures
        exists|k: int| 0 <= k < s.len() && s[k].1 == max_score_of(s),
    decreases s.len(),
{
    if s.len() == 1 {
        assert(s[0].1 == max_score_of(s));
    } else {
        lemma_max_score_attained(s.drop_last());
        if s.last().1 > max_score_of(s.drop_last()) {
            assert(s[s.len() - 1].1 == max_score_of(s));
        } else {
            let k = choose|k: int|
                0 <= k < s.drop_last().len() && s.drop_last()[k].1 == max_score_of(s.drop_last());
            assert(s[k].1 == max_score_of(s));
        }
    }
}

/// Keeping the entries that attain an attained value keeps at least one.
proof fn lemma_with_score_nonempty(s: Seq<(Seq<Seq<char>>, u32)>, v: u32)
    requires
        exists|k: int| 0 <= k < s.len() && s[k].1 == v,
    ensures
        with_score(s, v).len() > 0,
    decreases s.len(),
{
    if s.last().1 == v {
    } else {
        let k = choose|k: int| 0 <= k < s.len() && s[k].1 == v;
        assert(s.drop_last()[k].1 == v);
        lemma_with_score_nonempty(s.drop_last(), v);
    }
}

/// A deep copy of a word list.
fn clone_words(v: &Vec<String>) -> (r: Vec<String>)
    ensures
        r.deep_view() == v.deep_view(),
{
    let mut out: Vec<String> = Vec::new();
    let mut i: usize = 0;
    while i < v.len()
        invariant
            i <= v.len(),
            out.deep_view() == v.deep_view().take(i as int),
        decreases v.len() - i,
    {
        let ghost before = out.deep_view();
        out.push(v[i].clone());
        proof {
            assert(out.deep_view() =~= before.push(v.deep_view()[i as int]));
            assert(v.deep_view().take(i + 1) =~= v.deep_view().take(i as int).push(
                v.deep_view()[i as int],
            ));
        }
        i = i + 1;
    }
    proof {
        assert(v.deep_view().take(v@.len() as int) =~= v.deep_view());
    }
    out
}

/// Selects the final word sequence from a non-empty scored-phrase list:
/// the phrases that attain the maximum score key exactly and, among
/// those, the maximum word count, flattened in encounter order.
pub fn predicted_hrd(phrases_score_map: &Vec<ScoredPhrase>) -> (r: Vec<String>)
    requires
        phrases_score_map.len() > 0,
    ensures
        r.deep_view() == selected_hrd(scored_views(phrases_score_map@)),
{
    let ghost views = scored_views(phrases_score_map@);
    proof {
        assert(views.len() == phrases_score_map@.len());
    }

    // Pass one: the maximum score key.
    let mut m: u32 = phrases_score_map[0].score;
    proof {
        assert(views.take(1).len() == 1);
        assert(views.take(1)[0] == views[0]);
        assert(views[0].1 == phrases_score_map@[0].score);
        assert(m == max_score_of(views.take(1)));
    }
    let mut t: usize = 1;
    while t < phrases_score_map.len()
        invariant
            1 <= t <= phrases_score_map@.len(),
            views == scored_views(phrases_score_map@),
            m == max_score_of(views.take(t as int)),
        decreases phrases_score_map.len() - t,
    {
        proof {
            assert(views.take(t + 1).drop_last() =~= views.take(t as int));
            assert(views.take(t + 1).last() == views[t as int]);
            assert(views[t as int].1 == phrases_score_map@[t as int].score);
        }
        if phrases_score_map[t].score > m {
            m = phrases_score_map[t].score;
        }
        t = t + 1;
    }
    proof {
        assert(views.take(phrases_score_map@.len() as int) =~= views);
    }

    // Pass two: the phrases whose score key equals the maximum exactly.
    let mut top: Vec<ScoredPhrase> = Vec::new();
    let mut i: usize = 0;
    while i < phrases_score_map.len()
        invariant
            i <= phrases_score_map@.len(),
            views == scored_views(phrases_score_map@),
            scored_views(top@) == with_score(views.take(i as int), m),
        decreases phrases_score_map.len() - i,
    {
        proof {
            assert(views.take(i + 1).drop_last() =~= views.take(i as int));
            assert(views.take(i + 1).last() == views[i as int]);
            assert(views[i as int] == (
                phrases_score_map@[i as int].words.deep_view(),
                phrases_score_map@[i as int].score,
            ));
        }
        if phrases_score_map[i].score == m {
            let entry = &phrases_score_map[i];
            let copied = clone_words(&entry.words);
            let ghost before = scored_views(top@);
            top.push(ScoredPhrase { words: copied, score: entry.score });
            proof {
                assert(scored_views(top@) =~= before.push(views[i as int]));
            }
        }
        i = i + 1;
    }
    proof {
        assert(views.take(phrases_score_map@.len() as int) =~= views);
        lemma_max_score_attained(views);
        lemma_with_score_nonempty(views, m);
        assert(scored_views(top@).len() == top@.len());
    }
    let ghost top_views = scored_views(top@);

    // Pass three: the maximum word count among the top-scored phrases.
    let mut ml: usize = top[0].words.len();
    proof {
        assert(top_views.take(1).len() == 1);
        assert(top_views.take(1)[0] == top_views[0]);
        assert(top_views[0] == (top@[0].words.deep_view(), top@[0].score));
        assert(ml as int == max_phrase_len(top_views.take(1)));
    }
    let mut u: usize = 1;
    while u < top.len()
        invariant
            1 <= u <= top@.len(),
            top_views == scored_views(top@),
            ml as int == max_phrase_len(top_views.take(u as int)),
        decreases top.len() - u,
    {
        proof {
            assert(top_views.take(u + 1).drop_last() =~= top_views.take(u as int));
            assert(top_views.take(u + 1).last() == top_views[u as int]);
            assert(top_views[u as int] == (top@[u as int].words.deep_view(), top@[u as int].score));
        }
        if top[u].words.len() > ml {
            ml = top[u].words.len();
        }
        u = u + 1;
    }
    proof {
        assert(top_views.take(top@.len() as int) =~= top_views);
    }

    // Pass four: flatten every top-scored phrase of maximum word count.
    let mut hrd: Vec<String> = Vec::new();
    let mut p: usize = 0;
    while p < top.len()
        invariant
            p <= top@.len(),
            top_views == scored_views(top@),
            hrd.deep_view() == concat_phrases(with_phrase_len(top_views.take(p as int), ml as int)),
        decreases top.len() - p,
    {
        proof {
            assert(top_views.take(p + 1).drop_last() =~= top_views.take(p as int));
            assert(top_views.take(p + 1).last() == top_views[p as int]);
            assert(top_views[p as int] == (top@[p as int].words.deep_view(), top@[p as int].score));
        }
        if top[p].words.len() == ml {
            let ghost phrase = top_views[p as int].0;
            let ghost goal_before = hrd.deep_view();
            let words = &top[p].words;
            let mut j: usize = 0;
            while j < words.len()
                invariant
                    j <= words@.len(),
                    phrase == words.deep_view(),
                    hrd.deep_view() == goal_before + phrase.take(j as int),
                decreases words.len() - j,
            {
                let ghost before = hrd.deep_view();
                hrd.push(words[j].clone());
                proof {
                    assert(hrd.deep_view() =~= before.push(phrase[j as int]));
                    assert(phrase.take(j + 1) =~= phrase.take(j as int).push(phrase[j as int]));
                }
                j = j + 1;
            }
            proof {
                assert(phrase.take(words@.len() as int) =~= phrase);
                assert(with_phrase_len(top_views.take(p + 1), ml as int) == with_phrase_len(
                    top_views.take(p as int),
                    ml as int,
                ).push(top_views[p as int]));
                assert(with_phrase_len(top_views.take(p + 1), ml as int).drop_last()
                    =~= with_phrase_len(top_views.take(p as int), ml as int));
            }
        }
        p = p + 1;
    }
    proof {
        assert(top_views.take(top@.len() as int) =~= top_views);
    }
    hrd
}

} // verus!
