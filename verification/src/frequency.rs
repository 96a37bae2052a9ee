//! Max-normalized word frequencies.
//!
//! The table stores the raw occurrence count of every distinct word of the
//! word universe together with the maximum raw count.  The normalized
//! frequency of a word is its count divided by the maximum count, a value in
//! (0, 1]; the division itself is floating point and is performed by the
//! caller, so the table keeps the two exact integers instead.  The maximum
//! count is fixed when the table is built over the whole universe; removing
//! non-informative entries afterwards deliberately leaves it unchanged, so
//! the scale of the remaining frequencies does not move.

use crate::classify::{marked_non_informative, WordClass};
use crate::{count_occurrences, first_occurrences};
use vstd::prelude::*;

verus! {

/// One row of the frequency table: a word and its raw occurrence count.
pub struct WordFrequency {
    pub word: String,
    pub count: u64,
}

/// A word frequency table: raw counts plus the normalization divisor.
pub struct FrequencyTable {
    pub entries: Vec<WordFrequency>,
    pub max_count: u64,
}

/// The words of a frequency table's rows.
pub open spec fn entry_words(entries: Seq<WordFrequency>) -> Seq<Seq<char>> {
    entries.map_values(|e: WordFrequency| e.word@)
}

/// Every row's count is the word's occurrence count in `universe`.
pub open spec fn counts_match(entries: Seq<WordFrequency>, universe: Seq<Seq<char>>) -> bool {
    forall|k: int|
        0 <= k < entries.len() ==> entries[k].count == count_occurrences(
            universe,
            entries[k].word@,
        )
}

/// The rows of `entries` whose word the classification keeps (is not marked
/// non-informative), in order.
pub open spec fn informative_entries(entries: Seq<WordFrequency>, classes: Seq<WordClass>) -> Seq<
    WordFrequency,
>
    decreases entries.len(),
{
    if entries.len() == 0 {
        Seq::empty()
    } else if marked_non_informative(classes, entries.last().word@) {
        informative_entries(entries.drop_last(), classes)
    } else {
        informative_entries(entries.drop_last(), classes).push(entries.last())
    }
}

/// Occurrences of `w` in `universe`, as an exact count.
fn count_word(universe: &Vec<String>, w: &String) -> (r: u64)
    ensures
        r == count_occurrences(universe.deep_view(), w@),
        r <= universe.len(),
{
    let ghost words = universe.deep_view();
    let mut count: usize = 0;
    let mut i: usize = 0;
    while i < universe.len()
        invariant
            i <= universe.len(),
            count <= i,
            words == universe.deep_view(),
            count == count_occurrences(words.take(i as int), w@),
        decreases universe.len() - i,
    {
        proof {
            assert(words.take(i + 1).drop_last() =~= words.take(i as int));
            assert(words.take(i + 1).last() == words[i as int]);
            assert(words[i as int] == universe@[i as int]@);
        }
        if universe[i] == *w {
            count = count + 1;
        }
        i = i + 1;
    }
    proof {
        assert(words.take(universe.len() as int) =~= words);
    }
    count as u64
}

/// Whether `w` already occurs among `seen`.
fn contains_string(seen: &Vec<String>, w: &String) -> (r: bool)
    ensures
        r == seen.deep_view().contains(w@),
{
    let mut k: usize = 0;
    while k < seen.len()
        invariant
            k <= seen.len(),
            forall|t: int| 0 <= t < k ==> seen.deep_view()[t] != w@,
        decreases seen.len() - k,
    {
        if seen[k] == *w {
            proof {
                assert(seen.deep_view()[k as int] == w@);
            }
            return true;
        }
        k = k + 1;
    }
    false
}

/// Builds the raw-count frequency table of a non-empty word universe: one
/// row per distinct word, in first-occurrence order, with the word's exact
/// occurrence count; `max_count` is the largest count and is attained by
/// some row.  Normalized, the largest frequency is exactly one and every
/// frequency lies in (0, 1].
pub fn frequencies(vec: &Vec<String>) -> (r: FrequencyTable)
    requires
        vec.len() > 0,
    ensures
        entry_words(r.entries@) == first_occurrences(vec.deep_view()),
        counts_match(r.entries@, vec.deep_view()),
        r.entries@.len() > 0,
        forall|k: int| 0 <= k < r.entries@.len() ==> 1 <= #[trigger] r.entries@[k].count <= r.max_count,
        exists|k: int| 0 <= k < r.entries@.len() && r.entries@[k].count == r.max_count,
{
    let ghost words = vec.deep_view();
    let mut distinct: Vec<String> = Vec::new();
    let mut i: usize = 0;
    while i < vec.len()
        invariant
            i <= vec.len(),
            words == vec.deep_view(),
            distinct.deep_view() == first_occurrences(words.take(i as int)),
        decreases vec.len() - i,
    {
        proof {
            assert(words.take(i + 1).drop_last() =~= words.take(i as int));
            assert(words.take(i + 1).last() == words[i as int]);
            assert(words[i as int] == vec@[i as int]@);
        }
        let seen = contains_string(&distinct, &vec[i]);
        proof {
            crate::lemma_first_occurrences_contains(words.take(i as int), words[i as int]);
        }
        if !seen {
            let ghost before = distinct.deep_view();
            distinct.push(vec[i].clone());
            proof {
                assert(distinct.deep_view() =~= before.push(words[i as int]));
            }
        }
        i = i + 1;
    }
    proof {
        assert(words.take(vec.len() as int) =~= words);
        assert(words.contains(words[0])) by {
            assert(words[0] == words[0]);
        }
        crate::lemma_first_occurrences_contains(words, words[0]);
        assert(distinct.deep_view().len() > 0);
    }

    let mut entries: Vec<WordFrequency> = Vec::new();
    let mut j: usize = 0;
    while j < distinct.len()
        invariant
            j <= distinct.len(),
            words == vec.deep_view(),
            vec.len() > 0,
            entry_words(entries@) == distinct.deep_view().take(j as int),
            counts_match(entries@, words),
            forall|k: int| 0 <= k < entries@.len() ==> 1 <= #[trigger] entries@[k].count <= vec.len(),
            distinct.deep_view() == first_occurrences(words),
        decreases distinct.len() - j,
    {
        let count = count_word(vec, &distinct[j]);
        proof {
            assert(distinct.deep_view()[j as int] == distinct@[j as int]@);
            assert(first_occurrences(words).contains(distinct.deep_view()[j as int])) by {
                assert(first_occurrences(words)[j as int] == distinct.deep_view()[j as int]);
            }
            crate::lemma_first_occurrences_contains(words, distinct.deep_view()[j as int]);
            crate::lemma_count_occurrences_positive(words, distinct.deep_view()[j as int]);
        }
        let word_j = distinct[j].clone();
        let ghost before = entries@;
        entries.push(WordFrequency { word: word_j, count });
        proof {
            assert(entries@.last().word@ == distinct.deep_view()[j as int]);
            assert(entry_words(entries@) =~= entry_words(before).push(
                distinct.deep_view()[j as int],
            ));
            assert(distinct.deep_view().take(j + 1) =~= distinct.deep_view().take(
                j as int,
            ).push(distinct.deep_view()[j as int]));
        }
        j = j + 1;
    }
    proof {
        assert(distinct.deep_view().take(distinct.len() as int) =~= distinct.deep_view());
    }

    let mut max_count: u64 = entries[0].count;
    let ghost max_witness: int = 0;
    let mut t: usize = 1;
    while t < entries.len()
        invariant
            1 <= t <= entries.len(),
            entries@.len() > 0,
            0 <= max_witness < t,
            entries@[max_witness].count == max_count,
            forall|k: int| 0 <= k < t ==> entries@[k].count <= max_count,
        decreases entries.len() - t,
    {
        if entries[t].count > max_count {
            max_count = entries[t].count;
            proof {
                max_witness = t as int;
            }
        }
        t = t + 1;
    }

    FrequencyTable { entries, max_count }
}

/// The position of the first row of `entries` for `w` at or after
/// `start`, or -1 when `w` has no row.
pub open spec fn find_entry_from(entries: Seq<WordFrequency>, w: Seq<char>, start: int) -> int
    decreases entries.len() - start,
{
    if start < 0 || start >= entries.len() {
        -1
    } else if entries[start].word@ == w {
        start
    } else {
        find_entry_from(entries, w, start + 1)
    }
}

/// A search that skips only mismatches finds exactly the first match.
proof fn lemma_find_entry_from(entries: Seq<WordFrequency>, w: Seq<char>, start: int, idx: int)
    requires
        0 <= start <= idx < entries.len(),
        forall|t: int| start <= t < idx ==> entries[t].word@ != w,
        entries[idx].word@ == w,
    ensures
        find_entry_from(entries, w, start) == idx,
    decreases idx - start,
{
    if start < idx {
        lemma_find_entry_from(entries, w, start + 1, idx);
    }
}

/// A non-negative find result points at a matching row.
proof fn lemma_find_entry_found(entries: Seq<WordFrequency>, w: Seq<char>, start: int)
    requires
        find_entry_from(entries, w, start) >= 0,
        0 <= start,
    ensures
        start <= find_entry_from(entries, w, start) < entries.len(),
        entries[find_entry_from(entries, w, start)].word@ == w,
    decreases entries.len() - start,
{
    if start < entries.len() && entries[start].word@ != w {
        lemma_find_entry_found(entries, w, start + 1);
    }
}

/// The table counts of the words of `phrase` in phrase order; a word
/// without a row contributes nothing.
pub open spec fn counts_for_phrase(entries: Seq<WordFrequency>, phrase: Seq<Seq<char>>) -> Seq<u64>
    decreases phrase.len(),
{
    if phrase.len() == 0 {
        Seq::empty()
    } else {
        let prior = counts_for_phrase(entries, phrase.drop_last());
        let k = find_entry_from(entries, phrase.last(), 0);
        if k >= 0 {
            prior.push(entries[k].count)
        } else {
            prior
        }
    }
}

/// `counts_for_phrase` of every phrase, in phrase-universe order.
pub open spec fn counts_for_phrases(
    entries: Seq<WordFrequency>,
    phrases: Seq<Seq<Seq<char>>>,
) -> Seq<Seq<u64>> {
    phrases.map_values(|p: Seq<Seq<char>>| counts_for_phrase(entries, p))
}

/// For every phrase of the universe, the table counts of exactly those of
/// its words that have a row, one entry per occurrence, in order.  Words
/// absent from the table contribute nothing.  The caller turns each count
/// into its normalized frequency and inverse information content; which
/// occurrences count at all is settled here.
pub fn phrase_table_counts(phrases: &Vec<Vec<String>>, table: &FrequencyTable) -> (r: Vec<
    Vec<u64>,
>)
    ensures
        r.deep_view() == counts_for_phrases(table.entries@, phrases.deep_view()),
{
    let ghost entries = table.entries@;
    let ghost universe = phrases.deep_view();
    let mut out: Vec<Vec<u64>> = Vec::new();
    let mut p: usize = 0;
    while p < phrases.len()
        invariant
            p <= phrases@.len(),
            entries == table.entries@,
            universe == phrases.deep_view(),
            out.deep_view() == counts_for_phrases(entries, universe.take(p as int)),
        decreases phrases.len() - p,
    {
        let phrase = &phrases[p];
        let ghost phrase_words = universe[p as int];
        proof {
            assert(phrase_words == phrases@[p as int].deep_view());
        }
        let mut row: Vec<u64> = Vec::new();
        let mut j: usize = 0;
        while j < phrase.len()
            invariant
                j <= phrase@.len(),
                entries == table.entries@,
                phrase_words == phrase.deep_view(),
                row@ == counts_for_phrase(entries, phrase_words.take(j as int)),
            decreases phrase.len() - j,
        {
            proof {
                assert(phrase_words.take(j + 1).drop_last() =~= phrase_words.take(j as int));
                assert(phrase_words.take(j + 1).last() == phrase_words[j as int]);
                assert(phrase_words[j as int] == phrase@[j as int]@);
            }
            let word = &phrase[j];
            let mut k: usize = 0;
            let mut found = false;
            let mut at: usize = 0;
            while k < table.entries.len()
                invariant
                    k <= entries.len(),
                    entries == table.entries@,
                    !found ==> forall|t: int| 0 <= t < k ==> entries[t].word@ != word@,
                    found ==> 0 <= at < k <= entries.len() && entries[at as int].word@ == word@
                        && find_entry_from(entries, word@, 0) == at,
                decreases table.entries.len() - k,
            {
                if !found && table.entries[k].word == *word {
                    proof {
                        lemma_find_entry_from(entries, word@, 0, k as int);
                    }
                    found = true;
                    at = k;
                }
                k = k + 1;
            }
            if found {
                row.push(table.entries[at].count);
                proof {
                    assert(row@ =~= counts_for_phrase(entries, phrase_words.take(j + 1)));
                }
            } else {
                proof {
                    if find_entry_from(entries, word@, 0) >= 0 {
                        lemma_find_entry_found(entries, word@, 0);
                    }
                    assert(row@ =~= counts_for_phrase(entries, phrase_words.take(j + 1)));
                }
            }
            j = j + 1;
        }
        proof {
            assert(phrase_words.take(phrase@.len() as int) =~= phrase_words);
        }
        proof {
            assert(row.deep_view() =~= row@);
        }
        let ghost before = out.deep_view();
        out.push(row);
        proof {
            assert(out.deep_view() =~= before.push(counts_for_phrase(entries, phrase_words)));
            assert(counts_for_phrases(entries, universe.take(p + 1)) =~= counts_for_phrases(
                entries,
                universe.take(p as int),
            ).push(counts_for_phrase(entries, phrase_words)));
        }
        p = p + 1;
    }
    proof {
        assert(universe.take(phrases@.len() as int) =~= universe);
    }
    out
}

/// Removes from `table` every row whose word the classification marks
/// non-informative; the normalization divisor `max_count` is kept as it
/// was, so the remaining frequencies keep their scale.
pub fn retain_informative(table: FrequencyTable, classes: &Vec<WordClass>) -> (r: FrequencyTable)
    ensures
        r.entries@ == informative_entries(table.entries@, classes@),
        r.max_count == table.max_count,
{
    let ghost rows = table.entries@;
    let mut kept: Vec<WordFrequency> = Vec::new();
    let mut i: usize = 0;
    while i < table.entries.len()
        invariant
            i <= table.entries.len(),
            rows == table.entries@,
            kept@ == informative_entries(rows.take(i as int), classes@),
        decreases table.entries.len() - i,
    {
        proof {
            assert(rows.take(i + 1).drop_last() =~= rows.take(i as int));
            assert(rows.take(i + 1).last() == rows[i as int]);
        }
        let row = &table.entries[i];
        let mut non_informative = false;
        let mut k: usize = 0;
        while k < classes.len()
            invariant
                k <= classes.len(),
                non_informative <==> exists|t: int|
                    0 <= t < k && classes@[t].word@ == row.word@ && !classes@[t].informative,
            decreases classes.len() - k,
        {
            if !non_informative && !classes[k].informative && classes[k].word == row.word {
                non_informative = true;
            }
            k = k + 1;
        }
        proof {
            assert(non_informative == marked_non_informative(classes@, rows[i as int].word@));
        }
        if !non_informative {
            let ghost before = kept@;
            kept.push(WordFrequency { word: row.word.clone(), count: row.count });
            proof {
                assert(kept@.last() == rows[i as int]);
                assert(kept@ =~= before.push(rows[i as int]));
            }
        }
        i = i + 1;
    }
    proof {
        assert(rows.take(table.entries.len() as int) =~= rows);
    }
    FrequencyTable { entries: kept, max_count: table.max_count }
}

} // verus!
