use hrd_engine::classify::{matches_uninformative_list, word_classification_map};
use hrd_engine::config::{default_blacklist_patterns, default_split_pattern};
use hrd_engine::frequency::{frequencies, phrase_table_counts, retain_informative};
use hrd_engine::pattern::CompiledPattern;
use hrd_engine::phrase::{phrase_universe, phrases, powerset};
use hrd_engine::tokenize::{candidate_hdrs_word_universe, split_candidates_descripts};

fn strings(words: &[&str]) -> Vec<String> {
    words.iter().map(|w| w.to_string()).collect()
}

fn split_pattern() -> CompiledPattern {
    CompiledPattern::compile(default_split_pattern().as_str()).unwrap()
}

#[test]
fn candidate_word_universe() {
    let candidates_vector = strings(&[
        "Alcohol dehydrogenase",
        "manitol dehydrogenase",
        "Cinnamyl alcohol-dehydrogenase",
        "Geraniol dehydrogenase",
        "Geraniol|terminal dehydrogenase",
        "alcohol dehydrogenase c terminal",
    ]);
    let result = strings(&[
        "Alcohol",
        "dehydrogenase",
        "manitol",
        "dehydrogenase",
        "Cinnamyl",
        "alcohol",
        "dehydrogenase",
        "Geraniol",
        "dehydrogenase",
        "Geraniol",
        "terminal",
        "dehydrogenase",
        "alcohol",
        "dehydrogenase",
        "c",
        "terminal",
    ]);
    assert_eq!(result, candidate_hdrs_word_universe(&candidates_vector, &split_pattern()));
}

#[test]
fn test_match_uninformative_regex_list() {
    let re = vec![CompiledPattern::compile(r"(?i)\bterminal\b").unwrap()];
    let word = "alcohol dehydrogenase terminal";
    assert_eq!(true, matches_uninformative_list(&word, &re));
}

#[test]
fn unmatched_word_is_informative() {
    let re = vec![CompiledPattern::compile(r"(?i)\bterminal\b").unwrap()];
    assert_eq!(false, matches_uninformative_list("alcohol dehydrogenase", &re));
}

#[test]
fn split_keeps_order_and_case() {
    let tokens = split_candidates_descripts("Cinnamyl alcohol-dehydrogenase", &split_pattern());
    assert_eq!(tokens, strings(&["Cinnamyl", "alcohol", "dehydrogenase"]));
}

#[test]
fn test_phrases() {
    let candidate_descript_vec = strings(&["alcohol", "dehydrogenase", "c", "terminal"]);
    let result = strings(&[
        "alcohol",
        "dehydrogenase",
        "alcohol dehydrogenase",
        "c",
        "alcohol c",
        "dehydrogenase c",
        "alcohol dehydrogenase c",
        "terminal",
        "alcohol terminal",
        "dehydrogenase terminal",
        "alcohol dehydrogenase terminal",
        "c terminal",
        "alcohol c terminal",
        "dehydrogenase c terminal",
        "alcohol dehydrogenase c terminal",
    ]);
    assert_eq!(phrases(&candidate_descript_vec), result);
}

#[test]
fn phrases_of_one_token() {
    assert_eq!(phrases(&strings(&["alcohol"])), strings(&["alcohol"]));
}

#[test]
fn phrases_count_is_two_to_n_minus_one() {
    for n in 1..6usize {
        let tokens: Vec<String> = (0..n).map(|k| format!("w{}", k)).collect();
        assert_eq!(phrases(&tokens).len(), (1usize << n) - 1);
    }
}

#[test]
fn powerset_enumerates_all_masks() {
    let sets = powerset(&strings(&["a", "b"]));
    assert_eq!(sets.len(), 4);
    assert_eq!(sets[0], strings(&[]));
    assert_eq!(sets[1], strings(&["a"]));
    assert_eq!(sets[2], strings(&["b"]));
    assert_eq!(sets[3], strings(&["a", "b"]));
}

#[test]
fn test_frequencies() {
    let vec = strings(&["Alcohol", "dehydrogenase", "c", "terminal"]);
    let table = frequencies(&vec);
    assert_eq!(table.max_count, 1);
    assert_eq!(table.entries.len(), 4);
    let expected = ["Alcohol", "dehydrogenase", "c", "terminal"];
    for (row, word) in table.entries.iter().zip(expected.iter()) {
        assert_eq!(row.word, *word);
        assert_eq!(row.count, 1);
        assert_eq!(row.count as f32 / table.max_count as f32, 1.0);
    }
}

#[test]
fn frequencies_max_value_is_one() {
    let vec = strings(&["a", "a", "b"]);
    let table = frequencies(&vec);
    assert_eq!(table.max_count, 2);
    let normalized: Vec<f32> =
        table.entries.iter().map(|e| e.count as f32 / table.max_count as f32).collect();
    assert_eq!(normalized, vec![1.0, 0.5]);
    assert_eq!(
        normalized.iter().cloned().fold(f32::MIN, f32::max),
        1.0
    );
}

#[test]
fn classification_marks_blacklisted_words() {
    let universe = strings(&["alcohol", "terminal", "alcohol"]);
    let re = vec![CompiledPattern::compile(r"(?i)\bterminal\b").unwrap()];
    let classes = word_classification_map(&universe, &re);
    assert_eq!(classes.len(), 2);
    assert_eq!(classes[0].word, "alcohol");
    assert!(classes[0].informative);
    assert_eq!(classes[1].word, "terminal");
    assert!(!classes[1].informative);
}

#[test]
fn retain_informative_keeps_scale() {
    let universe = strings(&["terminal", "terminal", "alcohol"]);
    let re = vec![CompiledPattern::compile(r"(?i)\bterminal\b").unwrap()];
    let classes = word_classification_map(&universe, &re);
    let table = retain_informative(frequencies(&universe), &classes);
    assert_eq!(table.entries.len(), 1);
    assert_eq!(table.entries[0].word, "alcohol");
    assert_eq!(table.entries[0].count, 1);
    // The divisor stays the one computed before filtering.
    assert_eq!(table.max_count, 2);
    assert_eq!(table.entries[0].count as f32 / table.max_count as f32, 0.5);
}

#[test]
fn phrase_table_counts_skips_uncovered_words() {
    let universe = strings(&["alcohol", "alcohol", "dehydrogenase"]);
    let table = frequencies(&universe);
    let phrases_list = vec![
        strings(&["alcohol", "manitol", "dehydrogenase"]),
        strings(&["manitol"]),
    ];
    let counts = phrase_table_counts(&phrases_list, &table);
    assert_eq!(counts, vec![vec![2u64, 1u64], vec![]]);
}

#[test]
fn phrase_universe_deduplicates() {
    let candidates = strings(&["alcohol dehydrogenase", "alcohol"]);
    let universe = phrase_universe(&candidates, &split_pattern()).unwrap();
    assert_eq!(
        universe,
        vec![
            strings(&["alcohol"]),
            strings(&["dehydrogenase"]),
            strings(&["alcohol", "dehydrogenase"]),
        ]
    );
}

#[test]
fn phrase_universe_rejects_oversized_candidates() {
    let long_candidate = (0..70).map(|k| format!("w{}", k)).collect::<Vec<String>>().join(" ");
    let candidates = vec![long_candidate];
    assert!(phrase_universe(&candidates, &split_pattern()).is_none());
}

#[test]
fn compile_rejects_invalid_pattern() {
    assert!(CompiledPattern::compile("(").is_none());
    assert!(CompiledPattern::compile(r"\bterminal\b").is_some());
}

#[test]
fn default_blacklist_flags_uninformative_words() {
    let patterns: Vec<CompiledPattern> = default_blacklist_patterns()
        .iter()
        .map(|p| CompiledPattern::compile(p.as_str()).unwrap())
        .collect();
    assert!(matches_uninformative_list("Putative", &patterns));
    assert!(matches_uninformative_list("uncharacterized", &patterns));
    assert!(!matches_uninformative_list("kinase", &patterns));
}
