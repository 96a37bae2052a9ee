use hrd_engine::classify::word_classification_map;
use hrd_engine::config::{default_blacklist_patterns, default_split_pattern};
use hrd_engine::frequency::{
    frequencies, phrase_table_counts, retain_informative, FrequencyTable,
};
use hrd_engine::pattern::CompiledPattern;
use hrd_engine::phrase::phrase_universe;
use hrd_engine::selection::{predicted_hrd, ScoredPhrase};
use hrd_engine::tokenize::candidate_hdrs_word_universe;

fn strings(words: &[&str]) -> Vec<String> {
    words.iter().map(|w| w.to_string()).collect()
}

/// Maps a floating-point score to a key with the same order and the same
/// exact equalities (negative zero first folded onto zero).
fn score_key(score: f32) -> u32 {
    let score = if score == 0.0 { 0.0 } else { score };
    let bits = score.to_bits();
    if score < 0.0 {
        !bits
    } else {
        bits | 0x8000_0000
    }
}

fn scored(words: &[&str], score: f32) -> ScoredPhrase {
    ScoredPhrase { words: strings(words), score: score_key(score) }
}

#[test]
fn test_predicted_hrd() {
    let result = strings(&["dehydrogenase", "c", "terminal"]);
    let scored_phrases = vec![
        scored(&["dehydrogenase", "c"], 0.265823),
        scored(&["dehydrogenase", "c", "terminal"], 0.265823),
        scored(&["alcohol", "dehydrogenase"], 0.22149113),
        scored(&["cinnamyl", "alcohol", "dehydrogenase"], -0.110522866),
    ];
    assert_eq!(result, predicted_hrd(&scored_phrases));
}

#[test]
fn score_key_preserves_order_and_equality() {
    assert!(score_key(-0.5) < score_key(0.0));
    assert!(score_key(0.0) < score_key(0.25));
    assert!(score_key(0.25) < score_key(0.26));
    assert!(score_key(-0.26) < score_key(-0.25));
    assert_eq!(score_key(0.265823), score_key(0.265823));
    assert_eq!(score_key(-0.0), score_key(0.0));
}

#[test]
fn tied_phrases_of_equal_length_are_merged() {
    let scored_phrases = vec![
        scored(&["alcohol", "dehydrogenase"], 0.5),
        scored(&["manitol"], 0.1),
        scored(&["geraniol", "dehydrogenase"], 0.5),
    ];
    assert_eq!(
        predicted_hrd(&scored_phrases),
        strings(&["alcohol", "dehydrogenase", "geraniol", "dehydrogenase"])
    );
}

#[test]
fn single_phrase_is_selected_as_is() {
    let scored_phrases = vec![scored(&["alcohol"], -1.5)];
    assert_eq!(predicted_hrd(&scored_phrases), strings(&["alcohol"]));
}

/// The full pipeline, with the floating-point scoring the library leaves
/// to its caller done here exactly as specified: max-normalized
/// frequencies, natural-log inverse information content, centering by the
/// mean over all phrase-word occurrences.
fn run_pipeline(candidates: &Vec<String>) -> Option<String> {
    let split = CompiledPattern::compile(default_split_pattern().as_str()).unwrap();
    let blacklist: Vec<CompiledPattern> = default_blacklist_patterns()
        .iter()
        .map(|p| CompiledPattern::compile(p.as_str()).unwrap())
        .collect();

    let universe = candidate_hdrs_word_universe(candidates, &split);
    if universe.is_empty() {
        return None;
    }
    let classes = word_classification_map(&universe, &blacklist);
    let table: FrequencyTable = retain_informative(frequencies(&universe), &classes);

    let sum: f32 = table.entries.iter().map(|e| e.count as f32 / table.max_count as f32).sum();
    let iic = |count: u64| {
        if table.entries.len() > 1 {
            let pw = (count as f32 / table.max_count as f32) / sum;
            f32::log(1.0 / (1.0 - pw), 2.71828182846)
        } else {
            1.0
        }
    };

    let phrase_words = phrase_universe(candidates, &split)?;
    let count_lists = phrase_table_counts(&phrase_words, &table);
    let all_iic: Vec<f32> = count_lists.iter().flatten().map(|count| iic(*count)).collect();
    let mean = if all_iic.is_empty() {
        0.0
    } else {
        all_iic.iter().sum::<f32>() / all_iic.len() as f32
    };

    let scored_phrases: Vec<ScoredPhrase> = phrase_words
        .into_iter()
        .zip(count_lists.iter())
        .map(|(words, counts)| {
            let score: f32 = counts.iter().map(|count| iic(*count) - mean).sum();
            ScoredPhrase { words, score: score_key(score) }
        })
        .collect();
    if scored_phrases.is_empty() {
        return None;
    }
    Some(predicted_hrd(&scored_phrases).join(" "))
}

#[test]
fn pipeline_is_deterministic() {
    let candidates = strings(&[
        "Alcohol dehydrogenase",
        "manitol dehydrogenase",
        "Cinnamyl alcohol-dehydrogenase",
        "Geraniol dehydrogenase",
        "alcohol dehydrogenase c terminal",
    ]);
    let first = run_pipeline(&candidates).unwrap();
    let second = run_pipeline(&candidates).unwrap();
    assert_eq!(first, second);
    assert!(!first.is_empty());
}

#[test]
fn pipeline_handles_empty_candidates() {
    let candidates: Vec<String> = vec![];
    assert_eq!(run_pipeline(&candidates), None);
}
