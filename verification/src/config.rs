//! Default configuration catalogs.
//!
//! The engine itself takes its patterns as injected parameters; these
//! functions supply the stock catalogs a caller can start from: the split
//! pattern for tokenization, the blacklist of non-informative words, the
//! title filter patterns, and the label used for families without any hit
//! description.

use vstd::prelude::*;
use vstd::string::StringExecFns;

verus! {

/// The stock split pattern: word separators are runs of whitespace,
/// hyphens, underscores, pipes, slashes and common punctuation.
pub fn default_split_pattern() -> String {
    String::from_str("[\\s_\\-|/;:,']+")
}

/// The stock blacklist: words that carry no information about what a
/// sequence does.
pub fn default_blacklist_patterns() -> Vec<String> {
    let mut patterns: Vec<String> = Vec::new();
    patterns.push(String::from_str("(?i)\\bputative\\b"));
    patterns.push(String::from_str("(?i)\\bpredicted\\b"));
    patterns.push(String::from_str("(?i)\\buncharacterized\\b"));
    patterns.push(String::from_str("(?i)\\bhypothetical\\b"));
    patterns.push(String::from_str("(?i)\\bunknown\\b"));
    patterns.push(String::from_str("(?i)\\bfragment\\b"));
    patterns
}

/// The stock title filter patterns, applied in order: the leading database
/// accession of UniProt-style titles, then the trailing organism and
/// metadata fields.
pub fn default_filter_patterns() -> Vec<String> {
    let mut patterns: Vec<String> = Vec::new();
    patterns.push(String::from_str("^(sp|tr)\\|\\S+\\s+"));
    patterns.push(String::from_str("\\s+OS=.*$"));
    patterns
}

/// The label given to a family for which no hit description is available.
pub fn default_unknown_description() -> String {
    String::from_str("unknown sequence family")
}

} // verus!
