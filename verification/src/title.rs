//! Cleaning of raw hit title lines.
//!
//! A raw title is passed through an injected list of filter patterns, each
//! removing every match from the accumulated text in turn, and the result
//! is trimmed.

use crate::pattern::{regex_strip, trim_text, trimmed, CompiledPattern};
use vstd::prelude::*;
use vstd::string::StringExecFns;

verus! {

/// `text` after every pattern of `patterns`, in order, has removed its
/// matches from the accumulated result.
pub open spec fn stripped_all(patterns: Seq<Seq<char>>, text: Seq<char>) -> Seq<char>
    decreases patterns.len(),
{
    if patterns.len() == 0 {
        text
    } else {
        regex_strip(patterns.last(), stripped_all(patterns.drop_last(), text))
    }
}

/// Cleans a raw hit title: applies every filter pattern in order, each
/// removing all of its matches, then trims surrounding whitespace.
pub fn filter_stitle(stitle: &str, regexs: &Vec<CompiledPattern>) -> (r: String)
    ensures
        r@ == trimmed(stripped_all(regexs.deep_view(), stitle@)),
{
    let ghost patterns = regexs.deep_view();
    let mut accumulated = String::from_str(stitle);
    let mut i: usize = 0;
    while i < regexs.len()
        invariant
            i <= regexs@.len(),
            patterns == regexs.deep_view(),
            accumulated@ == stripped_all(patterns.take(i as int), stitle@),
        decreases regexs.len() - i,
    {
        proof {
            assert(patterns.take(i + 1).drop_last() =~= patterns.take(i as int));
            assert(patterns.take(i + 1).last() == patterns[i as int]);
            assert(patterns[i as int] == regexs@[i as int]@);
        }
        accumulated = regexs[i].strip(accumulated.as_str());
        i = i + 1;
    }
    proof {
        assert(patterns.take(regexs@.len() as int) =~= patterns);
    }
    trim_text(accumulated.as_str())
}

} // verus!
