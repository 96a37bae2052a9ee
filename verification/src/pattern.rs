//! Compiled text patterns: the trusted boundary to the `regex` crate.
//!
//! A `CompiledPattern` pairs a compiled regular expression with the pattern
//! text it was compiled from; its view is that pattern text.  All contracts
//! about pattern behaviour are stated over uninterpreted functions of the
//! pattern text and the subject text, since both the compilation and the
//! matching are pure functions of those two strings.

use vstd::prelude::*;

verus! {

/// Whether `regex::Regex::new` accepts `pattern`.  Compilation depends on the
/// pattern text alone.
pub uninterp spec fn regex_pattern_ok(pattern: Seq<char>) -> bool;

/// Whether the regular expression compiled from `pattern` matches anywhere in
/// `text`.  The result of `regex::Regex::is_match` depends on the pattern and
/// the haystack alone.
pub uninterp spec fn regex_match(pattern: Seq<char>, text: Seq<char>) -> bool;

/// The substrings of `text` between successive matches of the regular
/// expression compiled from `pattern`, in order, as returned by
/// `regex::Regex::split`.  The result depends on the pattern and the haystack
/// alone.
pub uninterp spec fn regex_split(pattern: Seq<char>, text: Seq<char>) -> Seq<Seq<char>>;

/// `text` with every non-overlapping match of the regular expression compiled
/// from `pattern` removed, as returned by `regex::Regex::replace_all` with an
/// empty replacement.  The result depends on the pattern and the haystack
/// alone.
pub uninterp spec fn regex_strip(pattern: Seq<char>, text: Seq<char>) -> Seq<char>;

/// `text` with leading and trailing whitespace removed, as returned by
/// `str::trim`.  The result depends on the text alone.
pub uninterp spec fn trimmed(text: Seq<char>) -> Seq<char>;

#[verifier::external_type_specification]
#[verifier::external_body]
pub struct ExRegex(regex::Regex);

/// A compiled regular expression together with the pattern text it was built
/// from.  Only `compile` constructs values of this type, so the two fields
/// always belong together.
pub struct CompiledPattern {
    re: regex::Regex,
    src: String,
}

impl View for CompiledPattern {
    type V = Seq<char>;

    closed spec fn view(&self) -> Seq<char> {
        self.src@
    }
}

impl DeepView for CompiledPattern {
    type V = Seq<char>;

    open spec fn deep_view(&self) -> Seq<char> {
        self.view()
    }
}

impl CompiledPattern {
    /// Relies on `regex::Regex::new`: compiles `pattern`, returning `None`
    /// exactly on the pattern texts the engine rejects.
    #[verifier::external_body]
    pub fn compile(pattern: &str) -> (r: Option<CompiledPattern>)
        ensures
            r matches Some(p) ==> p@ == pattern@,
            r is Some <==> regex_pattern_ok(pattern@),
    {
        match regex::Regex::new(pattern) {
            Ok(re) => Some(CompiledPattern { re, src: pattern.to_string() }),
            Err(_) => None,
        }
    }

    /// Relies on `regex::Regex::is_match`: reports whether the pattern
    /// matches anywhere in `text`.
    #[verifier::external_body]
    pub(crate) fn is_match(&self, text: &str) -> (r: bool)
        ensures
            r == regex_match(self@, text@),
    {
        self.re.is_match(text)
    }

    /// Relies on `regex::Regex::split`: yields the substrings of `text`
    /// between successive matches of the pattern, in order.
    #[verifier::external_body]
    pub(crate) fn split(&self, text: &str) -> (r: Vec<String>)
        ensures
            r.deep_view() == regex_split(self@, text@),
    {
        self.re.split(text).map(|part| part.to_string()).collect()
    }

    /// Relies on `regex::Regex::replace_all`: removes every non-overlapping
    /// match of the pattern from `text`.
    #[verifier::external_body]
    pub(crate) fn strip(&self, text: &str) -> (r: String)
        ensures
            r@ == regex_strip(self@, text@),
    {
        self.re.replace_all(text, "").to_string()
    }
}

/// Relies on `str::trim`: removes leading and trailing whitespace from
/// `text`.
#[verifier::external_body]
pub(crate) fn trim_text(text: &str) -> (r: String)
    ensures
        r@ == trimmed(text@),
{
    text.trim().to_string()
}

} // verus!
