//! Splitting text into terms: the maximal runs of word characters.
use regex::Regex;
use vstd::prelude::*;

verus! {

#[verifier::external_type_specification]
#[verifier::external_body]
pub struct ExRegex(Regex);

/// Whether `c` is a word character in the sense of the `\w` class of the
/// regex crate: a Unicode letter (`Alphabetic`), mark, decimal digit,
/// connector punctuation (such as `_`) or join control.
pub uninterp spec fn is_word_char(c: char) -> bool;

/// The runs of word characters of `s`, each maximal, in order of position.
/// `cur` is the run that is being read when `s` begins.
pub open spec fn runs_after(s: Seq<char>, cur: Seq<char>) -> Seq<Seq<char>>
    decreases s.len(),
{
    if s.len() == 0 {
        if cur.len() == 0 {
            seq![]
        } else {
            seq![cur]
        }
    } else if is_word_char(s[0]) {
        runs_after(s.drop_first(), cur.push(s[0]))
    } else if cur.len() == 0 {
        runs_after(s.drop_first(), seq![])
    } else {
        seq![cur] + runs_after(s.drop_first(), seq![])
    }
}

/// The terms of a text: its maximal runs of word characters, left to right.
pub open spec fn word_runs(s: Seq<char>) -> Seq<Seq<char>> {
    runs_after(s, seq![])
}

/// The characters of the pattern that finds the terms: `\w+`.
pub open spec fn term_pattern() -> Seq<char> {
    seq!['\\', 'w', '+']
}

/// The views of a sequence of strings.
pub open spec fn string_views(v: Seq<String>) -> Seq<Seq<char>> {
    v.map_values(|s: String| s@)
}

/// A compiled `\w+` pattern: finds the terms of a text.
pub struct WordPattern {
    re: Regex,
}

/// Relies on regex::Regex::new: `\w+` (the only pattern admitted) is valid
/// syntax and well within the default size limit, so it compiles.
#[verifier::external_body]
fn compile_term_pattern(source: &str) -> (r: WordPattern)
    requires
        source@ == term_pattern(),
{
    WordPattern { re: Regex::new(source).unwrap() }
}

/// Relies on regex::Regex::find_iter and regex::Match::as_str: for `\w+`
/// the successive non-overlapping leftmost-first matches of the haystack
/// are its maximal runs of `\w` characters, in order. Every `WordPattern`
/// holds `\w+`: `compile_term_pattern` is the only place that builds one.
#[verifier::external_body]
fn find_runs(pattern: &WordPattern, text: &str) -> (r: Vec<String>)
    ensures
        string_views(r@) == word_runs(text@),
        forall|i: int, j: int|
            0 <= i < r@.len() && 0 <= j < r@[i]@.len() ==> is_word_char(#[trigger] r@[i]@[j]),
{
    pattern.re.find_iter(text).map(|m| m.as_str().to_string()).collect()
}

impl WordPattern {
    /// Compiles the pattern `\w+`.
    pub fn new() -> (r: WordPattern) {
        let source = "\\w+";
        proof {
            reveal_strlit("\\w+");
            assert(source@ =~= term_pattern());
        }
        compile_term_pattern(source)
    }

    /// The terms of `text`, left to right, each taken verbatim.
    pub fn find_terms(&self, text: &str) -> (r: Vec<String>)
        ensures
            string_views(r@) == word_runs(text@),
            forall|i: int, j: int|
                0 <= i < r@.len() && 0 <= j < r@[i]@.len() ==> is_word_char(#[trigger] r@[i]@[j]),
    {
        find_runs(self, text)
    }
}

/// A text without word characters has no terms.
pub proof fn lemma_no_word_chars_no_runs(s: Seq<char>)
    requires
        forall|i: int| 0 <= i < s.len() ==> !is_word_char(#[trigger] s[i]),
    ensures
        word_runs(s) == Seq::<Seq<char>>::empty(),
    decreases s.len(),
{
    if s.len() > 0 {
        let t = s.drop_first();
        assert forall|i: int| 0 <= i < t.len() implies !is_word_char(#[trigger] t[i]) by {
            assert(t[i] == s[i + 1]);
        }
        lemma_no_word_chars_no_runs(t);
    }
}

} // verus!
