//! Counting the terms of a text.
//!
//! A [`FrequencyMap`] lists each distinct term once, with the number of its
//! occurrences, in the order in which the terms first occur.
use crate::words::{is_word_char, lemma_no_word_chars_no_runs, string_views, word_runs, WordPattern};
use vstd::prelude::*;

verus! {

/// The distinct elements of `ws`, in order of first occurrence.
pub open spec fn distinct_terms(ws: Seq<Seq<char>>) -> Seq<Seq<char>>
    decreases ws.len(),
{
    if ws.len() == 0 {
        seq![]
    } else {
        let prev = distinct_terms(ws.drop_last());
        if prev.contains(ws.last()) {
            prev
        } else {
            prev.push(ws.last())
        }
    }
}

/// How often `k` occurs in `ws`.
pub open spec fn occurrences(ws: Seq<Seq<char>>, k: Seq<char>) -> nat {
    ws.to_multiset().count(k)
}

/// Each distinct term of `ws` with its number of occurrences, in order of
/// first occurrence.
pub open spec fn frequencies(ws: Seq<Seq<char>>) -> Seq<(Seq<char>, nat)> {
    distinct_terms(ws).map_values(|k: Seq<char>| (k, occurrences(ws, k)))
}

/// The frequency list of a text's terms.
pub open spec fn term_frequencies(text: Seq<char>) -> Seq<(Seq<char>, nat)> {
    frequencies(word_runs(text))
}

/// The sum of the counts of a frequency list.
pub open spec fn total_count(es: Seq<(Seq<char>, nat)>) -> nat
    decreases es.len(),
{
    if es.len() == 0 {
        0
    } else {
        total_count(es.drop_last()) + es.last().1
    }
}

/// A frequency list: no term twice, and every count at least one.
pub open spec fn is_frequency_list(es: Seq<(Seq<char>, nat)>) -> bool {
    &&& forall|i: int, j: int| 0 <= i < j < es.len() ==> es[i].0 != es[j].0
    &&& forall|i: int| 0 <= i < es.len() ==> es[i].1 >= 1
}

/// Pairs up terms and counts.
pub open spec fn entries_view(terms: Seq<String>, counts: Seq<usize>) -> Seq<(Seq<char>, nat)> {
    Seq::new(terms.len(), |i: int| (terms[i]@, counts[i] as nat))
}

/// Terms with their numbers of occurrences.
pub struct FrequencyMap {
    terms: Vec<String>,
    counts: Vec<usize>,
}

impl View for FrequencyMap {
    type V = Seq<(Seq<char>, nat)>;

    closed spec fn view(&self) -> Seq<(Seq<char>, nat)> {
        entries_view(self.terms@, self.counts@)
    }
}

proof fn lemma_distinct_terms(ws: Seq<Seq<char>>)
    ensures
        distinct_terms(ws).no_duplicates(),
        forall|k: Seq<char>| distinct_terms(ws).contains(k) <==> ws.contains(k),
    decreases ws.len(),
{
    if ws.len() > 0 {
        let prev = ws.drop_last();
        lemma_distinct_terms(prev);
        assert forall|k: Seq<char>| ws.contains(k) <==> prev.contains(k) || k == ws.last() by {
            if ws.contains(k) {
                let i = choose|i: int| 0 <= i < ws.len() && ws[i] == k;
                if i < ws.len() - 1 {
                    assert(prev[i] == k);
                }
            }
            if prev.contains(k) {
                let i = choose|i: int| 0 <= i < prev.len() && prev[i] == k;
                assert(ws[i] == k);
            }
            if k == ws.last() {
                assert(ws[ws.len() - 1] == k);
            }
        }
        let d = distinct_terms(prev);
        if !d.contains(ws.last()) {
            assert forall|k: Seq<char>| d.push(ws.last()).contains(k) <==> d.contains(k) || k == ws.last() by {
                if d.push(ws.last()).contains(k) {
                    let i = choose|i: int| 0 <= i < d.len() + 1 && d.push(ws.last())[i] == k;
                    if i < d.len() {
                        assert(d[i] == k);
                    }
                }
                if d.contains(k) {
                    let i = choose|i: int| 0 <= i < d.len() && d[i] == k;
                    assert(d.push(ws.last())[i] == k);
                }
                if k == ws.last() {
                    assert(d.push(ws.last())[d.len() as int] == k);
                }
            }
        }
    }
}

/// Raising one count by `c - es[j].1` changes the total by as much.
proof fn lemma_total_update(es: Seq<(Seq<char>, nat)>, j: int, c: nat)
    requires
        0 <= j < es.len(),
    ensures
        total_count(es.update(j, (es[j].0, c))) + es[j].1 == total_count(es) + c,
    decreases es.len(),
{
    let u = es.update(j, (es[j].0, c));
    if j < es.len() - 1 {
        lemma_total_update(es.drop_last(), j, c);
        assert(u.drop_last() =~= es.drop_last().update(j, (es[j].0, c)));
    } else {
        assert(u.drop_last() =~= es.drop_last());
    }
}

/// Where `w` stands among `terms`, if anywhere.
fn position(terms: &Vec<String>, w: &String) -> (r: Option<usize>)
    ensures
        match r {
            Some(j) => j < terms@.len() && terms@[j as int]@ == w@,
            None => forall|j: int| 0 <= j < terms@.len() ==> terms@[j]@ != w@,
        },
{
    let mut j: usize = 0;
    while j < terms.len()
        invariant
            j <= terms@.len(),
            forall|k: int| 0 <= k < j ==> terms@[k]@ != w@,
        decreases terms@.len() - j,
    {
        if terms[j] == *w {
            return Some(j);
        }
        j = j + 1;
    }
    None
}

impl FrequencyMap {
    /// The counts are a frequency list, one count for each term.
    pub closed spec fn well_formed(&self) -> bool {
        &&& self.terms@.len() == self.counts@.len()
        &&& is_frequency_list(self@)
    }

    /// Counts the occurrences of each distinct string of `words`; the terms
    /// stand in order of first occurrence and the counts sum to the number
    /// of words.
    pub fn from_terms(words: &Vec<String>) -> (r: FrequencyMap)
        ensures
            r.well_formed(),
            r@ == frequencies(string_views(words@)),
            total_count(r@) == words@.len(),
    {
        let ghost ws = string_views(words@);
        let mut terms: Vec<String> = Vec::new();
        let mut counts: Vec<usize> = Vec::new();
        let mut i: usize = 0;
        while i < words.len()
            invariant
                i <= words@.len(),
                ws == string_views(words@),
                terms@.len() == counts@.len(),
                string_views(terms@) == distinct_terms(ws.take(i as int)),
                forall|j: int|
                    0 <= j < counts@.len() ==> counts@[j] == occurrences(
                        ws.take(i as int),
                        #[trigger] terms@[j]@,
                    ),
                forall|j: int| 0 <= j < counts@.len() ==> #[trigger] counts@[j] <= i,
                total_count(entries_view(terms@, counts@)) == i,
            decreases words@.len() - i,
        {
            let ghost prev = ws.take(i as int);
            let ghost next = ws.take(i as int + 1);
            let ghost old_terms = terms@;
            let ghost old_counts = counts@;
            proof {
                lemma_distinct_terms(prev);
                assert(next.drop_last() =~= prev);
                assert(next =~= prev.push(ws[i as int]));
                prev.to_multiset_ensures();
                assert(next.to_multiset() =~= prev.to_multiset().insert(ws[i as int]));
                assert(ws[i as int] == words@[i as int]@);
                assert(string_views(old_terms).len() == old_terms.len());
            }
            match position(&terms, &words[i]) {
                Some(j) => {
                    let c = counts[j];
                    counts.set(j, c + 1);
                    proof {
                        assert(string_views(old_terms)[j as int] == old_terms[j as int]@);
                        assert(distinct_terms(prev).contains(ws[i as int]));
                        assert(distinct_terms(next) == distinct_terms(prev));
                        assert forall|k: int| 0 <= k < counts@.len() implies counts@[k]
                            == occurrences(next, #[trigger] terms@[k]@) by {
                            assert(string_views(old_terms)[k] == old_terms[k]@);
                            assert(old_counts[k] == occurrences(prev, old_terms[k]@));
                            if k != j {
                                assert(old_terms[k]@ != old_terms[j as int]@);
                            }
                        }
                        assert(entries_view(terms@, counts@) =~= entries_view(
                            old_terms,
                            old_counts,
                        ).update(j as int, (old_terms[j as int]@, (c + 1) as nat)));
                        lemma_total_update(
                            entries_view(old_terms, old_counts),
                            j as int,
                            (c + 1) as nat,
                        );
                    }
                },
                None => {
                    terms.push(words[i].clone());
                    counts.push(1);
                    proof {
                        assert(!distinct_terms(prev).contains(ws[i as int])) by {
                            if distinct_terms(prev).contains(ws[i as int]) {
                                let k = choose|k: int|
                                    0 <= k < distinct_terms(prev).len() && distinct_terms(
                                        prev,
                                    )[k] == ws[i as int];
                                assert(string_views(old_terms)[k] == old_terms[k]@);
                            }
                        }
                        assert(!prev.contains(ws[i as int]));
                        assert(string_views(terms@) =~= string_views(old_terms).push(
                            ws[i as int],
                        ));
                        assert forall|k: int| 0 <= k < counts@.len() implies counts@[k]
                            == occurrences(next, #[trigger] terms@[k]@) by {
                            if k < old_terms.len() {
                                assert(terms@[k] == old_terms[k]);
                                assert(string_views(old_terms)[k] == old_terms[k]@);
                                assert(old_counts[k] == occurrences(prev, old_terms[k]@));
                                assert(old_terms[k]@ != ws[i as int]);
                            } else {
                                assert(terms@[k]@ == ws[i as int]);
                                assert(prev.to_multiset().count(ws[i as int]) == 0);
                            }
                        }
                        assert(entries_view(terms@, counts@).drop_last() =~= entries_view(
                            old_terms,
                            old_counts,
                        ));
                    }
                },
            }
            i = i + 1;
        }
        proof {
            assert(ws.take(i as int) =~= ws);
            lemma_distinct_terms(ws);
            ws.to_multiset_ensures();
            assert forall|j: int| 0 <= j < terms@.len() implies terms@[j]@ == distinct_terms(
                ws,
            )[j] by {
                assert(string_views(terms@)[j] == terms@[j]@);
            }
            assert(entries_view(terms@, counts@) =~= frequencies(ws));
            assert forall|j: int| 0 <= j < terms@.len() implies counts@[j] >= 1 by {
                assert(distinct_terms(ws)[j] == terms@[j]@);
                assert(distinct_terms(ws).contains(terms@[j]@));
                assert(ws.to_multiset().count(terms@[j]@) > 0);
            }
        }
        FrequencyMap { terms, counts }
    }

    /// The number of distinct terms.
    pub fn len(&self) -> (r: usize)
        requires
            self.well_formed(),
        ensures
            r == self@.len(),
    {
        self.terms.len()
    }

    /// Whether no term was counted.
    pub fn is_empty(&self) -> (r: bool)
        requires
            self.well_formed(),
        ensures
            r == (self@.len() == 0),
    {
        self.terms.len() == 0
    }

    /// The count of `term`; zero where it did not occur.
    pub fn count_of(&self, term: &String) -> (r: usize)
        requires
            self.well_formed(),
        ensures
            forall|j: int| 0 <= j < self@.len() && self@[j].0 == term@ ==> r == self@[j].1,
            (forall|j: int| 0 <= j < self@.len() ==> self@[j].0 != term@) ==> r == 0,
    {
        match position(&self.terms, term) {
            Some(j) => {
                proof {
                    assert(self@[j as int].0 == term@);
                    assert forall|k: int| 0 <= k < self@.len() && self@[k].0 == term@ implies k
                        == j by {
                        if k != j {
                            assert(self@[k].0 != self@[j as int].0);
                        }
                    }
                }
                self.counts[j]
            },
            None => 0,
        }
    }

    /// The weighted term list: each term with its count as weight, in the
    /// order of the frequency list.
    pub fn weighted_terms(&self) -> (r: Vec<(String, usize)>)
        requires
            self.well_formed(),
        ensures
            r@.len() == self@.len(),
            forall|j: int|
                0 <= j < r@.len() ==> (#[trigger] r@[j].0@, r@[j].1 as nat) == self@[j],
    {
        let mut r: Vec<(String, usize)> = Vec::new();
        let mut j: usize = 0;
        while j < self.terms.len()
            invariant
                self.well_formed(),
                j <= self@.len(),
                r@.len() == j,
                forall|k: int|
                    0 <= k < j ==> (#[trigger] r@[k].0@, r@[k].1 as nat) == self@[k],
            decreases self@.len() - j,
        {
            r.push((self.terms[j].clone(), self.counts[j]));
            j = j + 1;
        }
        r
    }
}

/// A text without word characters has an empty frequency list.
pub proof fn lemma_no_word_chars_no_terms(text: Seq<char>)
    requires
        forall|i: int| 0 <= i < text.len() ==> !is_word_char(#[trigger] text[i]),
    ensures
        term_frequencies(text).len() == 0,
{
    lemma_no_word_chars_no_runs(text);
}

/// Tokenizing the same text twice gives the same frequency list, term for
/// term, count for count and in the same order.
pub proof fn lemma_tokenize_repeatable(text: Seq<char>, first: FrequencyMap, second: FrequencyMap)
    requires
        first@ == term_frequencies(text),
        second@ == term_frequencies(text),
    ensures
        first@ == second@,
{
}

/// Counts the terms of `text` (its maximal runs of word characters) found
/// with `pattern`.
pub fn tokenize_with(pattern: &WordPattern, text: &str) -> (r: FrequencyMap)
    ensures
        r.well_formed(),
        r@ == term_frequencies(text@),
        total_count(r@) == word_runs(text@).len(),
        (forall|i: int| 0 <= i < text@.len() ==> !is_word_char(#[trigger] text@[i])) ==> r@.len()
            == 0,
{
    let words = pattern.find_terms(text);
    proof {
        assert(string_views(words@).len() == words@.len());
        if forall|i: int| 0 <= i < text@.len() ==> !is_word_char(#[trigger] text@[i]) {
            lemma_no_word_chars_no_terms(text@);
        }
    }
    FrequencyMap::from_terms(&words)
}

/// Counts the terms of `text`: each maximal run of word characters (letters,
/// digits, marks, connector punctuation such as `_`), taken verbatim and
/// compared case-sensitively.
pub fn tokenize(text: &str) -> (r: FrequencyMap)
    ensures
        r.well_formed(),
        r@ == term_frequencies(text@),
        total_count(r@) == word_runs(text@).len(),
        (forall|i: int| 0 <= i < text@.len() ==> !is_word_char(#[trigger] text@[i])) ==> r@.len()
            == 0,
{
    let pattern = WordPattern::new();
    tokenize_with(&pattern, text)
}

} // verus!
