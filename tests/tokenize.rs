use youtube_organizer::{tokenize, tokenize_with, FrequencyMap, WordPattern};

fn pairs(m: &FrequencyMap) -> Vec<(String, usize)> {
    m.weighted_terms()
}

fn owned(items: &[(&str, usize)]) -> Vec<(String, usize)> {
    items.iter().map(|(t, c)| (t.to_string(), *c)).collect()
}

#[test]
fn empty_text_gives_empty_mapping() {
    let m = tokenize("");
    assert!(m.is_empty());
    assert_eq!(m.len(), 0);
    assert!(m.weighted_terms().is_empty());
}

#[test]
fn separators_only_give_empty_mapping() {
    let m = tokenize("  ,.;!? \n\t-+*/()[]{} 💻 … «»");
    assert!(m.is_empty());
    assert!(m.weighted_terms().is_empty());
}

#[test]
fn terms_are_case_sensitive() {
    let m = tokenize("Word word");
    assert_eq!(m.len(), 2);
    assert_eq!(m.count_of(&"Word".to_string()), 1);
    assert_eq!(m.count_of(&"word".to_string()), 1);
    assert_eq!(pairs(&m), owned(&[("Word", 1), ("word", 1)]));
}

#[test]
fn repeated_term_is_counted() {
    let m = tokenize("cat cat cat dog");
    assert_eq!(m.len(), 2);
    assert_eq!(m.count_of(&"cat".to_string()), 3);
    assert_eq!(m.count_of(&"dog".to_string()), 1);
    assert_eq!(m.count_of(&"bird".to_string()), 0);
    assert_eq!(pairs(&m), owned(&[("cat", 3), ("dog", 1)]));
}

#[test]
fn accented_letters_are_word_characters() {
    let m = tokenize("café café");
    assert_eq!(pairs(&m), owned(&[("café", 2)]));
}

#[test]
fn non_latin_scripts_are_word_characters() {
    let m = tokenize("привет, мир! привет 世界");
    assert_eq!(pairs(&m), owned(&[("привет", 2), ("мир", 1), ("世界", 1)]));
}

#[test]
fn digits_and_underscore_join_terms() {
    let m = tokenize("foo_bar 42 x-y foo_bar");
    assert_eq!(pairs(&m), owned(&[("foo_bar", 2), ("42", 1), ("x", 1), ("y", 1)]));
}

#[test]
fn counts_sum_to_number_of_runs() {
    let m = tokenize("a_b, c1 d! a_b...d d");
    let total: usize = m.weighted_terms().iter().map(|(_, c)| *c).sum();
    assert_eq!(total, 6);
    assert_eq!(pairs(&m), owned(&[("a_b", 2), ("c1", 1), ("d", 3)]));
}

#[test]
fn tokenizing_twice_gives_the_same_mapping() {
    let text = "the quick brown fox jumps over the lazy dog; the end";
    let first = tokenize(text);
    let second = tokenize(text);
    assert_eq!(pairs(&first), pairs(&second));
    assert_eq!(first.count_of(&"the".to_string()), 3);
}

#[test]
fn emoji_separates_terms() {
    let m = tokenize("hi💻hi");
    assert_eq!(pairs(&m), owned(&[("hi", 2)]));
}

#[test]
fn terms_keep_order_of_first_occurrence() {
    let m = tokenize("b a c a b b");
    assert_eq!(pairs(&m), owned(&[("b", 3), ("a", 2), ("c", 1)]));
}

#[test]
fn pattern_finds_maximal_runs() {
    let p = WordPattern::new();
    let found = p.find_terms("Hello, wörld!  x_1");
    assert_eq!(found, vec!["Hello".to_string(), "wörld".to_string(), "x_1".to_string()]);
    assert!(p.find_terms("").is_empty());
}

#[test]
fn one_pattern_serves_many_texts() {
    let p = WordPattern::new();
    assert_eq!(pairs(&tokenize_with(&p, "a a")), owned(&[("a", 2)]));
    assert_eq!(pairs(&tokenize_with(&p, "?! b")), owned(&[("b", 1)]));
}

#[test]
fn from_terms_counts_given_words() {
    let words = vec!["b".to_string(), "a".to_string(), "b".to_string()];
    let m = FrequencyMap::from_terms(&words);
    assert_eq!(pairs(&m), owned(&[("b", 2), ("a", 1)]));
    let empty = FrequencyMap::from_terms(&Vec::new());
    assert!(empty.is_empty());
}
