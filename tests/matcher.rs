use fuzzy_find::matcher::{matches_classified, path_matches_search};
use fuzzy_find::{make_case_insensitive, Options};

fn opts(insensitive: bool) -> Options {
    Options { insensitive, verbose: false }
}

#[test]
fn inner_letter_does_not_start_a_later_word() {
    assert!(!path_matches_search("foo_bar", "obar"));
}

#[test]
fn cursor_carries_over_a_separator() {
    assert!(path_matches_search("foo-bar", "fbar"));
}

#[test]
fn single_word_does_not_carry_over() {
    assert!(!path_matches_search("abXcd", "abcd"));
}

#[test]
fn run_at_word_start_matches() {
    assert!(path_matches_search("src/main.rs", "main"));
    assert!(path_matches_search("main", "main"));
    assert!(path_matches_search("x.log", "log"));
}

#[test]
fn earlier_partial_progress_can_block_a_later_run() {
    // The cursor moved past `a` in the first word and never comes back.
    assert!(!path_matches_search("a-x-ab", "ab"));
}

#[test]
fn prefixes_of_several_words_match() {
    assert!(path_matches_search("src/traversal_engine.rs", "stre"));
    assert!(!path_matches_search("src/traversal_engine.rs", "zz"));
}

#[test]
fn success_needs_the_whole_term() {
    assert!(!path_matches_search("fo", "foo"));
    assert!(!path_matches_search("", "a"));
}

#[test]
fn separator_in_term_matches_separator() {
    assert!(path_matches_search("a.b", "a.b"));
}

#[test]
fn case_insensitive_mode_folds_both_sides() {
    let term = make_case_insensitive("foo", &opts(true));
    let cand = make_case_insensitive("FOO", &opts(true));
    assert!(path_matches_search(&cand, &term));
    let term = make_case_insensitive("foo", &opts(false));
    let cand = make_case_insensitive("FOO", &opts(false));
    assert!(!path_matches_search(&cand, &term));
}

#[test]
fn make_case_insensitive_lowers_only_when_asked() {
    assert_eq!(make_case_insensitive("AbC", &opts(true)), "abc");
    assert_eq!(make_case_insensitive("AbC", &opts(false)), "AbC");
}

#[test]
fn unicode_letters_count_as_word_characters() {
    assert!(!path_matches_search("éfoo", "foo"));
    assert!(path_matches_search("é-foo", "foo"));
}

#[test]
fn classification_decides_words() {
    let cand: Vec<char> = "ab".chars().collect();
    let term: Vec<char> = "b".chars().collect();
    assert!(!matches_classified(&cand, &vec![true, true], &term));
    assert!(matches_classified(&cand, &vec![false, true], &term));
}
