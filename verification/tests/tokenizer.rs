use loogle::path::is_hidden;
use loogle::text::{classify, keep_words, split, tokenize};

fn words(text: &str) -> Vec<String> {
    tokenize(text)
}

#[test]
fn splits_on_everything_that_is_not_alphanumeric() {
    assert_eq!(words("Hello, World! foo_bar-baz"), vec!["hello", "world", "foo", "bar", "baz"]);
}

#[test]
fn lowercases_every_token() {
    assert_eq!(words("APPLE Banana cHeRrY"), vec!["apple", "banana", "cherry"]);
}

#[test]
fn drops_runs_of_one_and_two_characters() {
    assert_eq!(words("a ab abc abcd"), vec!["abc", "abcd"]);
}

#[test]
fn keeps_runs_of_exactly_three_characters() {
    assert_eq!(words("the"), vec!["the"]);
}

#[test]
fn adjacent_boundaries_yield_nothing() {
    assert_eq!(words("one,,  ;;two"), vec!["one", "two"]);
}

#[test]
fn empty_text_has_no_tokens() {
    assert!(words("").is_empty());
}

#[test]
fn text_of_short_runs_has_no_tokens() {
    assert!(words("a b, cd! ef? 12").is_empty());
}

#[test]
fn text_of_boundaries_has_no_tokens() {
    assert!(words(" \t\n.,;:!?-_/\\").is_empty());
}

#[test]
fn digits_belong_to_runs() {
    assert_eq!(words("abc123 2024 x86"), vec!["abc123", "2024", "x86"]);
}

#[test]
fn keeps_the_order_and_the_repetitions() {
    assert_eq!(words("dog cat dog"), vec!["dog", "cat", "dog"]);
}

#[test]
fn a_run_at_the_end_of_the_text_is_a_token() {
    assert_eq!(words("first last"), vec!["first", "last"]);
    assert_eq!(words("first last "), vec!["first", "last"]);
}

#[test]
fn letters_of_other_scripts_are_alphanumeric() {
    assert_eq!(words("ÉCOLE-ÜBER Straße"), vec!["école", "über", "straße"]);
}

#[test]
fn length_is_measured_in_characters() {
    // Two characters, three bytes.
    assert!(words("éa").is_empty());
    // Two characters, two bytes.
    assert!(words("ab").is_empty());
    // One character, three bytes; two characters, six bytes.
    assert!(words("中").is_empty());
    assert!(words("中文").is_empty());
    // One character, four bytes.
    assert!(words("𝒜").is_empty());
    // Three characters, whatever their bytes.
    assert_eq!(words("éab"), vec!["éab"]);
    assert_eq!(words("中文字"), vec!["中文字"]);
    assert_eq!(words("äöü abc"), vec!["äöü", "abc"]);
}

#[test]
fn words_of_one_and_two_characters_yield_nothing() {
    assert!(words("go to an ox").is_empty());
    assert!(words("éa").is_empty());
    assert_eq!(words("an ox is so big"), vec!["big"]);
}

#[test]
fn tokenizing_twice_gives_the_same_tokens() {
    let text = "The quick brown fox; the LAZY dog.";
    assert_eq!(words(text), words(text));
}

#[test]
fn names_that_begin_with_a_dot_are_hidden() {
    assert!(is_hidden(".git"));
    assert!(is_hidden("."));
    assert!(is_hidden(".hidden.txt"));
}

#[test]
fn other_names_are_not_hidden() {
    assert!(!is_hidden("notes.txt"));
    assert!(!is_hidden("a.b"));
    assert!(!is_hidden(""));
    assert!(!is_hidden("_.x"));
}

#[test]
fn classify_marks_letters_and_digits() {
    assert_eq!(classify("a1 _é-"), vec![true, true, false, false, true, false]);
    assert!(classify("").is_empty());
}

#[test]
fn split_cuts_at_unmarked_characters() {
    let marks = vec![true, true, false, true, false, false, true];
    assert_eq!(split("ab,c;;d", &marks), vec!["ab", "c", "", "d"]);
}

#[test]
fn split_keeps_the_empty_pieces_at_both_ends() {
    assert_eq!(split(",a,", &vec![false, true, false]), vec!["", "a", ""]);
    assert_eq!(split("", &Vec::new()), vec![""]);
}

#[test]
fn split_goes_by_the_marks_not_by_the_characters() {
    assert_eq!(split("a,b", &vec![true, true, true]), vec!["a,b"]);
    assert_eq!(split("abc", &vec![true, false, true]), vec!["a", "c"]);
}

#[test]
fn split_takes_characters_without_a_mark_as_boundaries() {
    assert_eq!(split("abcd", &vec![true, true]), vec!["ab", "", ""]);
    assert_eq!(split("ab", &vec![true, true, true, true]), vec!["ab"]);
}

#[test]
fn keep_words_drops_short_runs_and_lowercases_the_others() {
    let runs: Vec<String> =
        ["", "ab", "ABC", "x", "Word", "éa", "ÉAB"].iter().map(|r| r.to_string()).collect();
    assert_eq!(keep_words(&runs), vec!["abc", "word", "éab"]);
    assert!(keep_words(&Vec::new()).is_empty());
}
