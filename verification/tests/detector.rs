use tpd::detector::{check_token, scan_words, Finding};
use tpd::dictionary::Dictionary;

fn dictionary_of(words: &[&str]) -> Dictionary {
    let mut dictionary = Dictionary::new();
    for word in words {
        dictionary.add(word.to_string());
    }
    dictionary
}

fn finding(raw: &str, line: usize, column: usize, suggestion: Option<&str>) -> Finding {
    Finding {
        raw_token: raw.to_string(),
        line,
        column,
        suggestion: suggestion.map(|text| text.to_string()),
    }
}

#[test]
fn unknown_word_is_reported() {
    let words = dictionary_of(&["the", "quick", "fox"]);
    let found = scan_words("The qick fox\n", &words, false);
    assert_eq!(found, vec![finding("qick", 1, 9, None)]);
}

#[test]
fn unknown_word_is_reported_with_suggestion() {
    let words = dictionary_of(&["the", "quick", "fox"]);
    let found = scan_words("The qick fox\n", &words, true);
    assert_eq!(found, vec![finding("qick", 1, 9, Some("quick"))]);
}

#[test]
fn suggestions_list_every_close_word() {
    let words = dictionary_of(&["hello", "help", "hallo"]);
    let found = scan_words("hollo", &words, true);
    assert_eq!(found.len(), 1);
    let mut parts: Vec<&str> = found[0].suggestion.as_ref().unwrap().split(',').collect();
    parts.sort();
    assert_eq!(parts, vec!["hallo", "hello"]);
}

#[test]
fn looser_suggestions_come_second() {
    let words = dictionary_of(&["abcd"]);
    assert_eq!(scan_words("abxy", &words, true), vec![finding("abxy", 1, 5, Some("abcd"))]);
    assert_eq!(scan_words("zzzz", &words, true), vec![finding("zzzz", 1, 5, None)]);
}

#[test]
fn scanning_twice_gives_the_same_findings() {
    let words = dictionary_of(&["hello", "help", "hallo", "the"]);
    let document = "The hollo wrld\nhelo, Hallo!\n";
    for flag in [false, true] {
        let first = scan_words(document, &words, flag);
        let second = scan_words(document, &words, flag);
        assert_eq!(first, second);
        assert_eq!(first.len(), 3);
    }
}

#[test]
fn added_word_is_no_longer_reported() {
    let mut words = dictionary_of(&["the", "fox"]);
    let document = "The qick fox\nQick! said the fx\n";
    let before = scan_words(document, &words, false);
    assert_eq!(
        before,
        vec![
            finding("qick", 1, 9, None),
            finding("Qick!", 2, 6, None),
            finding("said", 2, 11, None),
            finding("fx", 2, 18, None),
        ]
    );
    words.add(String::from("qick"));
    let after = scan_words(document, &words, false);
    assert_eq!(after, vec![finding("said", 2, 11, None), finding("fx", 2, 18, None)]);
}

#[test]
fn words_are_lowercased_before_lookup() {
    let words = dictionary_of(&["hello", "world"]);
    assert!(scan_words("Hello WORLD hElLo", &words, false).is_empty());
    // The dictionary itself is not normalised.
    let words = dictionary_of(&["Hello"]);
    assert_eq!(scan_words("Hello", &words, false), vec![finding("Hello", 1, 6, None)]);
}

#[test]
fn punctuation_is_ignored_in_lookup() {
    let words = dictionary_of(&["hello", "dont"]);
    assert!(scan_words("Hello, \"hello\" hello! don't", &words, false).is_empty());
}

#[test]
fn tokens_that_are_not_words_are_skipped() {
    let words = Dictionary::new();
    let found = scan_words("42 3.14 a-b http://x.y ... , caf\u{e9}", &words, false);
    assert!(found.is_empty());
}

#[test]
fn single_characters_are_looked_up_as_they_are() {
    let words = dictionary_of(&["a"]);
    let found = scan_words("a I '", &words, false);
    assert_eq!(found, vec![finding("I", 1, 4, None), finding("'", 1, 6, None)]);
}

#[test]
fn empty_dictionary_reports_every_word() {
    let words = Dictionary::new();
    let found = scan_words("one two\nthree", &words, false);
    assert_eq!(
        found,
        vec![finding("one", 1, 4, None), finding("two", 1, 8, None), finding("three", 2, 6, None)]
    );
}

#[test]
fn empty_document_has_no_findings() {
    let words = dictionary_of(&["word"]);
    assert!(scan_words("", &words, true).is_empty());
    assert!(scan_words("\n\n", &words, true).is_empty());
    assert!(scan_words("   ", &words, true).is_empty());
}

#[test]
fn column_counts_every_token() {
    let words = Dictionary::new();
    // Empty tokens between spaces and skipped tokens advance the column too.
    let found = scan_words("  ab  42 cd", &words, false);
    assert_eq!(found, vec![finding("ab", 1, 5, None), finding("cd", 1, 12, None)]);
}

#[test]
fn column_counts_bytes() {
    let words = Dictionary::new();
    let found = scan_words("caf\u{e9} ok", &words, false);
    assert_eq!(found, vec![finding("ok", 1, 9, None)]);
}

#[test]
fn lines_are_numbered_from_one() {
    let words = dictionary_of(&["ok"]);
    let found = scan_words("ok\n\nbad ok\r\nok worse\n", &words, false);
    assert_eq!(found, vec![finding("bad", 3, 4, None), finding("worse", 4, 9, None)]);
}

#[test]
fn token_is_checked_from_its_lowercase_form() {
    let words = dictionary_of(&["hello"]);
    assert_eq!(check_token("Hello,", String::from("hello,"), 3, 7, &words, true), None);
    assert_eq!(
        check_token("Helo,", String::from("helo,"), 3, 7, &words, true),
        Some(finding("Helo,", 3, 7, Some("hello")))
    );
    assert_eq!(
        check_token("Helo,", String::from("helo,"), 3, 7, &words, false),
        Some(finding("Helo,", 3, 7, None))
    );
    assert_eq!(check_token("42", String::from("42"), 1, 3, &words, true), None);
    assert_eq!(check_token("", String::new(), 1, 1, &words, true), None);
}
