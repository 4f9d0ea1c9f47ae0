use tpd::suggest::{all_searchable, search_similar, suggest};

fn owned(words: &[&str]) -> Vec<String> {
    words.iter().map(|word| word.to_string()).collect()
}

fn parts(found: Option<String>) -> Vec<String> {
    let mut parts: Vec<String> = match found {
        Some(text) => text.split(',').map(|part| part.to_string()).collect(),
        None => Vec::new(),
    };
    parts.sort();
    parts
}

#[test]
fn close_matches_are_all_reported() {
    let words = owned(&["hello", "help", "hallo"]);
    let refs: Vec<&String> = words.iter().collect();
    let found = suggest(&refs, "hollo");
    assert_eq!(found, Some(String::from("hello,hallo")));
    assert_eq!(parts(found), vec!["hallo", "hello"]);
}

#[test]
fn matches_keep_the_order_of_the_words() {
    let words = owned(&["hallo", "help", "hello"]);
    let refs: Vec<&String> = words.iter().collect();
    assert_eq!(search_similar(&refs, "hollo", 1), Some(String::from("hallo,hello")));
}

#[test]
fn search_wants_the_exact_distance() {
    let words = owned(&["cat", "cot", "dog"]);
    let refs: Vec<&String> = words.iter().collect();
    assert_eq!(search_similar(&refs, "cat", 1), Some(String::from("cot")));
    assert_eq!(search_similar(&refs, "cat", 0), Some(String::from("cat")));
    assert_eq!(search_similar(&refs, "cat", 3), Some(String::from("dog")));
    assert_eq!(search_similar(&refs, "cat", 2), None);
}

#[test]
fn looser_matches_only_without_close_ones() {
    let words = owned(&["abcd", "abxd"]);
    let refs: Vec<&String> = words.iter().collect();
    assert_eq!(suggest(&refs, "abxy"), Some(String::from("abxd")));
    let words = owned(&["abcd", "wxyz"]);
    let refs: Vec<&String> = words.iter().collect();
    assert_eq!(suggest(&refs, "abxy"), Some(String::from("abcd")));
}

#[test]
fn looser_matches_must_have_the_same_length() {
    let words = owned(&["abc"]);
    let refs: Vec<&String> = words.iter().collect();
    assert_eq!(search_similar(&refs, "a", 2), None);
    assert_eq!(suggest(&refs, "a"), None);
    let words = owned(&["ab"]);
    let refs: Vec<&String> = words.iter().collect();
    assert_eq!(search_similar(&refs, "cd", 2), Some(String::from("ab")));
}

#[test]
fn close_matches_differ_by_at_most_one_byte() {
    let words = owned(&["cart", "cat", "ca", "c"]);
    let refs: Vec<&String> = words.iter().collect();
    assert_eq!(search_similar(&refs, "cat", 1), Some(String::from("cart,ca")));
    // One character apart, but two bytes: not compared.
    let words = owned(&["\u{e9}\u{e9}"]);
    let refs: Vec<&String> = words.iter().collect();
    assert_eq!(search_similar(&refs, "e\u{e9}", 1), Some(String::from("\u{e9}\u{e9}")));
    assert_eq!(search_similar(&refs, "ee", 1), None);
}

#[test]
fn nothing_close_gives_no_suggestion() {
    let words = owned(&["elephant", "giraffe"]);
    let refs: Vec<&String> = words.iter().collect();
    assert_eq!(suggest(&refs, "cat"), None);
    let none: Vec<&String> = Vec::new();
    assert_eq!(suggest(&none, "cat"), None);
}

#[test]
fn trailing_commas_are_trimmed() {
    let words = owned(&["ab,"]);
    let refs: Vec<&String> = words.iter().collect();
    assert_eq!(search_similar(&refs, "ab", 1), Some(String::from("ab")));
    let words = owned(&[""]);
    let refs: Vec<&String> = words.iter().collect();
    assert_eq!(search_similar(&refs, "a", 1), Some(String::new()));
}

#[test]
fn empty_target_is_handled() {
    let words = owned(&["a", "ab", ""]);
    let refs: Vec<&String> = words.iter().collect();
    assert_eq!(search_similar(&refs, "", 1), Some(String::from("a")));
    assert_eq!(search_similar(&refs, "", 2), None);
}

#[test]
fn ordinary_words_are_searchable() {
    let words = owned(&["a", "word", "supercalifragilistic", ""]);
    let refs: Vec<&String> = words.iter().collect();
    assert!(all_searchable(&refs));
    let none: Vec<&String> = Vec::new();
    assert!(all_searchable(&none));
}
