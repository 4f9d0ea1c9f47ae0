use tpd::dictionary::Dictionary;

fn words_of(dictionary: &Dictionary) -> Vec<String> {
    dictionary.to_vec().into_iter().cloned().collect()
}

#[test]
fn new_dictionary_is_empty() {
    let dictionary = Dictionary::new();
    assert!(dictionary.to_vec().is_empty());
    assert!(dictionary.get("anything").is_none());
    assert!(dictionary.get("").is_none());
}

#[test]
fn added_words_are_found() {
    let mut dictionary = Dictionary::new();
    dictionary.add(String::from("quick"));
    dictionary.add(String::from("fox"));
    assert_eq!(dictionary.get("quick"), Some(&String::from("quick")));
    assert_eq!(dictionary.get("fox"), Some(&String::from("fox")));
    assert!(dictionary.get("dog").is_none());
}

#[test]
fn lookup_is_exact() {
    let mut dictionary = Dictionary::new();
    dictionary.add(String::from("Word"));
    assert!(dictionary.get("Word").is_some());
    assert!(dictionary.get("word").is_none());
    assert!(dictionary.get("Word ").is_none());
    assert!(dictionary.get("Wor").is_none());
}

#[test]
fn duplicates_collapse() {
    let mut dictionary = Dictionary::new();
    dictionary.add(String::from("the"));
    dictionary.add(String::from("fox"));
    dictionary.add(String::from("the"));
    assert_eq!(words_of(&dictionary), vec!["the", "fox"]);
}

#[test]
fn words_are_listed_in_insertion_order() {
    let mut dictionary = Dictionary::new();
    for word in ["delta", "alpha", "charlie", "bravo"] {
        dictionary.add(String::from(word));
    }
    assert_eq!(words_of(&dictionary), vec!["delta", "alpha", "charlie", "bravo"]);
}

#[test]
fn many_words_are_all_found() {
    let mut dictionary = Dictionary::new();
    for i in 0..2000 {
        dictionary.add(format!("word{}", i));
    }
    assert_eq!(dictionary.to_vec().len(), 2000);
    for i in 0..2000 {
        assert!(dictionary.get(&format!("word{}", i)).is_some());
    }
    assert!(dictionary.get("word2000").is_none());
}

#[test]
fn word_lists_are_merged_line_by_line() {
    let mut dictionary = Dictionary::new();
    dictionary.add(String::from("fox"));
    dictionary.add_list("the\nquick\nfox");
    assert_eq!(words_of(&dictionary), vec!["fox", "the", "quick"]);
}

#[test]
fn word_lists_are_taken_as_they_are() {
    let mut dictionary = Dictionary::new();
    dictionary.add_list("One\n two\r\n");
    assert_eq!(words_of(&dictionary), vec!["One", " two\r", ""]);
    assert!(dictionary.get("one").is_none());
    assert!(dictionary.get("").is_some());
}

#[test]
fn empty_word_list_adds_the_empty_word() {
    let mut dictionary = Dictionary::new();
    dictionary.add_list("");
    assert_eq!(words_of(&dictionary), vec![""]);
}
