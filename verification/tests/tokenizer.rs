use tpd::tokenizer::{accept, accepted, sanitize, split_lines, split_on, strip};

fn normalize(raw: &str) -> String {
    sanitize(raw.to_lowercase())
}

#[test]
fn normalizing_lowercases_and_strips() {
    assert_eq!(normalize("Hello,"), "hello");
    assert_eq!(normalize("WORLD!"), "world");
    assert_eq!(normalize("\"Quoted.\""), "quoted");
    assert_eq!(normalize("what?!"), "what");
}

#[test]
fn apostrophes_are_stripped_from_longer_tokens() {
    assert_eq!(normalize("don't"), "dont");
    assert!(accepted(&normalize("don't")));
}

#[test]
fn curly_quotes_are_stripped() {
    assert_eq!(normalize("\u{201c}hi\u{201d}"), "hi");
    assert_eq!(sanitize(String::from("\u{201c}")), "");
}

#[test]
fn punctuation_is_stripped_everywhere() {
    assert_eq!(sanitize(String::from("a.b,c!d")), "abcd");
    assert_eq!(sanitize(String::from("...")), "");
}

#[test]
fn single_byte_tokens_are_not_stripped() {
    assert_eq!(sanitize(String::from("a")), "a");
    assert_eq!(sanitize(String::from("'")), "'");
    assert_eq!(sanitize(String::from(",")), ",");
    assert_eq!(sanitize(String::new()), "");
    assert!(accepted("a"));
    assert!(accepted("'"));
    assert!(!accepted(","));
}

#[test]
fn other_characters_are_kept() {
    assert_eq!(sanitize(String::from("a-b;c")), "a-b;c");
    assert_eq!(sanitize(String::from("42")), "42");
}

#[test]
fn only_words_are_accepted() {
    assert!(accepted("hello"));
    assert!(accepted("Hello"));
    assert!(accepted("o'clock"));
    assert!(!accepted("42"));
    assert!(!accepted("abc1"));
    assert!(!accepted("a-b"));
    assert!(!accepted("caf\u{e9}"));
    assert!(!accepted(""));
}

#[test]
fn word_characters() {
    for c in ['a', 'm', 'z', 'A', 'M', 'Z', '\''] {
        assert!(accept(c));
    }
    for c in ['0', '9', ' ', '-', '`', '{', '@', '[', '\u{e9}', ','] {
        assert!(!accept(c));
    }
}

#[test]
fn stripped_characters() {
    for c in ['"', '\'', '!', '?', '.', '\u{201c}', '\u{201d}', ','] {
        assert!(strip(c));
    }
    for c in ['a', ';', ':', '-', '(', '\u{2018}', '\u{2019}', ' '] {
        assert!(!strip(c));
    }
}

#[test]
fn splitting_on_spaces() {
    assert_eq!(split_on("The qick fox", ' '), vec!["The", "qick", "fox"]);
    assert_eq!(split_on("one", ' '), vec!["one"]);
    assert_eq!(split_on("", ' '), vec![""]);
    assert_eq!(split_on("a  b", ' '), vec!["a", "", "b"]);
    assert_eq!(split_on(" a ", ' '), vec!["", "a", ""]);
    assert_eq!(split_on("tab\tstays", ' '), vec!["tab\tstays"]);
}

#[test]
fn splitting_agrees_with_std() {
    for text in ["", " ", "a b c", "  lead", "trail  ", "caf\u{e9} au lait", "x"] {
        let expected: Vec<&str> = text.split(' ').collect();
        assert_eq!(split_on(text, ' '), expected);
    }
}

#[test]
fn splitting_into_lines() {
    assert_eq!(split_lines("a\nb"), vec!["a", "b"]);
    assert_eq!(split_lines("a\nb\n"), vec!["a", "b"]);
    assert_eq!(split_lines("a\n\nb"), vec!["a", "", "b"]);
    assert_eq!(split_lines("\n"), vec![""]);
    assert_eq!(split_lines(""), Vec::<String>::new());
    assert_eq!(split_lines("no newline"), vec!["no newline"]);
}

#[test]
fn carriage_returns_before_line_feeds_are_dropped() {
    assert_eq!(split_lines("a\r\nb\r\n"), vec!["a", "b"]);
    assert_eq!(split_lines("a\r\r\nb"), vec!["a\r", "b"]);
    assert_eq!(split_lines("a\rb\n"), vec!["a\rb"]);
    assert_eq!(split_lines("a\nb\r"), vec!["a", "b\r"]);
    assert_eq!(split_lines("\r\n"), vec![""]);
}

#[test]
fn lines_agree_with_std() {
    for text in [
        "",
        "\n",
        "\n\n",
        "one",
        "one\n",
        "one\ntwo",
        "one\r\ntwo\r\n",
        "\r",
        "\r\n\r",
        "a\r\r\n",
        "caf\u{e9}\nau lait\n",
    ] {
        let expected: Vec<&str> = text.lines().collect();
        assert_eq!(split_lines(text), expected);
    }
}
