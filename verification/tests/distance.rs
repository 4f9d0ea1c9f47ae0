use tpd::distance::damerau_levenshtein;

#[test]
fn distance_is_symmetric() {
    let pairs = [
        ("kitten", "sitting"),
        ("ca", "abc"),
        ("", "abc"),
        ("hello", "hallo"),
        ("abcdef", "badcfe"),
        ("a", "b"),
    ];
    for (a, b) in pairs {
        assert_eq!(damerau_levenshtein(a, b), damerau_levenshtein(b, a));
    }
}

#[test]
fn distance_to_itself_is_zero() {
    for word in ["", "a", "word", "banana", "don't"] {
        assert_eq!(damerau_levenshtein(word, word), 0);
    }
}

#[test]
fn distance_to_empty_is_length() {
    assert_eq!(damerau_levenshtein("", ""), 0);
    assert_eq!(damerau_levenshtein("", "abc"), 3);
    assert_eq!(damerau_levenshtein("abcd", ""), 4);
}

#[test]
fn distance_counts_characters_not_bytes() {
    assert_eq!(damerau_levenshtein("", "\u{e9}t\u{e9}"), 3);
    assert_eq!(damerau_levenshtein("caf\u{e9}", "cafe"), 1);
}

#[test]
fn adjacent_transposition_costs_one() {
    assert_eq!(damerau_levenshtein("ab", "ba"), 1);
    assert_eq!(damerau_levenshtein("abcd", "abdc"), 1);
}

#[test]
fn single_substitution_costs_one() {
    assert_eq!(damerau_levenshtein("cat", "cot"), 1);
}

#[test]
fn insertion_and_deletion_cost_one() {
    assert_eq!(damerau_levenshtein("cat", "cart"), 1);
    assert_eq!(damerau_levenshtein("cart", "cat"), 1);
    assert_eq!(damerau_levenshtein("qick", "quick"), 1);
}

#[test]
fn transposition_may_span_an_insertion() {
    // Swap "ca" into "ac", then insert "b": two steps, where a distance
    // restricted to untouched neighbours would need three.
    assert_eq!(damerau_levenshtein("ca", "abc"), 2);
}

#[test]
fn distance_of_unrelated_words() {
    assert_eq!(damerau_levenshtein("kitten", "sitting"), 3);
    assert_eq!(damerau_levenshtein("abc", "xyz"), 3);
    assert_eq!(damerau_levenshtein("help", "hollo"), 3);
}

#[test]
fn distance_with_repeated_characters() {
    assert_eq!(damerau_levenshtein("aaaa", "aa"), 2);
    assert_eq!(damerau_levenshtein("abab", "baba"), 2);
    assert_eq!(damerau_levenshtein("banana", "bnaana"), 1);
}
