//! Splitting text into lines and tokens, and normalising tokens into words.
//!
//! A document is cut into lines, each line into tokens at every single
//! space, and each token is lowercased and stripped of punctuation before it
//! is looked up. Only tokens that consist of word characters after that are
//! checked at all.

use crate::strings::{byte_len, len_bytes};
use vstd::prelude::*;

verus! {

/// Characters a word may be made of: ASCII letters and the apostrophe.
pub open spec fn is_word_char(c: char) -> bool {
    ('a' <= c && c <= 'z') || ('A' <= c && c <= 'Z') || c == '\''
}

/// A normalised token is a word when it is not empty and consists of word
/// characters only.
pub open spec fn is_word(s: Seq<char>) -> bool {
    s.len() > 0 && forall|i: int| 0 <= i < s.len() ==> is_word_char(#[trigger] s[i])
}

/// Punctuation that is removed from a token wherever it occurs: straight
/// and curly double quotes, the apostrophe, `!`, `?`, `.` and `,`.
pub open spec fn is_stripped(c: char) -> bool {
    c == '"' || c == '\'' || c == '!' || c == '?' || c == '.' || c == '\u{201c}' || c
        == '\u{201d}' || c == ','
}

/// The characters that survive stripping.
pub open spec fn kept() -> spec_fn(char) -> bool {
    |c: char| !is_stripped(c)
}

/// A token with its punctuation stripped. Tokens of at most one byte are
/// left as they are.
pub open spec fn sanitized(word: Seq<char>) -> Seq<char> {
    if byte_len(word) <= 1 {
        word
    } else {
        word.filter(kept())
    }
}

/// Index of the first occurrence of `c` in `s`, or the length of `s` when
/// there is none.
pub open spec fn first_index_of(s: Seq<char>, c: char) -> nat
    decreases s.len(),
{
    if s.len() == 0 || s[0] == c {
        0
    } else {
        1 + first_index_of(s.drop_first(), c)
    }
}

/// The pieces of `s` between occurrences of `sep`. There is always at least
/// one piece; adjacent separators give empty pieces.
pub open spec fn split(s: Seq<char>, sep: char) -> Seq<Seq<char>>
    decreases s.len(),
{
    let k = first_index_of(s, sep);
    if k >= s.len() {
        seq![s]
    } else {
        seq![s.take(k as int)] + split(s.skip(k as int + 1), sep)
    }
}

/// A line without the carriage return that may precede its line feed.
pub open spec fn without_cr(line: Seq<char>) -> Seq<char> {
    if line.len() > 0 && line.last() == '\r' {
        line.drop_last()
    } else {
        line
    }
}

/// The lines of a text. A line ends at a line feed, which is not part of
/// the line, nor is a carriage return directly before it. What follows the
/// last line feed is a line of its own unless it is empty.
pub open spec fn lines(s: Seq<char>) -> Seq<Seq<char>>
    decreases s.len(),
{
    let k = first_index_of(s, '\n');
    if s.len() == 0 {
        Seq::empty()
    } else if k >= s.len() {
        seq![s]
    } else {
        seq![without_cr(s.take(k as int))] + lines(s.skip(k as int + 1))
    }
}

/// Pins down `first_index_of` from the characters around the position.
pub proof fn lemma_first_index_of(s: Seq<char>, c: char, k: nat)
    requires
        k <= s.len(),
        forall|p: int| 0 <= p < k ==> s[p] != c,
        k < s.len() ==> s[k as int] == c,
    ensures
        first_index_of(s, c) == k,
    decreases k,
{
    if k > 0 {
        lemma_first_index_of(s.drop_first(), c, (k - 1) as nat);
    }
}

/// `first_index_of` stays within the sequence and, unless it is the length,
/// points at the character it looks for.
pub proof fn lemma_first_index_bounds(s: Seq<char>, c: char)
    ensures
        first_index_of(s, c) <= s.len(),
        first_index_of(s, c) < s.len() ==> s[first_index_of(s, c) as int] == c,
    decreases s.len(),
{
    if s.len() > 0 && s[0] != c {
        lemma_first_index_bounds(s.drop_first(), c);
    }
}

/// Tells whether `c` may occur in a word.
pub fn accept(c: char) -> (ok: bool)
    ensures
        ok == is_word_char(c),
{
    (c >= 'a' && c <= 'z') || (c >= 'A' && c <= 'Z') || c == '\''
}

/// Tells whether `c` is punctuation that [`sanitize`] removes.
pub fn strip(c: char) -> (gone: bool)
    ensures
        gone == is_stripped(c),
{
    c == '"' || c == '\'' || c == '!' || c == '?' || c == '.' || c == '\u{201c}' || c
        == '\u{201d}' || c == ','
}

/// Strips punctuation from a lowercased token.
pub fn sanitize(word: String) -> (clean: String)
    ensures
        clean@ == sanitized(word@),
{
    if len_bytes(word.as_str()) <= 1 {
        return word;
    }
    let mut clean = String::new();
    proof {
        reveal(Seq::filter);
    }
    for c in it: word.as_str().chars()
        invariant
            it.seq() == word@,
            clean@ == word@.take(it.index()).filter(kept()),
    {
        proof {
            reveal(Seq::filter);
            assert(word@.take(it.index() + 1).drop_last() =~= word@.take(it.index()));
        }
        if !strip(c) {
            clean.push(c);
        }
    }
    assert(word@.take(word@.len() as int) =~= word@);
    clean
}

/// Tells whether a normalised token is a word, that is, whether it is to be
/// looked up in the dictionary.
pub fn accepted(word: &str) -> (ok: bool)
    ensures
        ok == is_word(word@),
{
    let mut all = true;
    let mut any = false;
    for c in it: word.chars()
        invariant
            it.seq() == word@,
            any == (it.index() > 0),
            all == forall|i: int| 0 <= i < it.index() ==> is_word_char(#[trigger] word@[i]),
    {
        any = true;
        if !accept(c) {
            all = false;
        }
    }
    all && any
}

/// Splits `text` at every occurrence of `sep`.
pub fn split_on(text: &str, sep: char) -> (parts: Vec<String>)
    ensures
        parts.deep_view() == split(text@, sep),
{
    let mut parts: Vec<String> = Vec::new();
    let mut current = String::new();
    let ghost mut start: int = 0;
    assert(text@.skip(0) =~= text@);
    assert(parts.deep_view() =~= Seq::<Seq<char>>::empty());
    for c in it: text.chars()
        invariant
            it.seq() == text@,
            0 <= start <= it.index() <= text@.len(),
            current@ == text@.subrange(start, it.index()),
            forall|p: int| start <= p < it.index() ==> text@[p] != sep,
            split(text@, sep) == parts.deep_view() + split(text@.skip(start), sep),
    {
        let ghost at = it.index();
        if c == sep {
            proof {
                let rest = text@.skip(start);
                lemma_first_index_of(rest, sep, (at - start) as nat);
                assert(rest.take(at - start) =~= current@);
                assert(rest.skip(at - start + 1) =~= text@.skip(at + 1));
                assert(parts.deep_view().push(current@) + split(text@.skip(at + 1), sep)
                    =~= parts.deep_view() + split(rest, sep));
                start = at + 1;
            }
            let ghost before = parts.deep_view();
            parts.push(current);
            assert(parts.deep_view() =~= before.push(current@));
            current = String::new();
        } else {
            assert(text@.subrange(start, at + 1) =~= text@.subrange(start, at).push(c));
            current.push(c);
        }
    }
    proof {
        let rest = text@.skip(start);
        lemma_first_index_of(rest, sep, rest.len());
        assert(rest =~= current@);
    }
    let ghost before = parts.deep_view();
    parts.push(current);
    assert(parts.deep_view() =~= before.push(current@));
    parts
}

/// Splits `text` into its lines.
pub fn split_lines(text: &str) -> (parts: Vec<String>)
    ensures
        parts.deep_view() == lines(text@),
{
    let mut parts: Vec<String> = Vec::new();
    let mut current = String::new();
    let ghost mut start: int = 0;
    assert(text@.skip(0) =~= text@);
    assert(parts.deep_view() =~= Seq::<Seq<char>>::empty());
    for c in it: text.chars()
        invariant
            it.seq() == text@,
            0 <= start <= it.index() <= text@.len(),
            current@ == text@.subrange(start, it.index()),
            forall|p: int| start <= p < it.index() ==> text@[p] != '\n',
            lines(text@) == parts.deep_view() + lines(text@.skip(start)),
    {
        let ghost at = it.index();
        if c == '\n' {
            proof {
                let rest = text@.skip(start);
                lemma_first_index_of(rest, '\n', (at - start) as nat);
                assert(rest.take(at - start) =~= current@);
                assert(rest.skip(at - start + 1) =~= text@.skip(at + 1));
                assert(parts.deep_view().push(without_cr(current@)) + lines(text@.skip(at + 1))
                    =~= parts.deep_view() + lines(rest));
                start = at + 1;
            }
            let ghost whole = current@;
            match current.pop() {
                Some(last) => {
                    if last != '\r' {
                        current.push(last);
                        assert(current@ =~= whole);
                    }
                },
                None => {},
            }
            let ghost before = parts.deep_view();
            parts.push(current);
            assert(parts.deep_view() =~= before.push(without_cr(whole)));
            current = String::new();
        } else {
            assert(text@.subrange(start, at + 1) =~= text@.subrange(start, at).push(c));
            current.push(c);
        }
    }
    proof {
        let rest = text@.skip(start);
        lemma_first_index_of(rest, '\n', rest.len());
        assert(rest =~= current@);
    }
    if !current.as_str().is_empty() {
        let ghost before = parts.deep_view();
        parts.push(current);
        assert(parts.deep_view() =~= before.push(current@));
    } else {
        assert(parts.deep_view() + Seq::<Seq<char>>::empty() =~= parts.deep_view());
    }
    parts
}

} // verus!
