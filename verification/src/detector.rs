//! Scanning a document for words that the dictionary does not know.
//!
//! [`scan_words`] walks the document line by line and token by token. Each
//! token is lowercased and stripped of punctuation; what is left is looked
//! up if it is a word, and reported as a [`Finding`] if the dictionary does
//! not hold it.

use crate::dictionary::{with_word, Dictionary};
use crate::strings::{
    byte_len, lemma_byte_len_ascii, lemma_byte_len_concat, len_bytes, lowercase,
};
use crate::suggest::{lemma_searchable_comparable, searchable, suggest, suggestion};
use crate::tokenizer::{
    accepted, first_index_of, is_word, lemma_first_index_bounds, lines, sanitize, sanitized, split,
    split_lines, split_on,
};
use vstd::prelude::*;

verus! {

/// A token of the document that is not in the dictionary.
#[derive(Debug, Clone, PartialEq, Eq)]
pub struct Finding {
    /// The token as it stands in the document.
    pub raw_token: String,
    /// Number of the line that holds the token, starting at 1.
    pub line: usize,
    /// Running column: the byte lengths of the tokens of the line up to and
    /// including this one, plus one for each of them.
    pub column: usize,
    /// Dictionary words close to the token, joined by commas, if
    /// suggestions were asked for and there are any.
    pub suggestion: Option<String>,
}

/// What a [`Finding`] stands for in contracts.
pub struct FindingView {
    pub raw_token: Seq<char>,
    pub line: nat,
    pub column: nat,
    pub suggestion: Option<Seq<char>>,
}

impl View for Finding {
    type V = FindingView;

    open spec fn view(&self) -> FindingView {
        FindingView {
            raw_token: self.raw_token@,
            line: self.line as nat,
            column: self.column as nat,
            suggestion: match self.suggestion {
                Some(text) => Some(text@),
                None => None,
            },
        }
    }
}

/// The views of a sequence of findings.
pub open spec fn views(found: Seq<Finding>) -> Seq<FindingView> {
    Seq::new(found.len(), |i: int| found[i]@)
}

/// The word that is looked up for a raw token.
pub open spec fn normalized(raw: Seq<char>) -> Seq<char> {
    sanitized(lowercase(raw))
}

/// What one token gives rise to, given its lowercase form: a finding if the
/// sanitized form is a word that `words` does not hold, nothing otherwise.
pub open spec fn token_finding(
    raw: Seq<char>,
    lowered: Seq<char>,
    line: nat,
    column: nat,
    words: Seq<Seq<char>>,
    show_suggest: bool,
) -> Option<FindingView> {
    let target = sanitized(lowered);
    if is_word(target) && !words.contains(target) {
        Some(
            FindingView {
                raw_token: raw,
                line,
                column,
                suggestion: if show_suggest {
                    suggestion(words, target)
                } else {
                    None
                },
            },
        )
    } else {
        None
    }
}

/// The findings of the tokens of one line. `column` is the running column
/// before the first of `tokens`; every token advances it by its byte length
/// plus one, whether it is reported or not.
pub open spec fn line_findings(
    tokens: Seq<Seq<char>>,
    line: nat,
    column: nat,
    words: Seq<Seq<char>>,
    show_suggest: bool,
) -> Seq<FindingView>
    decreases tokens.len(),
{
    if tokens.len() == 0 {
        Seq::empty()
    } else {
        let raw = tokens[0];
        let here = column + byte_len(raw) + 1;
        let rest = line_findings(tokens.drop_first(), line, here, words, show_suggest);
        match token_finding(raw, lowercase(raw), line, here, words, show_suggest) {
            Some(finding) => seq![finding] + rest,
            None => rest,
        }
    }
}

/// The findings of consecutive lines, the first of which has the number
/// `line`.
pub open spec fn lines_findings(
    text: Seq<Seq<char>>,
    line: nat,
    words: Seq<Seq<char>>,
    show_suggest: bool,
) -> Seq<FindingView>
    decreases text.len(),
{
    if text.len() == 0 {
        Seq::empty()
    } else {
        line_findings(split(text[0], ' '), line, 0, words, show_suggest) + lines_findings(
            text.drop_first(),
            line + 1,
            words,
            show_suggest,
        )
    }
}

/// The findings of a document, in document order.
pub open spec fn findings(source: Seq<char>, words: Seq<Seq<char>>, show_suggest: bool) -> Seq<
    FindingView,
> {
    lines_findings(lines(source), 1, words, show_suggest)
}

/// Sum over `tokens` of the byte length plus one: the running column after
/// the last of them.
pub open spec fn advance(tokens: Seq<Seq<char>>) -> nat
    decreases tokens.len(),
{
    if tokens.len() == 0 {
        0
    } else {
        byte_len(tokens[0]) + 1 + advance(tokens.drop_first())
    }
}

/// After the last token of a line the running column is the byte length of
/// the line plus one.
pub proof fn lemma_advance_split(line: Seq<char>)
    ensures
        advance(split(line, ' ')) == byte_len(line) + 1,
    decreases line.len(),
{
    let k = first_index_of(line, ' ');
    if k >= line.len() {
        assert(split(line, ' ').drop_first() =~= Seq::<Seq<char>>::empty());
        assert(split(line, ' ')[0] == line);
        assert(advance(split(line, ' ').drop_first()) == 0);
    } else {
        lemma_first_index_bounds(line, ' ');
        let head = line.take(k as int);
        let tail = line.skip(k as int + 1);
        lemma_advance_split(tail);
        assert(split(line, ' ').drop_first() =~= split(tail, ' '));
        assert(split(line, ' ')[0] == head);
        assert(line =~= head + seq![' '] + tail);
        lemma_byte_len_concat(head + seq![' '], tail);
        lemma_byte_len_concat(head, seq![' ']);
        lemma_byte_len_ascii(' ');
    }
}

/// No line of a text has more bytes than the text.
pub proof fn lemma_lines_byte_len(source: Seq<char>, i: int)
    requires
        0 <= i < lines(source).len(),
    ensures
        byte_len(lines(source)[i]) <= byte_len(source),
    decreases source.len(),
{
    let k = first_index_of(source, '\n');
    if source.len() > 0 && k < source.len() {
        lemma_first_index_bounds(source, '\n');
        let head = source.take(k as int);
        let tail = source.skip(k as int + 1);
        assert(source =~= head + seq!['\n'] + tail);
        lemma_byte_len_concat(head + seq!['\n'], tail);
        lemma_byte_len_concat(head, seq!['\n']);
        if i == 0 {
            if head.len() > 0 && head.last() == '\r' {
                assert(head =~= head.drop_last() + seq!['\r']);
                lemma_byte_len_concat(head.drop_last(), seq!['\r']);
            }
        } else {
            assert(lines(source)[i] == lines(tail)[i - 1]);
            lemma_lines_byte_len(tail, i - 1);
        }
    }
}

/// Examines one token, given its lowercase form.
///
/// The lowercase form is sanitized; if the result is a word that `words`
/// does not hold, the token is reported with the given position, and with a
/// suggestion if `show_suggest` is set and there is one.
pub fn check_token(
    raw: &str,
    lowered: String,
    line: usize,
    column: usize,
    words: &Dictionary,
    show_suggest: bool,
) -> (finding: Option<Finding>)
    requires
        words.wf(),
        show_suggest ==> searchable(words.words()),
    ensures
        match finding {
            Some(found) => token_finding(
                raw@,
                lowered@,
                line as nat,
                column as nat,
                words.words(),
                show_suggest,
            ) == Some(found@),
            None => token_finding(
                raw@,
                lowered@,
                line as nat,
                column as nat,
                words.words(),
                show_suggest,
            ).is_none(),
        },
{
    let target = sanitize(lowered);
    if !accepted(target.as_str()) {
        return None;
    }
    if words.get(target.as_str()).is_some() {
        return None;
    }
    let suggestion = if show_suggest {
        let all = words.to_vec();
        proof {
            lemma_searchable_comparable(words.words(), target@, 1);
        }
        suggest(&all, target.as_str())
    } else {
        None
    };
    Some(Finding { raw_token: raw.to_owned(), line, column, suggestion })
}

/// Scans one line, numbered `line`, and appends its findings to `found`.
fn scan_line(
    text: &str,
    line: usize,
    words: &Dictionary,
    show_suggest: bool,
    found: &mut Vec<Finding>,
)
    requires
        words.wf(),
        byte_len(text@) < usize::MAX,
        show_suggest ==> searchable(words.words()),
    ensures
        views(final(found)@) == views(old(found)@) + line_findings(
            split(text@, ' '),
            line as nat,
            0,
            words.words(),
            show_suggest,
        ),
{
    let tokens = split_on(text, ' ');
    let mut column: usize = 0;
    let mut i: usize = 0;
    proof {
        lemma_advance_split(text@);
        assert(tokens.deep_view().skip(0) =~= tokens.deep_view());
        assert(views(found@) + Seq::<FindingView>::empty() =~= views(found@));
    }
    let ghost all = line_findings(split(text@, ' '), line as nat, 0, words.words(), show_suggest);
    while i < tokens.len()
        invariant
            words.wf(),
            show_suggest ==> searchable(words.words()),
            0 <= i <= tokens.len(),
            tokens.deep_view() == split(text@, ' '),
            column + advance(tokens.deep_view().skip(i as int)) <= usize::MAX,
            views(old(found)@) + all == views(found@) + line_findings(
                tokens.deep_view().skip(i as int),
                line as nat,
                column as nat,
                words.words(),
                show_suggest,
            ),
        decreases tokens.len() - i,
    {
        let raw = tokens[i].as_str();
        proof {
            let rest = tokens.deep_view().skip(i as int);
            assert(rest[0] == raw@);
            assert(rest.drop_first() =~= tokens.deep_view().skip(i + 1));
        }
        let lowered = raw.to_lowercase();
        column += len_bytes(raw) + 1;
        let ghost before = views(found@);
        match check_token(raw, lowered, line, column, words, show_suggest) {
            Some(finding) => {
                found.push(finding);
                assert(views(found@) =~= before + seq![finding@]);
                assert((before + seq![finding@]) + line_findings(
                    tokens.deep_view().skip(i + 1),
                    line as nat,
                    column as nat,
                    words.words(),
                    show_suggest,
                ) =~= before + (seq![finding@] + line_findings(
                    tokens.deep_view().skip(i + 1),
                    line as nat,
                    column as nat,
                    words.words(),
                    show_suggest,
                )));
            },
            None => {},
        }
        i += 1;
    }
    assert(views(found@) + Seq::<FindingView>::empty() =~= views(found@));
}

/// Scans `source` and reports, in document order, every token whose
/// normalised form is a word that `words` does not hold.
///
/// With `show_suggest` set, each finding carries the suggestion that
/// [`suggest`] makes for its word, if any.
pub fn scan_words(source: &str, words: &Dictionary, show_suggest: bool) -> (found: Vec<Finding>)
    requires
        words.wf(),
        byte_len(source@) < usize::MAX,
        show_suggest ==> searchable(words.words()),
    ensures
        views(found@) == findings(source@, words.words(), show_suggest),
{
    let mut found: Vec<Finding> = Vec::new();
    let text = split_lines(source);
    let mut i: usize = 0;
    proof {
        assert(text.deep_view().skip(0) =~= text.deep_view());
        assert(views(found@) =~= Seq::<FindingView>::empty());
    }
    while i < text.len()
        invariant
            words.wf(),
            show_suggest ==> searchable(words.words()),
            byte_len(source@) < usize::MAX,
            0 <= i <= text.len(),
            text.deep_view() == lines(source@),
            findings(source@, words.words(), show_suggest) == views(found@) + lines_findings(
                text.deep_view().skip(i as int),
                (i + 1) as nat,
                words.words(),
                show_suggest,
            ),
        decreases text.len() - i,
    {
        proof {
            let rest = text.deep_view().skip(i as int);
            assert(rest[0] == text@[i as int]@);
            assert(rest.drop_first() =~= text.deep_view().skip(i + 1));
            lemma_lines_byte_len(source@, i as int);
        }
        let ghost before = views(found@);
        scan_line(text[i].as_str(), i + 1, words, show_suggest, &mut found);
        proof {
            let here = line_findings(
                split(text@[i as int]@, ' '),
                (i + 1) as nat,
                0,
                words.words(),
                show_suggest,
            );
            let later = lines_findings(
                text.deep_view().skip(i + 1),
                (i + 2) as nat,
                words.words(),
                show_suggest,
            );
            assert((before + here) + later =~= before + (here + later));
        }
        i += 1;
    }
    assert(views(found@) + Seq::<FindingView>::empty() =~= views(found@));
    found
}

/// Scanning is a function of the document, the words and the flag: two
/// scans of the same document with the same words give the same findings.
pub proof fn lemma_scan_repeatable(
    source: Seq<char>,
    words: Seq<Seq<char>>,
    show_suggest: bool,
    first: Seq<FindingView>,
    second: Seq<FindingView>,
)
    requires
        first == findings(source, words, show_suggest),
        second == findings(source, words, show_suggest),
    ensures
        first == second,
{
}

/// No finding is reported for a word that the dictionary holds. In
/// particular, once a word has been added, later scans report no token that
/// normalises to it.
pub proof fn lemma_added_word_not_reported(
    source: Seq<char>,
    words: Seq<Seq<char>>,
    word: Seq<char>,
    show_suggest: bool,
    i: int,
)
    requires
        0 <= i < findings(source, with_word(words, word), show_suggest).len(),
    ensures
        normalized(findings(source, with_word(words, word), show_suggest)[i].raw_token) != word,
{
    let known = with_word(words, word);
    assert(known.contains(word)) by {
        if !words.contains(word) {
            assert(known[words.len() as int] == word);
        }
    }
    lemma_lines_findings_unknown(lines(source), 1, known, show_suggest, i);
}

/// The findings that are not for `word`.
pub open spec fn not_for(word: Seq<char>) -> spec_fn(FindingView) -> bool {
    |finding: FindingView| normalized(finding.raw_token) != word
}

/// Adding a word to the dictionary removes the findings for that word and
/// leaves every other finding as it was.
pub proof fn lemma_added_word_only_removes(
    source: Seq<char>,
    words: Seq<Seq<char>>,
    word: Seq<char>,
)
    ensures
        findings(source, with_word(words, word), false) == findings(source, words, false).filter(
            not_for(word),
        ),
{
    lemma_lines_findings_added(lines(source), 1, words, word);
}

/// The findings of a line after `word` has been added are those from
/// before that are not for `word`.
pub proof fn lemma_line_findings_added(
    tokens: Seq<Seq<char>>,
    line: nat,
    column: nat,
    words: Seq<Seq<char>>,
    word: Seq<char>,
)
    ensures
        line_findings(tokens, line, column, with_word(words, word), false) == line_findings(
            tokens,
            line,
            column,
            words,
            false,
        ).filter(not_for(word)),
    decreases tokens.len(),
{
    let known = with_word(words, word);
    if tokens.len() == 0 {
        reveal(Seq::filter);
    } else {
        let raw = tokens[0];
        let here = column + byte_len(raw) + 1;
        let target = normalized(raw);
        assert(known.contains(target) <==> words.contains(target) || target == word) by {
            if words.contains(target) {
                let i = choose|i: int| 0 <= i < words.len() && words[i] == target;
                assert(known[i] == target);
            }
            if !words.contains(word) {
                assert(known[words.len() as int] == word);
            }
        }
        lemma_line_findings_added(tokens.drop_first(), line, here, words, word);
        let rest = line_findings(tokens.drop_first(), line, here, words, false);
        match token_finding(raw, lowercase(raw), line, here, words, false) {
            Some(finding) => {
                rest.lemma_filter_prepend(finding, not_for(word));
                assert(Seq::<FindingView>::empty() + rest.filter(not_for(word)) =~= rest.filter(
                    not_for(word),
                ));
            },
            None => {},
        }
    }
}

/// The findings of a run of lines after `word` has been added are those
/// from before that are not for `word`.
pub proof fn lemma_lines_findings_added(
    text: Seq<Seq<char>>,
    line: nat,
    words: Seq<Seq<char>>,
    word: Seq<char>,
)
    ensures
        lines_findings(text, line, with_word(words, word), false) == lines_findings(
            text,
            line,
            words,
            false,
        ).filter(not_for(word)),
    decreases text.len(),
{
    if text.len() == 0 {
        reveal(Seq::filter);
    } else {
        lemma_line_findings_added(split(text[0], ' '), line, 0, words, word);
        lemma_lines_findings_added(text.drop_first(), line + 1, words, word);
        Seq::filter_distributes_over_add(
            line_findings(split(text[0], ' '), line, 0, words, false),
            lines_findings(text.drop_first(), line + 1, words, false),
            not_for(word),
        );
    }
}

/// Every finding of a line is for a word that `words` does not hold.
pub proof fn lemma_line_findings_unknown(
    tokens: Seq<Seq<char>>,
    line: nat,
    column: nat,
    words: Seq<Seq<char>>,
    show_suggest: bool,
    i: int,
)
    requires
        0 <= i < line_findings(tokens, line, column, words, show_suggest).len(),
    ensures
        is_word(normalized(line_findings(tokens, line, column, words, show_suggest)[i].raw_token)),
        !words.contains(
            normalized(line_findings(tokens, line, column, words, show_suggest)[i].raw_token),
        ),
        line_findings(tokens, line, column, words, show_suggest)[i].line == line,
    decreases tokens.len(),
{
    let raw = tokens[0];
    let here = column + byte_len(raw) + 1;
    match token_finding(raw, lowercase(raw), line, here, words, show_suggest) {
        Some(finding) => {
            if i > 0 {
                lemma_line_findings_unknown(
                    tokens.drop_first(),
                    line,
                    here,
                    words,
                    show_suggest,
                    i - 1,
                );
            }
        },
        None => {
            lemma_line_findings_unknown(tokens.drop_first(), line, here, words, show_suggest, i);
        },
    }
}

/// Every finding of a run of lines is for a word that `words` does not hold.
pub proof fn lemma_lines_findings_unknown(
    text: Seq<Seq<char>>,
    line: nat,
    words: Seq<Seq<char>>,
    show_suggest: bool,
    i: int,
)
    requires
        0 <= i < lines_findings(text, line, words, show_suggest).len(),
    ensures
        is_word(normalized(lines_findings(text, line, words, show_suggest)[i].raw_token)),
        !words.contains(normalized(lines_findings(text, line, words, show_suggest)[i].raw_token)),
    decreases text.len(),
{
    let here = line_findings(split(text[0], ' '), line, 0, words, show_suggest);
    if i < here.len() {
        lemma_line_findings_unknown(split(text[0], ' '), line, 0, words, show_suggest, i);
    } else {
        lemma_lines_findings_unknown(
            text.drop_first(),
            line + 1,
            words,
            show_suggest,
            i - here.len(),
        );
    }
}

} // verus!
