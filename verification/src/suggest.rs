//! Suggestions for a word that is not in the dictionary.
//!
//! Candidates are ranked by their Damerau–Levenshtein distance to the word.
//! A search asks for one exact distance and reports every candidate at that
//! distance; [`suggest`] tries distance 1 and, only if that finds nothing,
//! distance 2. Before a distance is computed, candidates whose length
//! differs too much from the word's are put aside.

use crate::distance::{damerau_levenshtein, distance, table_fits};
use crate::strings::{byte_len, len_bytes, lemma_byte_len_lower_bound};
use vstd::prelude::*;
use vstd::string::StringExecFns;

verus! {

/// How far the byte length of a candidate may be from that of the target
/// when candidates at distance `score` are wanted: not at all for distance
/// 2, by one byte otherwise.
pub open spec fn window(score: usize) -> nat {
    if score == 2 {
        0
    } else {
        1
    }
}

/// Whether `word` is long enough and short enough to be compared with
/// `target` in a search for distance `score`.
pub open spec fn in_window(word: Seq<char>, target: Seq<char>, score: usize) -> bool {
    byte_len(target) - window(score) <= byte_len(word) <= byte_len(target) + window(score)
}

/// Whether `word` is reported by a search for distance `score`.
pub open spec fn is_match(word: Seq<char>, target: Seq<char>, score: usize) -> bool {
    in_window(word, target, score) && distance(word, target) == score
}

/// Every match among `words`, in order, each followed by a comma.
pub open spec fn joined(words: Seq<Seq<char>>, target: Seq<char>, score: usize) -> Seq<char>
    decreases words.len(),
{
    if words.len() == 0 {
        Seq::empty()
    } else if is_match(words.last(), target, score) {
        joined(words.drop_last(), target, score) + words.last() + seq![',']
    } else {
        joined(words.drop_last(), target, score)
    }
}

/// `s` without the commas at its end.
pub open spec fn without_trailing_commas(s: Seq<char>) -> Seq<char>
    decreases s.len(),
{
    if s.len() > 0 && s.last() == ',' {
        without_trailing_commas(s.drop_last())
    } else {
        s
    }
}

/// Result of a search for distance `score`: the matches joined by commas,
/// or nothing when there is no match.
pub open spec fn similar(words: Seq<Seq<char>>, target: Seq<char>, score: usize) -> Option<
    Seq<char>,
> {
    let all = joined(words, target, score);
    if all.len() > 0 {
        Some(without_trailing_commas(all))
    } else {
        None
    }
}

/// The suggestion for `target`: what the search for distance 1 finds, and
/// what the search for distance 2 finds if the first finds nothing.
pub open spec fn suggestion(words: Seq<Seq<char>>, target: Seq<char>) -> Option<Seq<char>> {
    match similar(words, target, 1) {
        Some(found) => Some(found),
        None => similar(words, target, 2),
    }
}

/// Whether the distance to `target` can be computed for every candidate
/// that a search for distance `score` compares.
pub open spec fn comparable(words: Seq<Seq<char>>, target: Seq<char>, score: usize) -> bool {
    forall|i: int|
        0 <= i < words.len() && in_window(#[trigger] words[i], target, score) ==> table_fits(
            words[i].len(),
            target.len(),
        )
}

/// Whether no word is so long that a table for it and a word one byte
/// longer could not be addressed.
pub open spec fn searchable(words: Seq<Seq<char>>) -> bool {
    forall|i: int|
        0 <= i < words.len() ==> (byte_len(#[trigger] words[i]) + 2) * (byte_len(words[i]) + 3)
            <= usize::MAX
}

/// A search is reported exactly when some word matches.
pub proof fn lemma_similar_some(words: Seq<Seq<char>>, target: Seq<char>, score: usize)
    ensures
        similar(words, target, score).is_some() <==> exists|i: int|
            0 <= i < words.len() && is_match(#[trigger] words[i], target, score),
    decreases words.len(),
{
    if words.len() > 0 {
        let front = words.drop_last();
        lemma_similar_some(front, target, score);
        if is_match(words.last(), target, score) {
            assert(is_match(words[words.len() - 1], target, score));
        } else if similar(front, target, score).is_some() {
            let i = choose|i: int| 0 <= i < front.len() && is_match(#[trigger] front[i], target, score);
            assert(is_match(words[i], target, score));
        } else {
            assert forall|i: int| 0 <= i < words.len() implies !is_match(
                #[trigger] words[i],
                target,
                score,
            ) by {
                if i < front.len() {
                    assert(front[i] == words[i]);
                }
            }
        }
    }
}

/// With words of sane length, every search can compare its candidates.
pub proof fn lemma_searchable_comparable(words: Seq<Seq<char>>, target: Seq<char>, score: usize)
    requires
        searchable(words),
    ensures
        comparable(words, target, score),
{
    assert forall|i: int|
        0 <= i < words.len() && in_window(#[trigger] words[i], target, score) implies table_fits(
        words[i].len(),
        target.len(),
    ) by {
        let n = byte_len(words[i]);
        lemma_byte_len_lower_bound(words[i]);
        lemma_byte_len_lower_bound(target);
        assert((words[i].len() + 2) * (target.len() + 2) <= (n + 2) * (n + 3)) by (nonlinear_arith)
            requires
                words[i].len() <= n,
                target.len() <= n + 1,
        ;
    }
}

/// Tells whether every one of `words` is short enough for searching, so
/// that [`search_similar`] and [`suggest`] can be called with any target.
pub fn all_searchable(words: &Vec<&String>) -> (ok: bool)
    ensures
        ok == searchable(words.deep_view()),
{
    let mut i: usize = 0;
    while i < words.len()
        invariant
            0 <= i <= words.len(),
            forall|k: int|
                0 <= k < i ==> (byte_len(#[trigger] words.deep_view()[k]) + 2) * (byte_len(
                    words.deep_view()[k],
                ) + 3) <= usize::MAX,
        decreases words.len() - i,
    {
        let n = len_bytes(words[i].as_str());
        assert(words.deep_view()[i as int] == words@[i as int]@);
        let fits = match (n.checked_add(2), n.checked_add(3)) {
            (Some(low), Some(high)) => low.checked_mul(high).is_some(),
            _ => false,
        };
        if !fits {
            assert((n + 2) * (n + 3) > usize::MAX) by (nonlinear_arith)
                requires
                    n + 3 > usize::MAX || (n + 2) * (n + 3) > usize::MAX,
                    n >= 0,
            ;
            return false;
        }
        i += 1;
    }
    true
}

/// Removes the commas at the end of `text`.
fn trim_commas(text: String) -> (trimmed: String)
    ensures
        trimmed@ == without_trailing_commas(text@),
{
    let mut trimmed = text;
    loop
        invariant
            without_trailing_commas(trimmed@) == without_trailing_commas(text@),
        ensures
            trimmed@ == without_trailing_commas(text@),
        decreases trimmed@.len(),
    {
        let ghost before = trimmed@;
        match trimmed.pop() {
            Some(last) => {
                if last != ',' {
                    trimmed.push(last);
                    assert(trimmed@ =~= before);
                    break ;
                }
            },
            None => {
                break ;
            },
        }
    }
    trimmed
}

/// Searches `words` for the entries at distance `score` from `target`.
///
/// Returns all of them, in the order of `words`, joined by commas, or `None`
/// when there is none. Only words whose byte length is within
/// [`window`]`(score)` of the target's are compared.
pub fn search_similar(words: &Vec<&String>, target: &str, score: usize) -> (found: Option<String>)
    requires
        comparable(words.deep_view(), target@, score),
    ensures
        match found {
            Some(text) => similar(words.deep_view(), target@, score) == Some(text@),
            None => similar(words.deep_view(), target@, score).is_none(),
        },
{
    let mut result = String::new();
    let reach: usize = if score == 2 {
        0
    } else {
        1
    };
    let target_len = len_bytes(target);
    let mut i: usize = 0;
    assert(words.deep_view().take(0) =~= Seq::<Seq<char>>::empty());
    while i < words.len()
        invariant
            0 <= i <= words.len(),
            reach == window(score),
            target_len == byte_len(target@),
            comparable(words.deep_view(), target@, score),
            result@ == joined(words.deep_view().take(i as int), target@, score),
        decreases words.len() - i,
    {
        let item: &String = words[i];
        let item_len = len_bytes(item.as_str());
        let gap = if item_len >= target_len {
            item_len - target_len
        } else {
            target_len - item_len
        };
        proof {
            let front = words.deep_view().take(i + 1);
            assert(front.last() == item@);
            assert(front.drop_last() =~= words.deep_view().take(i as int));
            assert(words.deep_view()[i as int] == item@);
        }
        if gap <= reach {
            if damerau_levenshtein(item.as_str(), target) == score {
                result.append(item.as_str());
                result.push(',');
            }
        }
        i += 1;
    }
    assert(words.deep_view().take(i as int) =~= words.deep_view());
    if result.as_str().is_empty() {
        None
    } else {
        Some(trim_commas(result))
    }
}

/// Suggests corrections for `target`: the entries of `words` at distance 1,
/// or, when there is none, those at distance 2.
pub fn suggest(words: &Vec<&String>, target: &str) -> (found: Option<String>)
    requires
        comparable(words.deep_view(), target@, 1),
    ensures
        match found {
            Some(text) => suggestion(words.deep_view(), target@) == Some(text@),
            None => suggestion(words.deep_view(), target@).is_none(),
        },
{
    match search_similar(words, target, 1) {
        Some(close) => Some(close),
        None => search_similar(words, target, 2),
    }
}

} // verus!
