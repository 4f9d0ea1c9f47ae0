//! The set of known words.
//!
//! A [`Dictionary`] keeps its words in the order in which they were first
//! added and finds them through an index from hash values to positions.
//! Words are compared exactly: nothing is trimmed or lowercased here.

use crate::tokenizer::{split, split_on};
use std::collections::hash_map::DefaultHasher;
use std::collections::HashMap;
use std::hash::Hasher;
use vstd::prelude::*;
use vstd::std_specs::hash::DefaultHasherAdditionalSpecFns;
use vstd::utf8::encode_utf8;

verus! {

broadcast use vstd::std_specs::hash::group_hash_axioms;

/// `words` with `word` appended, unless it is one of them already.
pub open spec fn with_word(words: Seq<Seq<char>>, word: Seq<char>) -> Seq<Seq<char>> {
    if words.contains(word) {
        words
    } else {
        words.push(word)
    }
}

/// `words` after adding every item of `list`, first to last.
pub open spec fn with_words(words: Seq<Seq<char>>, list: Seq<Seq<char>>) -> Seq<Seq<char>>
    decreases list.len(),
{
    if list.len() == 0 {
        words
    } else {
        with_words(with_word(words, list[0]), list.drop_first())
    }
}

/// Adding a word adds it to the set of words and changes nothing else.
pub proof fn lemma_with_word_set(words: Seq<Seq<char>>, word: Seq<char>)
    ensures
        with_word(words, word).to_set() == words.to_set().insert(word),
{
    let after = with_word(words, word);
    assert forall|w: Seq<char>| after.to_set().contains(w) <==> words.to_set().insert(
        word,
    ).contains(w) by {
        if words.contains(word) {
        } else {
            if after.contains(w) {
                let i = choose|i: int| 0 <= i < after.len() && after[i] == w;
                if i < words.len() {
                    assert(words[i] == w);
                }
            }
            if words.contains(w) {
                let i = choose|i: int| 0 <= i < words.len() && words[i] == w;
                assert(after[i] == w);
            }
            assert(after[words.len() as int] == word);
        }
    }
    assert(after.to_set() =~= words.to_set().insert(word));
}

/// The value under which a word is filed in the index.
pub closed spec fn word_hash(word: Seq<char>) -> u64 {
    DefaultHasher::spec_finish(seq![encode_utf8(word)])
}

fn hash_of(word: &str) -> (h: u64)
    ensures
        h == word_hash(word@),
{
    let mut hasher = DefaultHasher::new();
    hasher.write(word.as_bytes());
    hasher.finish()
}

/// A set of words with exact-match lookup.
pub struct Dictionary {
    entries: Vec<String>,
    index: HashMap<u64, Vec<usize>>,
}

impl View for Dictionary {
    type V = Set<Seq<char>>;

    /// The words of the dictionary, as a set.
    open spec fn view(&self) -> Set<Seq<char>> {
        self.words().to_set()
    }
}

impl Dictionary {
    /// The words of the dictionary in the order in which [`Dictionary::to_vec`]
    /// lists them.
    pub closed spec fn words(&self) -> Seq<Seq<char>> {
        self.entries.deep_view()
    }

    /// Representation invariant: no word is held twice, and the index
    /// files every position under the hash of its word and nowhere else.
    pub closed spec fn wf(&self) -> bool {
        &&& self.entries@.len() <= usize::MAX
        &&& forall|i: int, j: int|
            0 <= i < j < self.entries@.len() ==> self.entries@[i]@ != self.entries@[j]@
        &&& forall|i: int|
            0 <= i < self.entries@.len() ==> {
                &&& self.index@.contains_key(#[trigger] word_hash(self.entries@[i]@))
                &&& self.index@[word_hash(self.entries@[i]@)]@.contains(i as usize)
            }
        &&& forall|h: u64, p: int|
            self.index@.contains_key(h) && 0 <= p < self.index@[h]@.len() ==> {
                &&& (#[trigger] self.index@[h]@[p]) < self.entries@.len()
                &&& word_hash(self.entries@[self.index@[h]@[p] as int]@) == h
            }
    }

    /// No word occurs twice in [`Dictionary::words`].
    pub proof fn lemma_words_distinct(&self)
        requires
            self.wf(),
        ensures
            self.words().no_duplicates(),
    {
    }

    /// Creates a dictionary without words.
    pub fn new() -> (dictionary: Self)
        ensures
            dictionary.wf(),
            dictionary.words() == Seq::<Seq<char>>::empty(),
    {
        let dictionary = Dictionary { entries: Vec::new(), index: HashMap::new() };
        assert(dictionary.entries.deep_view() =~= Seq::<Seq<char>>::empty());
        dictionary
    }

    /// Looks `key` up and returns the stored word equal to it, if any.
    pub fn get(&self, key: &str) -> (found: Option<&String>)
        requires
            self.wf(),
        ensures
            match found {
                Some(word) => word@ == key@ && self@.contains(key@),
                None => !self@.contains(key@),
            },
    {
        let probe = key.to_owned();
        let h = hash_of(key);
        match self.index.get(&h) {
            Some(bucket) => {
                let mut p: usize = 0;
                while p < bucket.len()
                    invariant
                        self.wf(),
                        probe@ == key@,
                        h == word_hash(key@),
                        self.index@.contains_key(h),
                        *bucket == self.index@[h],
                        0 <= p <= bucket.len(),
                        forall|q: int| 0 <= q < p ==> self.entries@[bucket@[q] as int]@ != key@,
                    decreases bucket.len() - p,
                {
                    let i = bucket[p];
                    assert(self.index@[h]@[p as int] < self.entries@.len());
                    if self.entries[i] == probe {
                        assert(self.words()[i as int] == key@);
                        return Some(&self.entries[i]);
                    }
                    p += 1;
                }
                proof {
                    if self.words().contains(key@) {
                        let i = choose|i: int| 0 <= i < self.words().len() && self.words()[i] == key@;
                        assert(word_hash(self.entries@[i]@) == h);
                        assert(self.index@[h]@.contains(i as usize));
                        let q = choose|q: int|
                            0 <= q < bucket@.len() && bucket@[q] == i as usize;
                        assert(self.entries@[bucket@[q] as int]@ == key@);
                    }
                }
                None
            },
            None => {
                proof {
                    if self.words().contains(key@) {
                        let i = choose|i: int| 0 <= i < self.words().len() && self.words()[i] == key@;
                        assert(word_hash(self.entries@[i]@) == h);
                    }
                }
                None
            },
        }
    }

    /// Adds `word` as it is. Adding a word a second time changes nothing.
    pub fn add(&mut self, word: String)
        requires
            old(self).wf(),
        ensures
            final(self).wf(),
            final(self).words() == with_word(old(self).words(), word@),
            final(self)@ == old(self)@.insert(word@),
    {
        proof {
            lemma_with_word_set(self.words(), word@);
        }
        if self.get(word.as_str()).is_some() {
            return;
        }
        let h = hash_of(word.as_str());
        let position = self.entries.len();
        let ghost before = *self;
        let mut bucket = match self.index.remove(&h) {
            Some(bucket) => bucket,
            None => Vec::new(),
        };
        let ghost old_bucket = bucket@;
        bucket.push(position);
        self.entries.push(word);
        self.index.insert(h, bucket);
        proof {
            assert(self.entries.len() == self.entries@.len());
            assert(self.entries.deep_view() =~= before.entries.deep_view().push(word@));
            assert(self.index@ =~= before.index@.insert(h, bucket));
            assert forall|i: int| 0 <= i < before.entries@.len() implies before.entries@[i]@
                != word@ by {
                assert(before.words()[i] == before.entries@[i]@);
            }
            assert forall|i: int| 0 <= i < self.entries@.len() implies {
                &&& self.index@.contains_key(#[trigger] word_hash(self.entries@[i]@))
                &&& self.index@[word_hash(self.entries@[i]@)]@.contains(i as usize)
            } by {
                if i < before.entries@.len() {
                    let hi = word_hash(before.entries@[i]@);
                    assert(before.index@[hi]@.contains(i as usize));
                    if hi == h {
                        let q = choose|q: int| 0 <= q < old_bucket.len() && old_bucket[q] == i as usize;
                        assert(bucket@[q] == i as usize);
                    }
                } else {
                    assert(bucket@[old_bucket.len() as int] == i as usize);
                }
            }
            assert forall|g: u64, p: int|
                self.index@.contains_key(g) && 0 <= p < self.index@[g]@.len() implies {
                &&& (#[trigger] self.index@[g]@[p]) < self.entries@.len()
                &&& word_hash(self.entries@[self.index@[g]@[p] as int]@) == g
            } by {
                if g == h {
                    if p < old_bucket.len() {
                        assert(before.index@.contains_key(h));
                        assert(before.index@[h]@[p] == bucket@[p]);
                    }
                } else {
                    assert(before.index@[g]@[p] == self.index@[g]@[p]);
                }
            }
        }
    }

    /// Adds every line of `list`, one word per line. Lines are separated by
    /// line feeds and taken as they are, empty ones included.
    pub fn add_list(&mut self, list: &str)
        requires
            old(self).wf(),
        ensures
            final(self).wf(),
            final(self).words() == with_words(old(self).words(), split(list@, '\n')),
    {
        let parts = split_on(list, '\n');
        let mut i: usize = 0;
        assert(parts.deep_view().skip(0) =~= parts.deep_view());
        while i < parts.len()
            invariant
                self.wf(),
                0 <= i <= parts.len(),
                parts.deep_view() == split(list@, '\n'),
                with_words(old(self).words(), split(list@, '\n')) == with_words(
                    self.words(),
                    parts.deep_view().skip(i as int),
                ),
            decreases parts.len() - i,
        {
            proof {
                let rest = parts.deep_view().skip(i as int);
                assert(rest[0] == parts@[i as int]@);
                assert(rest.drop_first() =~= parts.deep_view().skip(i + 1));
            }
            self.add(parts[i].clone());
            i += 1;
        }
    }

    /// Lists all words, each once.
    pub fn to_vec(&self) -> (all: Vec<&String>)
        requires
            self.wf(),
        ensures
            all.deep_view() == self.words(),
    {
        let mut all: Vec<&String> = Vec::new();
        let mut i: usize = 0;
        while i < self.entries.len()
            invariant
                0 <= i <= self.entries.len(),
                all.deep_view() == self.entries.deep_view().take(i as int),
            decreases self.entries.len() - i,
        {
            let ghost before = all.deep_view();
            all.push(&self.entries[i]);
            assert(all.deep_view() =~= before.push(self.entries@[i as int]@));
            assert(self.entries.deep_view().take(i + 1) =~= self.entries.deep_view().take(
                i as int,
            ).push(self.entries@[i as int]@));
            i += 1;
        }
        assert(self.entries.deep_view().take(i as int) =~= self.entries.deep_view());
        all
    }
}

} // verus!
