//! A typo detector for plain English text.
//!
//! The crate splits a document into words, looks each of them up in a
//! [`dictionary::Dictionary`], and can suggest corrections for the words it
//! does not find by ranking dictionary entries with the Damerau–Levenshtein
//! distance.

pub mod detector;
pub mod dictionary;
pub mod distance;
pub mod strings;
pub mod suggest;
pub mod tokenizer;
