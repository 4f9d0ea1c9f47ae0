//! Conversions between strings and character sequences, and the few `String`
//! operations the rest of the crate relies on.
//!
//! Every contract in this crate speaks about a string through its view, the
//! sequence of its characters. Lengths come in two flavours: the number of
//! characters (`s@.len()`) and the number of bytes of the UTF-8 encoding
//! ([`byte_len`]), which is what `str::len` reports.

use vstd::prelude::*;
use vstd::utf8::{encode_scalar, encode_utf8};

verus! {

/// The lowercase form of a character sequence, as computed by
/// `str::to_lowercase`.
///
/// Unicode case mapping is table driven and context sensitive, so the crate
/// does not model it; it only relies on the mapping being a function of the
/// input.
pub uninterp spec fn lowercase(s: Seq<char>) -> Seq<char>;

/// Trusted: `str::to_lowercase` returns the lowercase equivalent of the
/// slice as a new `String`. The result is named by [`lowercase`]; nothing
/// else is claimed about it.
pub assume_specification[ str::to_lowercase ](s: &str) -> (lowered: String)
    ensures
        lowered@ == lowercase(s@),
;

/// Trusted: `String::push` appends the given character to the end of the
/// string and leaves the characters before it untouched.
pub assume_specification[ String::push ](s: &mut String, ch: char)
    ensures
        final(s)@ == old(s)@.push(ch),
;

/// Trusted: `String::pop` removes the last character of the string and
/// returns it, or returns `None` and changes nothing when the string is
/// empty.
pub assume_specification[ String::pop ](s: &mut String) -> (last: Option<char>)
    ensures
        old(s)@.len() == 0 ==> last.is_none() && final(s)@ == old(s)@,
        old(s)@.len() > 0 ==> last == Some(old(s)@.last()) && final(s)@ == old(s)@.drop_last(),
;

/// Number of bytes in the UTF-8 encoding of `s`.
pub open spec fn byte_len(s: Seq<char>) -> nat {
    encode_utf8(s).len()
}

/// Every character takes between one and four bytes.
pub proof fn lemma_byte_len_char(c: char)
    ensures
        1 <= encode_scalar(c as u32).len() <= 4,
        c as u32 <= 0x7f ==> encode_scalar(c as u32).len() == 1,
{
}

/// The byte length of a concatenation is the sum of the byte lengths.
pub proof fn lemma_byte_len_concat(s: Seq<char>, t: Seq<char>)
    ensures
        byte_len(s + t) == byte_len(s) + byte_len(t),
    decreases s.len(),
{
    if s.len() == 0 {
        assert(s + t =~= t);
    } else {
        assert((s + t).drop_first() =~= s.drop_first() + t);
        lemma_byte_len_concat(s.drop_first(), t);
    }
}

/// A string has at least as many bytes as characters.
pub proof fn lemma_byte_len_lower_bound(s: Seq<char>)
    ensures
        s.len() <= byte_len(s),
    decreases s.len(),
{
    if s.len() > 0 {
        lemma_byte_len_char(s[0]);
        lemma_byte_len_lower_bound(s.drop_first());
    }
}

/// A sequence of one ASCII character takes one byte.
pub proof fn lemma_byte_len_ascii(c: char)
    requires
        c as u32 <= 0x7f,
    ensures
        byte_len(seq![c]) == 1,
{
    lemma_byte_len_char(c);
    assert(seq![c].drop_first() =~= Seq::<char>::empty());
    reveal_with_fuel(encode_utf8, 2);
}

/// Byte length of a string slice, as `str::len` counts it.
pub fn len_bytes(s: &str) -> (n: usize)
    ensures
        n == byte_len(s@),
{
    s.as_bytes().len()
}

/// Collects the characters of `s` into a vector.
pub fn to_chars(s: &str) -> (chars: Vec<char>)
    ensures
        chars@ == s@,
{
    let mut chars: Vec<char> = Vec::new();
    for c in it: s.chars()
        invariant
            it.seq() == s@,
            chars@ == s@.take(it.index()),
    {
        chars.push(c);
    }
    chars
}

} // verus!
