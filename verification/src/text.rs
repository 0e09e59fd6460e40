//! Conversions between strings and character vectors.

use vstd::prelude::*;

verus! {

/// The characters of `text`, in order.
pub fn chars_of(text: &str) -> (chars: Vec<char>)
    ensures
        chars@ == text@,
{
    let mut chars: Vec<char> = Vec::new();
    for c in it: text.chars()
        invariant
            chars@ == text@.take(it.index()),
            it.seq() == text@,
    {
        chars.push(c);
    }
    chars
}

/// The string made of `chars`, in order.
///
/// Trusted: the body is one call of `String::from_iter` on a borrowed vector of
/// characters. The standard library documents that this collects the characters of
/// the iterator into a `String` in iteration order, which is what the contract says.
#[verifier::external_body]
pub(crate) fn string_from_chars(chars: &Vec<char>) -> (text: String)
    ensures
        text@ == chars@,
{
    String::from_iter(chars)
}

} // verus!
