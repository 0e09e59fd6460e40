//! Character predicates: the tests that greedy rules apply to each character.

use vstd::prelude::*;

verus! {

/// A total, deterministic test on characters.
///
/// `holds` is the mathematical predicate; `test` is its executable form.
pub trait CharPredicate {
    /// Whether the predicate accepts `c`.
    spec fn holds(&self, c: char) -> bool;

    /// Decides `holds(c)`.
    fn test(&self, c: char) -> (accepted: bool)
        ensures
            accepted == self.holds(c),
    ;
}

/// The predicate of `p` as a mathematical function.
pub open spec fn predicate_of<P: CharPredicate + ?Sized>(p: &P) -> spec_fn(char) -> bool {
    |c: char| p.holds(c)
}

/// What `char::is_alphabetic` answers for `c`.
pub uninterp spec fn is_alphabetic(c: char) -> bool;

/// What `char::is_alphanumeric` answers for `c`.
pub uninterp spec fn is_alphanumeric(c: char) -> bool;

/// Whether `c` has the Unicode property `White_Space`.
pub open spec fn is_whitespace(c: char) -> bool {
    let code = c as u32;
    ||| 0x09 <= code <= 0x0d
    ||| code == 0x20
    ||| code == 0x85
    ||| code == 0xa0
    ||| code == 0x1680
    ||| 0x2000 <= code <= 0x200a
    ||| code == 0x2028
    ||| code == 0x2029
    ||| code == 0x202f
    ||| code == 0x205f
    ||| code == 0x3000
}

/// Whether `c` is a control code: a character of the Unicode general category
/// `Cc`.
pub open spec fn is_control(c: char) -> bool {
    let code = c as u32;
    code <= 0x1f || 0x7f <= code <= 0x9f
}

/// Trusted: calls `char::is_alphabetic`, a pure function of the character (the
/// Unicode `Alphabetic` property); the contract only names its answer.
#[verifier::external_body]
pub(crate) fn char_is_alphabetic(c: char) -> (b: bool)
    ensures
        b == is_alphabetic(c),
{
    c.is_alphabetic()
}

/// Trusted: calls `char::is_alphanumeric`, a pure function of the character;
/// the contract only names its answer.
#[verifier::external_body]
pub(crate) fn char_is_alphanumeric(c: char) -> (b: bool)
    ensures
        b == is_alphanumeric(c),
{
    c.is_alphanumeric()
}

/// Trusted: calls `char::is_whitespace`, which answers whether the character
/// has the Unicode property `White_Space`; the contract lists the characters
/// that have it.
#[verifier::external_body]
pub(crate) fn char_is_whitespace(c: char) -> (b: bool)
    ensures
        b == is_whitespace(c),
{
    c.is_whitespace()
}

/// Trusted: calls `char::is_control`, which answers whether the character has
/// the Unicode general category `Cc`; the contract gives the two ranges of
/// that category.
#[verifier::external_body]
pub(crate) fn char_is_control(c: char) -> (b: bool)
    ensures
        b == is_control(c),
{
    c.is_control()
}

/// Accepts the characters that `char::is_alphabetic` accepts.
pub struct Alphabetic;

impl CharPredicate for Alphabetic {
    open spec fn holds(&self, c: char) -> bool {
        is_alphabetic(c)
    }

    fn test(&self, c: char) -> (accepted: bool) {
        char_is_alphabetic(c)
    }
}

/// Accepts the characters that `char::is_alphanumeric` accepts.
pub struct Alphanumeric;

impl CharPredicate for Alphanumeric {
    open spec fn holds(&self, c: char) -> bool {
        is_alphanumeric(c)
    }

    fn test(&self, c: char) -> (accepted: bool) {
        char_is_alphanumeric(c)
    }
}

/// Accepts exactly the listed characters.
pub struct OneOf {
    pub chars: Vec<char>,
}

impl CharPredicate for OneOf {
    open spec fn holds(&self, c: char) -> bool {
        self.chars@.contains(c)
    }

    fn test(&self, c: char) -> (accepted: bool) {
        let mut i: usize = 0;
        while i < self.chars.len()
            invariant
                i <= self.chars.len(),
                forall|j: int| 0 <= j < i ==> self.chars@[j] != c,
            decreases self.chars.len() - i,
        {
            if self.chars[i] == c {
                return true;
            }
            i += 1;
        }
        false
    }
}

/// Accepts a character when at least one of the two predicates does.
pub struct Either<A, B> {
    pub first: A,
    pub second: B,
}

impl<A: CharPredicate, B: CharPredicate> CharPredicate for Either<A, B> {
    open spec fn holds(&self, c: char) -> bool {
        self.first.holds(c) || self.second.holds(c)
    }

    fn test(&self, c: char) -> (accepted: bool) {
        self.first.test(c) || self.second.test(c)
    }
}

} // verus!
