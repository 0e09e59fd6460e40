//! Tokens and the rules that produce them.

use vstd::prelude::*;
use crate::predicate::{predicate_of, CharPredicate};

verus! {

/// The mathematical content of a token: its tag, its text, the half-open range
/// `[start, end)` of character offsets it occupies, and its line number.
pub struct TokenView<T> {
    pub token_type: T,
    pub content: Seq<char>,
    pub start: int,
    pub end: int,
    pub line: int,
}

/// A classified, positioned lexeme.
///
/// `T` is the tag type chosen by the user of the library.
#[derive(Debug, PartialEq, Eq, Hash)]
pub struct Token<T> {
    token_type: T,
    content: String,
    /// (start, end): half-open range of character offsets
    range: (usize, usize),
    line: usize,
}

impl<T> View for Token<T> {
    type V = TokenView<T>;

    closed spec fn view(&self) -> TokenView<T> {
        TokenView {
            token_type: self.token_type,
            content: self.content@,
            start: self.range.0 as int,
            end: self.range.1 as int,
            line: self.line as int,
        }
    }
}

impl<T> Token<T> {
    pub fn new(token_type: T, content: &str, range: (usize, usize), line: usize) -> (token: Self)
        ensures
            token@ == (TokenView {
                token_type,
                content: content@,
                start: range.0 as int,
                end: range.1 as int,
                line: line as int,
            }),
    {
        Self { token_type, content: content.to_owned(), range, line }
    }

    pub fn content(&self) -> (text: &str)
        ensures
            text@ == self@.content,
    {
        self.content.as_str()
    }

    pub fn token_type(&self) -> (token_type: &T)
        ensures
            *token_type == self@.token_type,
    {
        &self.token_type
    }

    /// The half-open range `(start, end)` of character offsets.
    pub fn span(&self) -> (range: (usize, usize))
        ensures
            range.0 == self@.start,
            range.1 == self@.end,
    {
        self.range
    }

    pub fn line(&self) -> (line: usize)
        ensures
            line == self@.line,
    {
        self.line
    }

    /// Replaces the tag and nothing else.
    pub fn change_type(&mut self, new_tt: T)
        ensures
            final(self)@ == (TokenView { token_type: new_tt, ..old(self)@ }),
    {
        self.token_type = new_tt;
    }
}

/// The views of `tokens`, in order.
pub open spec fn token_views<T>(tokens: Seq<Token<T>>) -> Seq<TokenView<T>> {
    Seq::new(tokens.len(), |i: int| tokens[i]@)
}

/// Whether cloning a `T` always yields an equal value.
pub open spec fn faithful_clone<T: Clone>() -> bool {
    forall|a: T, b: T| #[trigger] call_ensures(T::clone, (&a,), b) ==> a == b
}

/// `got` is `want`, with a tag that may have gone through `T::clone`: text, range
/// and line are equal, and so are the tags whenever cloning a `T` is faithful.
pub open spec fn same_token<T: Clone>(got: TokenView<T>, want: TokenView<T>) -> bool {
    &&& got.content == want.content
    &&& got.start == want.start
    &&& got.end == want.end
    &&& got.line == want.line
    &&& faithful_clone::<T>() ==> got.token_type == want.token_type
}

/// `same_token`, element by element.
pub open spec fn same_tokens<T: Clone>(got: Seq<TokenView<T>>, want: Seq<TokenView<T>>) -> bool {
    &&& got.len() == want.len()
    &&& forall|i: int| 0 <= i < got.len() ==> same_token(#[trigger] got[i], want[i])
}

/// `same_tokens` is transitive.
pub proof fn lemma_same_tokens_transitive<T: Clone>(
    a: Seq<TokenView<T>>,
    b: Seq<TokenView<T>>,
    c: Seq<TokenView<T>>,
)
    requires
        same_tokens(a, b),
        same_tokens(b, c),
    ensures
        same_tokens(a, c),
{
    assert forall|i: int| 0 <= i < a.len() implies same_token(#[trigger] a[i], c[i]) by {
        assert(same_token(a[i], b[i]));
        assert(same_token(b[i], c[i]));
    }
}

/// `same_tokens` is kept when one tail is appended to both sides.
pub proof fn lemma_same_tokens_append<T: Clone>(
    a: Seq<TokenView<T>>,
    b: Seq<TokenView<T>>,
    tail: Seq<TokenView<T>>,
)
    requires
        same_tokens(a, b),
    ensures
        same_tokens(a + tail, b + tail),
{
    assert forall|i: int| 0 <= i < (a + tail).len() implies same_token(#[trigger] (a + tail)[i], (b + tail)[i]) by {
        if i < a.len() {
            assert(same_token(a[i], b[i]));
        }
    }
}

/// One step of a scan keeps the tokens on course: if the tokens so far and
/// those still to come made up `goal`, and the step added `emitted` of those
/// to come, the new tokens and the `rest` still make up `goal`.
pub proof fn lemma_scan_progress<T: Clone>(
    now: Seq<TokenView<T>>,
    before: Seq<TokenView<T>>,
    emitted: Seq<TokenView<T>>,
    rest: Seq<TokenView<T>>,
    goal: Seq<TokenView<T>>,
)
    requires
        same_tokens(now, before + emitted),
        same_tokens(before + (emitted + rest), goal),
    ensures
        same_tokens(now + rest, goal),
{
    lemma_same_tokens_append(now, before + emitted, rest);
    assert((before + emitted) + rest =~= before + (emitted + rest));
    lemma_same_tokens_transitive(now + rest, before + (emitted + rest), goal);
}

impl<T: Clone> Clone for Token<T> {
    fn clone(&self) -> (copy: Self)
        ensures
            same_token(copy@, self@),
    {
        Token {
            token_type: self.token_type.clone(),
            content: self.content.clone(),
            range: self.range,
            line: self.line,
        }
    }
}

/// The mathematical content of a rule's recognition strategy.
pub enum Matcher {
    /// `count` consecutive occurrences of one character.
    LiteralRepeat(char, nat),
    /// The longest run of characters that the predicate accepts.
    Predicate(spec_fn(char) -> bool),
    /// One fixed text, character by character.
    ExactString(Seq<char>),
}

/// How a rule recognizes its lexeme.
pub enum ProcessType {
    /// Collects characters for as long as the predicate accepts them.
    KeepCollecting(Box<dyn CharPredicate>),
    /// Matches the given text exactly.
    SpecificString(String),
    /// Matches the given character repeated the given number of times.
    CharacterSpecific(char, usize),
}

impl View for ProcessType {
    type V = Matcher;

    open spec fn view(&self) -> Matcher {
        match self {
            ProcessType::KeepCollecting(p) => Matcher::Predicate(predicate_of::<dyn CharPredicate>(&**p)),
            ProcessType::SpecificString(text) => Matcher::ExactString(text@),
            ProcessType::CharacterSpecific(c, count) => Matcher::LiteralRepeat(*c, *count as nat),
        }
    }
}

/// The recognition strategy of one rule.
pub struct TokenProcess {
    pub process_type: ProcessType,
}

impl View for TokenProcess {
    type V = Matcher;

    open spec fn view(&self) -> Matcher {
        self.process_type@
    }
}

impl TokenProcess {
    pub fn new(process_type: ProcessType) -> (process: Self)
        ensures
            process.process_type == process_type,
    {
        Self { process_type }
    }
}

} // verus!
