//! The scanning state: the input with its cursor and line counter, the scratch
//! buffer of the lexeme in progress, and the sink of finished tokens.

use vstd::prelude::*;
use crate::model::line_at;
use crate::text::string_from_chars;
use crate::token::{token_views, Token, TokenView};

verus! {

/// The mathematical content of the scanning state.
pub struct ScanState<T> {
    /// The whole input.
    pub input: Seq<char>,
    /// The cursor: the offset of the next character to read.
    pub index: int,
    /// The line counter.
    pub line: int,
    /// The scratch buffer.
    pub buffer: Seq<char>,
    /// The tokens emitted so far, oldest first.
    pub tokens: Seq<TokenView<T>>,
}

/// Whether the range of `token` lies inside an input of `len` characters.
pub open spec fn in_bounds<T>(token: TokenView<T>, len: int) -> bool {
    0 <= token.start <= token.end <= len
}

impl<T> ScanState<T> {
    /// The invariant of the scanning state: the cursor is inside the input, the
    /// line counter is the line of the cursor, the scratch buffer is no longer
    /// than the consumed input, and every token lies inside the input.
    pub open spec fn wf(self) -> bool {
        &&& 0 <= self.index <= self.input.len() < usize::MAX
        &&& self.line == line_at(self.input, self.index)
        &&& self.buffer.len() <= self.index
        &&& forall|i: int| 0 <= i < self.tokens.len() ==> in_bounds(#[trigger] self.tokens[i], self.input.len() as int)
    }

    /// The state after the cursor has moved to `index`, the rest unchanged.
    pub open spec fn moved_to(self, index: int) -> Self {
        ScanState { index, line: line_at(self.input, index), ..self }
    }
}

/// A line number is at least one and grows by at most one for each character.
pub proof fn lemma_line_bounds(input: Seq<char>, pos: int)
    requires
        0 <= pos,
    ensures
        1 <= line_at(input, pos) <= pos + 1,
    decreases pos,
{
    if pos > 0 {
        lemma_line_bounds(input, pos - 1);
    }
}

/// The live scanning state that the rule engine and the hook work on.
pub struct LexerCore<T: Clone> {
    buf: Vec<char>,
    index: usize,
    line: usize,
    tokens: Vec<Token<T>>,
    buffer: Vec<char>,
}

impl<T: Clone> View for LexerCore<T> {
    type V = ScanState<T>;

    closed spec fn view(&self) -> ScanState<T> {
        ScanState {
            input: self.buf@,
            index: self.index as int,
            line: self.line as int,
            buffer: self.buffer@,
            tokens: token_views(self.tokens@),
        }
    }
}

impl<T: Clone> LexerCore<T> {
    /// A state at the start of `buf`: line one, nothing buffered, nothing emitted.
    pub fn new(buf: Vec<char>) -> (core: Self)
        requires
            buf.len() < usize::MAX,
        ensures
            core@.wf(),
            core@ == (ScanState::<T> {
                input: buf@,
                index: 0,
                line: 1,
                buffer: Seq::empty(),
                tokens: Seq::empty(),
            }),
    {
        let core = Self { buf, index: 0, line: 1, tokens: Vec::new(), buffer: Vec::new() };
        assert(core@.tokens =~= Seq::empty());
        core
    }

    /// The cursor.
    pub fn position(&self) -> (index: usize)
        ensures
            index == self@.index,
    {
        self.index
    }

    /// The line counter.
    pub fn line(&self) -> (line: usize)
        ensures
            line == self@.line,
    {
        self.line
    }

    /// The length of the input.
    pub fn input_len(&self) -> (len: usize)
        ensures
            len == self@.input.len(),
    {
        self.buf.len()
    }

    /// The tokens emitted so far.
    pub fn tokens(&self) -> (tokens: &Vec<Token<T>>)
        ensures
            token_views(tokens@) == self@.tokens,
    {
        &self.tokens
    }

    /// The character under the cursor, if any.
    pub fn peek(&self) -> (c: Option<char>)
        ensures
            c == if 0 <= self@.index < self@.input.len() {
                Some(self@.input[self@.index])
            } else {
                None
            },
    {
        if self.index < self.buf.len() {
            Some(self.buf[self.index])
        } else {
            None
        }
    }

    /// The character `offset` places after the cursor, if any.
    pub fn peek_at(&self, offset: usize) -> (c: Option<char>)
        ensures
            c == if 0 <= self@.index + offset < self@.input.len() {
                Some(self@.input[self@.index + offset])
            } else {
                None
            },
    {
        if self.index < self.buf.len() && offset < self.buf.len() - self.index {
            Some(self.buf[self.index + offset])
        } else {
            None
        }
    }

    /// Reads the character under the cursor and moves past it. At the end of the
    /// input nothing changes.
    pub fn consume(&mut self) -> (c: Option<char>)
        requires
            old(self)@.wf(),
        ensures
            final(self)@.wf(),
            c == if old(self)@.index < old(self)@.input.len() {
                Some(old(self)@.input[old(self)@.index])
            } else {
                None
            },
            final(self)@ == if c is Some {
                old(self)@.moved_to(old(self)@.index + 1)
            } else {
                old(self)@
            },
    {
        let c = self.peek();
        match c {
            Some(x) => {
                proof {
                    lemma_line_bounds(self.buf@, self.index as int);
                }
                self.index += 1;
                if x == '\n' {
                    self.line += 1;
                }
                assert(self@.line == line_at(self@.input, self@.index));
                assert(self@.tokens == old(self)@.tokens);
            },
            None => {},
        }
        c
    }

    /// Builds a token from the given tag and text, placed where the scratch
    /// buffer stands: it ends at the cursor and is as long as the buffer.
    pub fn new_token(&mut self, token_type: T, text: &str) -> (token: Token<T>)
        requires
            old(self)@.wf(),
        ensures
            final(self)@ == old(self)@,
            token@ == (TokenView {
                token_type,
                content: text@,
                start: old(self)@.index - old(self)@.buffer.len(),
                end: old(self)@.index,
                line: old(self)@.line,
            }),
    {
        Token::new(token_type, text, (self.index - self.buffer.len(), self.index), self.line)
    }

    /// The text of the scratch buffer.
    pub fn read_buffer(&self) -> (text: String)
        ensures
            text@ == self@.buffer,
    {
        string_from_chars(&self.buffer)
    }

    /// Consumes the character under the cursor into the scratch buffer. At the
    /// end of the input nothing changes.
    pub fn push_consume(&mut self)
        requires
            old(self)@.wf(),
        ensures
            final(self)@.wf(),
            final(self)@ == if old(self)@.index < old(self)@.input.len() {
                ScanState {
                    buffer: old(self)@.buffer.push(old(self)@.input[old(self)@.index]),
                    ..old(self)@.moved_to(old(self)@.index + 1)
                }
            } else {
                old(self)@
            },
    {
        let c = self.consume();
        match c {
            Some(x) => {
                self.buffer.push(x);
            },
            None => {},
        }
    }

    /// Empties the scratch buffer.
    pub fn clear(&mut self)
        ensures
            final(self)@ == (ScanState { buffer: Seq::empty(), ..old(self)@ }),
    {
        self.buffer.clear();
    }

    /// Adds a finished token to the sink.
    pub(crate) fn push_token(&mut self, token: Token<T>)
        requires
            old(self)@.wf(),
            in_bounds(token@, old(self)@.input.len() as int),
        ensures
            final(self)@.wf(),
            final(self)@ == (ScanState { tokens: old(self)@.tokens.push(token@), ..old(self)@ }),
    {
        self.tokens.push(token);
        proof {
            assert(token_views(self.tokens@) =~= token_views(old(self).tokens@).push(token@));
        }
    }

    /// Emits a token with the given tag and text, placed where the scratch buffer
    /// stands.
    pub fn emit(&mut self, token_type: T, text: &str)
        requires
            old(self)@.wf(),
        ensures
            final(self)@.wf(),
            final(self)@ == (ScanState {
                tokens: old(self)@.tokens.push(
                    TokenView {
                        token_type,
                        content: text@,
                        start: old(self)@.index - old(self)@.buffer.len(),
                        end: old(self)@.index,
                        line: old(self)@.line,
                    },
                ),
                ..old(self)@
            }),
    {
        let token = self.new_token(token_type, text);
        self.push_token(token);
    }

    /// Moves the cursor back by `count` characters, or to the start of the input
    /// if fewer were consumed, and empties the scratch buffer. The line counter
    /// follows the cursor.
    pub fn backtrack(&mut self, count: usize)
        requires
            old(self)@.wf(),
        ensures
            final(self)@.wf(),
            final(self)@ == (ScanState {
                buffer: Seq::empty(),
                ..old(self)@.moved_to(if count <= old(self)@.index { old(self)@.index - count } else { 0 })
            }),
    {
        self.buffer.clear();
        let target: usize = if count <= self.index { self.index - count } else { 0 };
        while self.index > target
            invariant
                target <= self.index <= self.buf.len() < usize::MAX,
                self.line == line_at(self.buf@, self.index as int),
                self.buf == old(self).buf,
                self.tokens == old(self).tokens,
                self.buffer@ == Seq::<char>::empty(),
            decreases self.index,
        {
            proof {
                lemma_line_bounds(self.buf@, self.index as int - 1);
            }
            self.index -= 1;
            if self.buf[self.index] == '\n' {
                self.line -= 1;
            }
        }
    }

    /// Consumes the next `count` characters and returns them, or consumes nothing
    /// and returns `None` when fewer remain. The scratch buffer is not touched.
    pub fn consume_n(&mut self, count: usize) -> (text: Option<String>)
        requires
            old(self)@.wf(),
        ensures
            final(self)@.wf(),
            text is Some <==> old(self)@.index + count <= old(self)@.input.len(),
            text is Some ==> {
                &&& text->0@ == old(self)@.input.subrange(old(self)@.index, old(self)@.index + count)
                &&& final(self)@ == old(self)@.moved_to(old(self)@.index + count)
            },
            text is None ==> final(self)@ == old(self)@,
    {
        if count > self.buf.len() - self.index {
            return None;
        }
        let mut taken: Vec<char> = Vec::new();
        while taken.len() < count
            invariant
                old(self)@.wf(),
                self@.wf(),
                self@ == old(self)@.moved_to(old(self)@.index + taken.len()),
                old(self)@.index + count <= old(self)@.input.len(),
                taken.len() <= count,
                taken@ == old(self)@.input.subrange(old(self)@.index, old(self)@.index + taken.len()),
            decreases count - taken.len(),
        {
            let c = self.consume();
            match c {
                Some(x) => {
                    taken.push(x);
                },
                None => {},
            }
        }
        Some(string_from_chars(&taken))
    }
}

} // verus!
