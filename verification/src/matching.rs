//! The matchers of the rule engine, and the evaluation of a rule set at the
//! cursor.

use vstd::prelude::*;
use crate::cursor::{LexerCore, ScanState};
use crate::model::{first_match, lemma_lexeme_bounds, lexeme_end, line_at, literal_at, matches_at, repeat_at,
    rule_token, run_end, space_run_end};
use crate::predicate::{predicate_of, CharPredicate};
use crate::rules::LexerData;
use crate::text::chars_of;
use crate::token::{same_token, Matcher, ProcessType, Token};

verus! {

/// The line does not change over a stretch of input without a newline.
pub proof fn lemma_line_constant(input: Seq<char>, from: int, to: int)
    requires
        0 <= from <= to,
        forall|k: int| from <= k < to ==> #[trigger] input[k] != '\n',
    ensures
        line_at(input, to) == line_at(input, from),
    decreases to - from,
{
    if from < to {
        lemma_line_constant(input, from, to - 1);
    }
}

impl<T: Clone> LexerCore<T> {
    /// Skips the run of plain spaces under the cursor. Nothing is buffered and the
    /// line counter does not change.
    pub fn skip_spaces(&mut self)
        requires
            old(self)@.wf(),
        ensures
            final(self)@.wf(),
            final(self)@ == (ScanState {
                index: space_run_end(old(self)@.input, old(self)@.index),
                ..old(self)@
            }),
    {
        let ghost input = self@.input;
        let ghost start = self@.index;
        loop
            invariant
                old(self)@.wf(),
                self@.wf(),
                input == old(self)@.input,
                start == old(self)@.index,
                start <= self@.index,
                self@ == (ScanState { index: self@.index, ..old(self)@ }),
                space_run_end(input, self@.index) == space_run_end(input, start),
            ensures
                space_run_end(input, start) == self@.index,
            decreases input.len() - self@.index,
        {
            match self.peek() {
                Some(x) => {
                    if x != ' ' {
                        break ;
                    }
                    self.consume();
                },
                None => {
                    break ;
                },
            }
        }
    }

    /// Consumes into the scratch buffer the longest run of characters that
    /// `condition` accepts, stopping before any newline. Succeeds when the run
    /// is not empty; a failure consumes nothing.
    pub fn consume_while_condition<P: CharPredicate + ?Sized>(&mut self, condition: &P) -> (matched: bool)
        requires
            old(self)@.wf(),
        ensures
            final(self)@.wf(),
            matched == matches_at(
                Matcher::Predicate(predicate_of(condition)),
                old(self)@.input,
                old(self)@.index,
            ),
            final(self)@ == ({
                let end = run_end(old(self)@.input, old(self)@.index, predicate_of(condition));
                ScanState {
                    index: end,
                    buffer: old(self)@.buffer + old(self)@.input.subrange(old(self)@.index, end),
                    ..old(self)@
                }
            }),
    {
        let ghost input = self@.input;
        let ghost start = self@.index;
        let ghost accepts = predicate_of(condition);
        let mut counter: usize = 0;
        loop
            invariant
                old(self)@.wf(),
                self@.wf(),
                input == old(self)@.input,
                start == old(self)@.index,
                accepts == predicate_of(condition),
                self@ == (ScanState {
                    index: start + counter,
                    buffer: old(self)@.buffer + input.subrange(start, start + counter),
                    ..old(self)@
                }),
                run_end(input, start + counter, accepts) == run_end(input, start, accepts),
            ensures
                run_end(input, start, accepts) == start + counter,
            decreases input.len() - self@.index,
        {
            match self.peek() {
                Some(x) => {
                    if x == '\n' || !condition.test(x) {
                        break ;
                    }
                    self.push_consume();
                    counter += 1;
                    assert(self@.buffer =~= old(self)@.buffer + input.subrange(start, start + counter));
                },
                None => {
                    break ;
                },
            }
        }
        assert(self@.buffer =~= old(self)@.buffer + input.subrange(start, start + counter));
        counter != 0
    }

    /// Consumes `text` into the scratch buffer if it stands at the cursor,
    /// character by character. An empty `text` never matches and changes
    /// nothing. On any mismatch, at the end of the input and on a newline the
    /// attempt fails: the cursor returns to where it was and the scratch buffer
    /// is emptied.
    pub fn consume_string(&mut self, text: &str) -> (matched: bool)
        requires
            old(self)@.wf(),
        ensures
            final(self)@.wf(),
            matched == literal_at(old(self)@.input, old(self)@.index, text@),
            final(self)@ == if matched {
                ScanState {
                    index: old(self)@.index + text@.len(),
                    buffer: old(self)@.buffer + text@,
                    ..old(self)@
                }
            } else if text@.len() == 0 {
                old(self)@
            } else {
                ScanState { buffer: Seq::empty(), ..old(self)@ }
            },
    {
        let ghost input = self@.input;
        let ghost start = self@.index;
        let chars: Vec<char> = chars_of(text);
        if chars.len() == 0 {
            return false;
        }
        let mut counter: usize = 0;
        while counter < chars.len()
            invariant
                old(self)@.wf(),
                self@.wf(),
                input == old(self)@.input,
                start == old(self)@.index,
                chars@ == text@,
                counter <= chars.len(),
                self@ == (ScanState {
                    index: start + counter,
                    buffer: old(self)@.buffer + chars@.take(counter as int),
                    ..old(self)@
                }),
                forall|k: int| 0 <= k < counter ==> #[trigger] chars@[k] == input[start + k] && chars@[k] != '\n',
            decreases chars.len() - counter,
        {
            let expected: char = chars[counter];
            let found: bool = match self.peek() {
                Some(x) => x == expected && x != '\n',
                None => false,
            };
            if !found {
                assert(!literal_at(input, start, text@)) by {
                    if literal_at(input, start, text@) {
                        assert(text@[counter as int] == input[start + counter]);
                    }
                }
                self.backtrack(counter);
                return false;
            }
            self.push_consume();
            counter += 1;
            assert(self@.buffer =~= old(self)@.buffer + chars@.take(counter as int));
        }
        assert(chars@.take(counter as int) =~= text@);
        true
    }

    /// Consumes `count` copies of `c` into the scratch buffer if they stand at
    /// the cursor. A count of zero never matches and changes nothing. On any
    /// mismatch, at the end of the input and for the newline character the
    /// attempt fails: the cursor returns to where it was and the scratch buffer
    /// is emptied.
    pub fn consume_repeat(&mut self, c: char, count: usize) -> (matched: bool)
        requires
            old(self)@.wf(),
        ensures
            final(self)@.wf(),
            matched == repeat_at(old(self)@.input, old(self)@.index, c, count as nat),
            final(self)@ == if matched {
                ScanState {
                    index: old(self)@.index + count,
                    buffer: old(self)@.buffer + old(self)@.input.subrange(
                        old(self)@.index,
                        old(self)@.index + count,
                    ),
                    ..old(self)@
                }
            } else if count == 0 {
                old(self)@
            } else {
                ScanState { buffer: Seq::empty(), ..old(self)@ }
            },
    {
        let ghost input = self@.input;
        let ghost start = self@.index;
        if count == 0 {
            return false;
        }
        if c == '\n' {
            self.clear();
            return false;
        }
        let mut counter: usize = 0;
        while counter < count
            invariant
                old(self)@.wf(),
                self@.wf(),
                input == old(self)@.input,
                start == old(self)@.index,
                c != '\n',
                counter <= count,
                self@ == (ScanState {
                    index: start + counter,
                    buffer: old(self)@.buffer + input.subrange(start, start + counter),
                    ..old(self)@
                }),
                forall|k: int| start <= k < start + counter ==> #[trigger] input[k] == c,
            decreases count - counter,
        {
            let found: bool = match self.peek() {
                Some(x) => x == c,
                None => false,
            };
            if !found {
                assert(!repeat_at(input, start, c, count as nat)) by {
                    if repeat_at(input, start, c, count as nat) {
                        assert(input[start + counter] == c);
                    }
                }
                self.backtrack(counter);
                return false;
            }
            self.push_consume();
            counter += 1;
            assert(self@.buffer =~= old(self)@.buffer + input.subrange(start, start + counter));
        }
        true
    }

    /// Tries `process` at the cursor, with an empty scratch buffer to start from.
    fn try_process(&mut self, process: &ProcessType) -> (matched: bool)
        requires
            old(self)@.wf(),
            old(self)@.buffer.len() == 0,
        ensures
            final(self)@.wf(),
            matched == matches_at(process@, old(self)@.input, old(self)@.index),
            final(self)@ == ({
                let end = lexeme_end(process@, old(self)@.input, old(self)@.index);
                ScanState {
                    index: end,
                    buffer: old(self)@.input.subrange(old(self)@.index, end),
                    ..old(self)@
                }
            }),
    {
        proof {
            lemma_lexeme_bounds(process@, self@.input, self@.index);
        }
        let matched = match process {
            ProcessType::KeepCollecting(condition) => {
                let condition: &dyn CharPredicate = &**condition;
                self.consume_while_condition(condition)
            },
            ProcessType::SpecificString(text) => self.consume_string(text.as_str()),
            ProcessType::CharacterSpecific(c, count) => self.consume_repeat(*c, *count),
        };
        proof {
            let start = old(self)@.index;
            let end = lexeme_end(process@, old(self)@.input, start);
            if let ProcessType::SpecificString(text) = process {
                if matched {
                    assert(text@ =~= old(self)@.input.subrange(start, end));
                }
            }
            assert(self@.buffer =~= old(self)@.input.subrange(start, end));
        }
        matched
    }

    /// Evaluates the rules of `data` in order at the cursor, starting from an
    /// empty scratch buffer. The first rule that succeeds yields the token: its
    /// tag (or the tag that the keyword table holds for its text), the consumed
    /// text, the range that text occupies and the line it stands on. When no
    /// rule succeeds the cursor does not move. The scratch buffer is empty
    /// afterwards either way.
    pub fn make_token(&mut self, data: &LexerData<T>) -> (token: Option<Token<T>>)
        requires
            old(self)@.wf(),
        ensures
            final(self)@.wf(),
            match first_match(data.rules(), old(self)@.input, old(self)@.index, 0) {
                Some(i) => {
                    &&& token is Some
                    &&& same_token(
                        token->0@,
                        rule_token(data.rules(), data.keyword_table(), old(self)@.input, old(self)@.index, i),
                    )
                    &&& final(self)@ == (ScanState {
                        index: lexeme_end(data.rules()[i].matcher, old(self)@.input, old(self)@.index),
                        buffer: Seq::empty(),
                        ..old(self)@
                    })
                },
                None => token is None && final(self)@ == (ScanState { buffer: Seq::empty(), ..old(self)@ }),
            },
            final(self)@.index >= old(self)@.index,
    {
        let ghost input = self@.input;
        let ghost start = self@.index;
        self.clear();
        let ghost cleared = self@;
        let mut i: usize = 0;
        while i < data.conditionals.len()
            invariant
                cleared.wf(),
                cleared == (ScanState { buffer: Seq::empty(), ..old(self)@ }),
                self@ == cleared,
                input == cleared.input,
                start == cleared.index,
                i <= data.conditionals.len(),
                first_match(data.rules(), input, start, 0) == first_match(data.rules(), input, start, i as int),
            decreases data.conditionals.len() - i,
        {
            let rule = &data.conditionals[i];
            assert(data.rules()[i as int].matcher == rule.1.process_type@);
            proof {
                lemma_lexeme_bounds(rule.1.process_type@, input, start);
            }
            if self.try_process(&rule.1.process_type) {
                let content: String = self.read_buffer();
                let mut token = self.new_token(rule.0.clone(), content.as_str());
                data.reclassify(&mut token);
                self.clear();
                proof {
                    let end = lexeme_end(rule.1.process_type@, input, start);
                    lemma_lexeme_has_no_newline(rule.1.process_type@, input, start);
                    lemma_line_constant(input, start, end);
                }
                return Some(token);
            }
            assert(self@.buffer =~= cleared.buffer);
            i += 1;
        }
        None
    }
}

/// No lexeme holds a newline.
pub proof fn lemma_lexeme_has_no_newline(matcher: Matcher, input: Seq<char>, pos: int)
    requires
        0 <= pos <= input.len(),
    ensures
        forall|k: int| pos <= k < lexeme_end(matcher, input, pos) ==> #[trigger] input[k] != '\n',
{
    match matcher {
        Matcher::Predicate(accepts) => lemma_run_accepted(input, pos, accepts),
        Matcher::ExactString(text) => {
            if literal_at(input, pos, text) {
                assert forall|k: int| pos <= k < pos + text.len() implies #[trigger] input[k] != '\n' by {
                    assert(text[k - pos] == input[pos + (k - pos)]);
                }
            }
        },
        Matcher::LiteralRepeat(c, count) => {},
    }
}

/// Every character of a greedy run is accepted and is no newline.
pub proof fn lemma_run_accepted(input: Seq<char>, pos: int, accepts: spec_fn(char) -> bool)
    requires
        0 <= pos <= input.len(),
    ensures
        forall|k: int|
            pos <= k < run_end(input, pos, accepts) ==> #[trigger] input[k] != '\n' && accepts(input[k]),
    decreases input.len() - pos,
{
    if pos < input.len() && input[pos] != '\n' && accepts(input[pos]) {
        lemma_run_accepted(input, pos + 1, accepts);
    }
}

} // verus!
