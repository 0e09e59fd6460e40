//! The hook point: a recognizer of the user's own that the scan consults at
//! every position before any rule.

use vstd::prelude::*;
use crate::cursor::{LexerCore, ScanState};
use crate::model::{line_at, run_end, HookModel};
use crate::predicate::{char_is_control, char_is_whitespace, is_control, is_whitespace};
use crate::text::chars_of;
use crate::token::{same_tokens, TokenView};

verus! {

/// A recognizer with priority over every rule.
///
/// What a hook does at a position is a function of the input and the position:
/// `handles` says whether it takes the position, `resume` where the scan goes
/// on after it, and `emits` which tokens it adds. `handle` is the executable
/// form, working on the live scanning state.
pub trait Hook<T: Clone> {
    /// Whether the hook handles position `pos` of `input`.
    spec fn handles(&self, input: Seq<char>, pos: int) -> bool;

    /// Where the cursor stands after the hook has handled `pos`.
    spec fn resume(&self, input: Seq<char>, pos: int) -> int;

    /// The tokens that the hook emits when it handles `pos`.
    spec fn emits(&self, input: Seq<char>, pos: int) -> Seq<TokenView<T>>;

    /// Looks at the position under the cursor. Returns `true` after handling
    /// it, which moves the cursor forward by at least one character and may
    /// add tokens; returns `false` after leaving the state exactly as it was.
    /// The tokens emitted earlier stay as they are, in their places.
    fn handle(&self, core: &mut LexerCore<T>) -> (handled: bool)
        requires
            old(core)@.wf(),
            old(core)@.index < old(core)@.input.len(),
            old(core)@.buffer.len() == 0,
        ensures
            final(core)@.wf(),
            handled == self.handles(old(core)@.input, old(core)@.index),
            old(core)@.tokens.is_prefix_of(final(core)@.tokens),
            !handled ==> final(core)@ == old(core)@,
            handled ==> {
                &&& final(core)@.input == old(core)@.input
                &&& old(core)@.index < final(core)@.index
                &&& final(core)@.index == self.resume(old(core)@.input, old(core)@.index)
                &&& same_tokens(
                    final(core)@.tokens,
                    old(core)@.tokens + self.emits(old(core)@.input, old(core)@.index),
                )
            },
    ;
}

/// The mathematical content of `hook`.
pub open spec fn hook_model<T: Clone, H: Hook<T> + ?Sized>(hook: &H) -> HookModel<T> {
    HookModel {
        handles: |input: Seq<char>, pos: int| hook.handles(input, pos),
        resume: |input: Seq<char>, pos: int| hook.resume(input, pos),
        emits: |input: Seq<char>, pos: int| hook.emits(input, pos),
    }
}

/// The characters that may follow a marker: neither whitespace nor control
/// characters.
pub open spec fn word_chars() -> spec_fn(char) -> bool {
    |c: char| !is_whitespace(c) && !is_control(c)
}

/// Whether `text` stands at `pos`.
pub open spec fn stands_at(input: Seq<char>, pos: int, text: Seq<char>) -> bool {
    &&& 0 <= pos
    &&& pos + text.len() <= input.len()
    &&& forall|k: int| 0 <= k < text.len() ==> #[trigger] text[k] == input[pos + k]
}

/// The index of the first entry, at or after `from`, whose text is `word`.
pub open spec fn find_literal<T>(literals: Seq<(Vec<char>, T)>, word: Seq<char>, from: int) -> Option<int>
    decreases literals.len() - from,
{
    if from < 0 || from >= literals.len() {
        None
    } else if literals[from].0@ == word {
        Some(from)
    } else {
        find_literal(literals, word, from + 1)
    }
}

/// A hook for lexemes made of a fixed marker and one of a few fixed words.
///
/// At a position where `marker` stands, the hook takes the longest run of word
/// characters that follows it, up to the end of the line. If that run is one of
/// the `literals`, the hook consumes marker and run and emits one token whose
/// text is both and whose tag is the one listed with the word. Anywhere else it
/// leaves the position to the rules.
pub struct MarkerHook<T> {
    pub marker: Vec<char>,
    pub literals: Vec<(Vec<char>, T)>,
}

impl<T> MarkerHook<T> {
    /// Where the word that follows the marker at `pos` ends.
    pub open spec fn word_end(&self, input: Seq<char>, pos: int) -> int {
        run_end(input, pos + self.marker@.len(), word_chars())
    }

    /// The word that follows the marker at `pos`.
    pub open spec fn word(&self, input: Seq<char>, pos: int) -> Seq<char> {
        input.subrange(pos + self.marker@.len(), self.word_end(input, pos))
    }

    /// A hook for `marker` with no words yet.
    pub fn new(marker: &str) -> (hook: Self)
        ensures
            hook.marker@ == marker@,
            hook.literals@.len() == 0,
    {
        MarkerHook { marker: chars_of(marker), literals: Vec::new() }
    }

    /// Adds a word and the tag of its token. Of two equal words the one added
    /// first counts.
    pub fn with_literal(&mut self, text: &str, token_type: T)
        ensures
            final(self).marker == old(self).marker,
            final(self).literals@.len() == old(self).literals@.len() + 1,
            final(self).literals@.drop_last() == old(self).literals@,
            final(self).literals@.last().0@ == text@,
            final(self).literals@.last().1 == token_type,
    {
        self.literals.push((chars_of(text), token_type));
        assert(self.literals@.drop_last() =~= old(self).literals@);
    }
}

impl<T: Clone> MarkerHook<T> {
    /// Whether the `len` characters that stand `offset` places after the cursor
    /// are `text`.
    fn lookahead_is(core: &LexerCore<T>, offset: usize, len: usize, text: &Vec<char>) -> (same: bool)
        requires
            core@.wf(),
            core@.index + offset + len <= core@.input.len(),
        ensures
            same == (core@.input.subrange(core@.index + offset, core@.index + offset + len) == text@),
    {
        let ghost window = core@.input.subrange(core@.index + offset, core@.index + offset + len);
        if text.len() != len {
            return false;
        }
        let mut k: usize = 0;
        while k < len
            invariant
                core@.wf(),
                core@.index + offset + len <= core@.input.len(),
                window == core@.input.subrange(core@.index + offset, core@.index + offset + len),
                text.len() == len,
                k <= len,
                forall|j: int| 0 <= j < k ==> #[trigger] text@[j] == window[j],
            decreases len - k,
        {
            match core.peek_at(offset + k) {
                Some(c) => {
                    if c != text[k] {
                        assert(window[k as int] != text@[k as int]);
                        return false;
                    }
                },
                None => {
                    return false;
                },
            }
            k += 1;
        }
        assert(window =~= text@);
        true
    }
}

impl<T: Clone> Hook<T> for MarkerHook<T> {
    open spec fn handles(&self, input: Seq<char>, pos: int) -> bool {
        &&& stands_at(input, pos, self.marker@)
        &&& self.word_end(input, pos) > pos
        &&& find_literal(self.literals@, self.word(input, pos), 0) is Some
    }

    open spec fn resume(&self, input: Seq<char>, pos: int) -> int {
        self.word_end(input, pos)
    }

    open spec fn emits(&self, input: Seq<char>, pos: int) -> Seq<TokenView<T>> {
        let end = self.word_end(input, pos);
        seq![
            TokenView {
                token_type: self.literals@[find_literal(self.literals@, self.word(input, pos), 0)->0].1,
                content: input.subrange(pos, end),
                start: pos,
                end,
                line: line_at(input, end),
            },
        ]
    }

    fn handle(&self, core: &mut LexerCore<T>) -> (handled: bool) {
        let ghost input = core@.input;
        let ghost pos = core@.index;
        let marker_len = self.marker.len();
        let mut i: usize = 0;
        while i < marker_len
            invariant
                core@ == old(core)@,
                core@.wf(),
                input == core@.input,
                pos == core@.index,
                marker_len == self.marker.len(),
                i <= marker_len,
                pos + i <= input.len(),
                forall|k: int| 0 <= k < i ==> #[trigger] self.marker@[k] == input[pos + k],
            decreases marker_len - i,
        {
            let found: bool = match core.peek_at(i) {
                Some(c) => c == self.marker[i],
                None => false,
            };
            if !found {
                assert(!stands_at(input, pos, self.marker@)) by {
                    if stands_at(input, pos, self.marker@) {
                        assert(self.marker@[i as int] == input[pos + i]);
                    }
                }
                return false;
            }
            i += 1;
        }
        let ghost word_start = pos + marker_len;
        let mut word_len: usize = 0;
        loop
            invariant
                core@ == old(core)@,
                core@.wf(),
                input == core@.input,
                pos == core@.index,
                marker_len == self.marker.len(),
                word_start == pos + marker_len,
                word_start + word_len <= input.len(),
                run_end(input, word_start + word_len, word_chars()) == run_end(input, word_start, word_chars()),
            ensures
                run_end(input, word_start, word_chars()) == word_start + word_len,
            decreases input.len() - word_start - word_len,
        {
            match core.peek_at(marker_len + word_len) {
                Some(c) => {
                    if c == '\n' || char_is_whitespace(c) || char_is_control(c) {
                        break ;
                    }
                    word_len += 1;
                },
                None => {
                    break ;
                },
            }
        }
        if marker_len + word_len == 0 {
            return false;
        }
        let ghost word = self.word(input, pos);
        let mut k: usize = 0;
        while k < self.literals.len()
            invariant
                core@ == old(core)@,
                core@.wf(),
                core@.buffer.len() == 0,
                input == core@.input,
                pos == core@.index,
                marker_len == self.marker.len(),
                marker_len + word_len > 0,
                pos + marker_len + word_len <= input.len(),
                word_start == pos + marker_len,
                stands_at(input, pos, self.marker@),
                self.word_end(input, pos) == word_start + word_len,
                word == self.word(input, pos),
                k <= self.literals.len(),
                find_literal(self.literals@, word, 0) == find_literal(self.literals@, word, k as int),
            decreases self.literals.len() - k,
        {
            if Self::lookahead_is(core, marker_len, word_len, &self.literals[k].0) {
                let total = marker_len + word_len;
                let mut taken: usize = 0;
                assert(core@.buffer =~= input.subrange(pos, pos + taken));
                while taken < total
                    invariant
                        old(core)@.wf(),
                        old(core)@.buffer.len() == 0,
                        core@.wf(),
                        input == old(core)@.input,
                        pos == old(core)@.index,
                        pos + total <= input.len(),
                        taken <= total,
                        core@ == (ScanState {
                            buffer: input.subrange(pos, pos + taken),
                            ..old(core)@.moved_to(pos + taken)
                        }),
                    decreases total - taken,
                {
                    core.push_consume();
                    taken += 1;
                    assert(core@.buffer =~= input.subrange(pos, pos + taken));
                }
                let text: String = core.read_buffer();
                core.emit(self.literals[k].1.clone(), text.as_str());
                proof {
                    assert(find_literal(self.literals@, word, 0) == Some(k as int));
                    assert(core@.tokens =~= old(core)@.tokens + seq![core@.tokens.last()]);
                }
                return true;
            }
            k += 1;
        }
        false
    }
}

} // verus!
