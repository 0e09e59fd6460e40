//! The scanner: a scanning state, a rule set and an optional hook, run in one
//! pass over the input.

use vstd::prelude::*;
use crate::cursor::{LexerCore, ScanState};
use crate::hook::{hook_model, Hook};
use crate::model::{first_match, lemma_first_match, lemma_lexeme_bounds, lemma_step_advances,
    lemma_tokens_from_unfold, step_at, tokens_from, Config};
use crate::rules::{keyword_map, rules_of, LexerData};
use crate::token::{lemma_same_tokens_transitive, lemma_scan_progress, same_token, same_tokens,
    token_views, Token, TokenProcess};

verus! {

/// The mathematical content of a scanner: its scanning state and its
/// configuration.
#[verifier::reject_recursive_types(T)]
pub struct LexerView<T> {
    pub state: ScanState<T>,
    pub config: Config<T>,
}

impl<T> LexerView<T> {
    /// The invariant of a scanner between steps: a well-formed scanning state
    /// with an empty scratch buffer.
    pub open spec fn wf(self) -> bool {
        self.state.wf() && self.state.buffer.len() == 0
    }
}

/// A scanner over one input: built once with its rules, optionally given
/// keywords and a hook, and run by `action`.
#[verifier::reject_recursive_types(T)]
pub struct Lexer<T: Clone> {
    core: LexerCore<T>,
    data: LexerData<T>,
    hook: Option<Box<dyn Hook<T>>>,
}

impl<T: Clone> View for Lexer<T> {
    type V = LexerView<T>;

    closed spec fn view(&self) -> LexerView<T> {
        LexerView {
            state: self.core@,
            config: Config {
                rules: self.data.rules(),
                keywords: self.data.keyword_table(),
                hook: match self.hook {
                    Some(hook) => Some(hook_model::<T, dyn Hook<T>>(&*hook)),
                    None => None,
                },
            },
        }
    }
}

impl<T: Clone> Lexer<T> {
    /// A scanner at the start of `buf` with the given rules, in priority order,
    /// no keywords and no hook.
    pub fn new(buf: Vec<char>, tokens: Vec<(T, TokenProcess)>) -> (lexer: Self)
        requires
            buf.len() < usize::MAX,
        ensures
            lexer@.wf(),
            lexer@.state == (ScanState::<T> {
                input: buf@,
                index: 0,
                line: 1,
                buffer: Seq::empty(),
                tokens: Seq::empty(),
            }),
            lexer@.config == (Config::<T> { rules: rules_of(tokens@), keywords: Map::empty(), hook: None }),
    {
        Self { core: LexerCore::new(buf), data: LexerData::new(tokens), hook: None }
    }

    /// Sets the keyword table: each entry maps a text to the tag that a token
    /// with exactly that text gets.
    pub fn with_keywords(&mut self, keywords: Vec<(String, T)>)
        ensures
            final(self)@ == (LexerView {
                config: Config { keywords: keyword_map(keywords@), ..old(self)@.config },
                ..old(self)@
            }),
    {
        self.data.keywords = keywords;
    }

    /// Sets the hook.
    pub fn with_hook(&mut self, hook: Box<dyn Hook<T>>)
        ensures
            final(self)@ == (LexerView {
                config: Config { hook: Some(hook_model::<T, dyn Hook<T>>(&*hook)), ..old(self)@.config },
                ..old(self)@
            }),
    {
        let hook = Some(hook);
        self.hook = hook;
    }

    /// Runs the scan to the end of the input and returns a copy of every token
    /// emitted. The tokens emitted earlier stay in the scanner as they are, and
    /// the tokens of the scan follow them.
    pub fn action(&mut self) -> (tokens: Vec<Token<T>>)
        requires
            old(self)@.wf(),
        ensures
            final(self)@.wf(),
            final(self)@.config == old(self)@.config,
            final(self)@.state.input == old(self)@.state.input,
            final(self)@.state.index == old(self)@.state.input.len(),
            same_tokens(
                token_views(tokens@),
                old(self)@.state.tokens + tokens_from(
                    old(self)@.config,
                    old(self)@.state.input,
                    old(self)@.state.index,
                ),
            ),
            same_tokens(final(self)@.state.tokens, token_views(tokens@)),
            old(self)@.state.tokens.is_prefix_of(final(self)@.state.tokens),
            old(self)@.state.index <= final(self)@.state.index,
    {
        self.get_tokens();
        let emitted = self.core.tokens();
        let tokens = emitted.clone();
        proof {
            let kept = emitted@;
            assert forall|i: int| 0 <= i < tokens@.len() implies same_token(
                #[trigger] token_views(tokens@)[i],
                token_views(kept)[i],
            ) by {
                assert(cloned(kept[i], tokens@[i]));
            }
            lemma_same_tokens_transitive(
                token_views(tokens@),
                self@.state.tokens,
                old(self)@.state.tokens + tokens_from(
                    old(self)@.config,
                    old(self)@.state.input,
                    old(self)@.state.index,
                ),
            );
        }
        tokens
    }

    /// The tokens emitted so far.
    pub fn tokens(&self) -> (tokens: &Vec<Token<T>>)
        ensures
            token_views(tokens@) == self@.state.tokens,
    {
        self.core.tokens()
    }

    /// The cursor.
    pub fn index(&self) -> (index: usize)
        ensures
            index == self@.state.index,
    {
        self.core.position()
    }

    /// The length of the input.
    pub fn buflen(&self) -> (len: usize)
        ensures
            len == self@.state.input.len(),
    {
        self.core.input_len()
    }

    /// The character under the cursor, if any.
    pub fn peek(&self) -> (c: Option<char>)
        ensures
            c == if 0 <= self@.state.index < self@.state.input.len() {
                Some(self@.state.input[self@.state.index])
            } else {
                None
            },
    {
        self.core.peek()
    }

    /// Takes the one transition that the scan takes at the cursor, which
    /// stands before the end of the input: it skips a run of spaces, or lets
    /// the hook handle the position, or emits the token of the first rule that
    /// matches, or drops one character. No rule is tried where the hook
    /// handled the position. The tokens emitted earlier stay as they are.
    pub fn step(&mut self)
        requires
            old(self)@.wf(),
            old(self)@.state.index < old(self)@.state.input.len(),
        ensures
            final(self)@.wf(),
            final(self)@.config == old(self)@.config,
            final(self)@.state.input == old(self)@.state.input,
            final(self)@.state.index == step_at(
                old(self)@.config,
                old(self)@.state.input,
                old(self)@.state.index,
            ).end,
            old(self)@.state.index < final(self)@.state.index,
            old(self)@.state.tokens.is_prefix_of(final(self)@.state.tokens),
            same_tokens(
                final(self)@.state.tokens,
                old(self)@.state.tokens + step_at(
                    old(self)@.config,
                    old(self)@.state.input,
                    old(self)@.state.index,
                ).emitted,
            ),
    {
        let ghost cfg = self@.config;
        let ghost input = self@.state.input;
        let ghost pos = self@.state.index;
        let ghost before = self@.state.tokens;
        proof {
            lemma_step_advances(cfg, input, pos);
        }
        if self.peek() == Some(' ') {
            self.core.skip_spaces();
            assert(before + step_at(cfg, input, pos).emitted =~= before);
            return ;
        }
        let handled = match &self.hook {
            Some(hook) => {
                let hook: &dyn Hook<T> = &**hook;
                hook.handle(&mut self.core)
            },
            None => false,
        };
        if handled {
            self.core.clear();
            return ;
        }
        proof {
            lemma_first_match(cfg.rules, input, pos, 0);
        }
        match self.core.make_token(&self.data) {
            Some(token) => {
                proof {
                    let i = first_match(cfg.rules, input, pos, 0)->0;
                    lemma_lexeme_bounds(cfg.rules[i].matcher, input, pos);
                }
                self.core.push_token(token);
                assert(self@.state.tokens =~= before + seq![token@]);
            },
            None => {
                self.core.consume();
                assert(before + step_at(cfg, input, pos).emitted =~= before);
            },
        }
    }

    /// The scan loop: takes one transition after another until the cursor
    /// stands at the end of the input. The tokens emitted earlier stay as they
    /// are, and the tokens of the scan follow them.
    pub fn get_tokens(&mut self)
        requires
            old(self)@.wf(),
        ensures
            final(self)@.wf(),
            final(self)@.config == old(self)@.config,
            final(self)@.state.input == old(self)@.state.input,
            final(self)@.state.index == old(self)@.state.input.len(),
            old(self)@.state.index <= final(self)@.state.index,
            old(self)@.state.tokens.is_prefix_of(final(self)@.state.tokens),
            same_tokens(
                final(self)@.state.tokens,
                old(self)@.state.tokens + tokens_from(
                    old(self)@.config,
                    old(self)@.state.input,
                    old(self)@.state.index,
                ),
            ),
    {
        let ghost cfg = self@.config;
        let ghost input = self@.state.input;
        let ghost goal = self@.state.tokens + tokens_from(cfg, input, self@.state.index);
        while self.index() < self.buflen()
            invariant
                self@.wf(),
                self@.config == cfg,
                self@.state.input == input,
                old(self)@.state.index <= self@.state.index,
                old(self)@.state.tokens.is_prefix_of(self@.state.tokens),
                same_tokens(self@.state.tokens + tokens_from(cfg, input, self@.state.index), goal),
            decreases input.len() - self@.state.index,
        {
            let ghost pos = self@.state.index;
            let ghost before = self@.state.tokens;
            self.step();
            proof {
                let step = step_at(cfg, input, pos);
                lemma_tokens_from_unfold(cfg, input, pos);
                lemma_scan_progress(
                    self@.state.tokens,
                    before,
                    step.emitted,
                    tokens_from(cfg, input, step.end),
                    goal,
                );
            }
        }
        proof {
            lemma_tokens_from_unfold(cfg, input, self@.state.index);
            assert(self@.state.tokens + tokens_from(cfg, input, self@.state.index) =~= self@.state.tokens);
        }
    }
}

} // verus!
