//! The mathematical model of a scan: what each matcher recognizes at a position,
//! which step the scan takes there, and the tokens that a whole run yields.

use vstd::prelude::*;
use crate::token::{Matcher, TokenView};

verus! {

/// The line number of offset `pos`: one more than the number of newlines before it.
pub open spec fn line_at(input: Seq<char>, pos: int) -> int
    decreases pos,
{
    if pos <= 0 {
        1
    } else {
        line_at(input, pos - 1) + if input[pos - 1] == '\n' { 1int } else { 0int }
    }
}

/// The end of the longest run of plain spaces that starts at `pos`.
pub open spec fn space_run_end(input: Seq<char>, pos: int) -> int
    decreases input.len() - pos,
{
    if 0 <= pos < input.len() && input[pos] == ' ' {
        space_run_end(input, pos + 1)
    } else {
        pos
    }
}

/// The end of the longest run that starts at `pos` and holds only characters that
/// `accepts` accepts. A newline ends the run whatever `accepts` says of it.
pub open spec fn run_end(input: Seq<char>, pos: int, accepts: spec_fn(char) -> bool) -> int
    decreases input.len() - pos,
{
    if 0 <= pos < input.len() && input[pos] != '\n' && accepts(input[pos]) {
        run_end(input, pos + 1, accepts)
    } else {
        pos
    }
}

/// Whether `count` copies of `c` stand at `pos`. Never so for a count of zero or
/// for the newline character.
pub open spec fn repeat_at(input: Seq<char>, pos: int, c: char, count: nat) -> bool {
    &&& count > 0
    &&& c != '\n'
    &&& 0 <= pos
    &&& pos + count <= input.len()
    &&& forall|k: int| pos <= k < pos + count ==> #[trigger] input[k] == c
}

/// Whether `text` stands at `pos`, character by character. Never so for the empty
/// text or for a text that holds a newline.
pub open spec fn literal_at(input: Seq<char>, pos: int, text: Seq<char>) -> bool {
    &&& text.len() > 0
    &&& 0 <= pos
    &&& pos + text.len() <= input.len()
    &&& forall|k: int| 0 <= k < text.len() ==> #[trigger] text[k] == input[pos + k] && text[k] != '\n'
}

/// Where the lexeme that `matcher` recognizes at `pos` ends; `pos` itself when
/// the matcher fails there.
pub open spec fn lexeme_end(matcher: Matcher, input: Seq<char>, pos: int) -> int {
    match matcher {
        Matcher::LiteralRepeat(c, count) => if repeat_at(input, pos, c, count) {
            pos + count
        } else {
            pos
        },
        Matcher::Predicate(accepts) => run_end(input, pos, accepts),
        Matcher::ExactString(text) => if literal_at(input, pos, text) {
            pos + text.len()
        } else {
            pos
        },
    }
}

/// Whether `matcher` succeeds at `pos`.
pub open spec fn matches_at(matcher: Matcher, input: Seq<char>, pos: int) -> bool {
    lexeme_end(matcher, input, pos) > pos
}

/// One entry of the rule set: the tag it gives and how it recognizes its lexeme.
pub struct Rule<T> {
    pub token_type: T,
    pub matcher: Matcher,
}

/// The index of the first rule, at or after `from`, that succeeds at `pos`.
pub open spec fn first_match<T>(rules: Seq<Rule<T>>, input: Seq<char>, pos: int, from: int) -> Option<int>
    decreases rules.len() - from,
{
    if from < 0 || from >= rules.len() {
        None
    } else if matches_at(rules[from].matcher, input, pos) {
        Some(from)
    } else {
        first_match(rules, input, pos, from + 1)
    }
}

/// The mathematical content of a hook: whether it handles a position, where the
/// scan resumes after it, and the tokens it emits there.
#[verifier::reject_recursive_types(T)]
pub struct HookModel<T> {
    pub handles: spec_fn(Seq<char>, int) -> bool,
    pub resume: spec_fn(Seq<char>, int) -> int,
    pub emits: spec_fn(Seq<char>, int) -> Seq<TokenView<T>>,
}

/// A fixed scanner configuration.
#[verifier::reject_recursive_types(T)]
pub struct Config<T> {
    pub rules: Seq<Rule<T>>,
    pub keywords: Map<Seq<char>, T>,
    pub hook: Option<HookModel<T>>,
}

/// Whether the hook takes the position: it reports it handled, and resumes
/// strictly later, inside the input.
pub open spec fn hook_claims<T>(hook: Option<HookModel<T>>, input: Seq<char>, pos: int) -> bool {
    match hook {
        Some(h) => (h.handles)(input, pos) && pos < (h.resume)(input, pos) <= input.len(),
        None => false,
    }
}

/// The tag of a token with text `content` that a rule tagged `token_type`.
pub open spec fn reclassified<T>(keywords: Map<Seq<char>, T>, content: Seq<char>, token_type: T) -> T {
    if keywords.dom().contains(content) {
        keywords[content]
    } else {
        token_type
    }
}

/// The token that rule `i` yields when it succeeds at `pos`.
pub open spec fn rule_token<T>(
    rules: Seq<Rule<T>>,
    keywords: Map<Seq<char>, T>,
    input: Seq<char>,
    pos: int,
    i: int,
) -> TokenView<T> {
    let end = lexeme_end(rules[i].matcher, input, pos);
    let content = input.subrange(pos, end);
    TokenView {
        token_type: reclassified(keywords, content, rules[i].token_type),
        content,
        start: pos,
        end,
        line: line_at(input, end),
    }
}

/// The transitions of the scan loop.
pub enum StepKind {
    /// A run of plain spaces was skipped.
    Spaces,
    /// The hook handled the position.
    Hooked,
    /// The rule with this index matched.
    Matched(int),
    /// Nothing recognized the character; it was dropped.
    Discarded,
}

/// One transition: the stretch `[start, end)` of input it covers and the tokens
/// it adds.
pub struct Step<T> {
    pub kind: StepKind,
    pub start: int,
    pub end: int,
    pub emitted: Seq<TokenView<T>>,
}

/// The transition taken at `pos`, a position before the end of the input.
pub open spec fn step_at<T>(cfg: Config<T>, input: Seq<char>, pos: int) -> Step<T> {
    if input[pos] == ' ' {
        Step { kind: StepKind::Spaces, start: pos, end: space_run_end(input, pos), emitted: Seq::empty() }
    } else if hook_claims(cfg.hook, input, pos) {
        Step {
            kind: StepKind::Hooked,
            start: pos,
            end: (cfg.hook->0.resume)(input, pos),
            emitted: (cfg.hook->0.emits)(input, pos),
        }
    } else {
        match first_match(cfg.rules, input, pos, 0) {
            Some(i) => Step {
                kind: StepKind::Matched(i),
                start: pos,
                end: lexeme_end(cfg.rules[i].matcher, input, pos),
                emitted: seq![rule_token(cfg.rules, cfg.keywords, input, pos, i)],
            },
            None => Step { kind: StepKind::Discarded, start: pos, end: pos + 1, emitted: Seq::empty() },
        }
    }
}

/// A run of spaces that starts on a space is not empty and stays inside the input.
pub proof fn lemma_space_run_bounds(input: Seq<char>, pos: int)
    requires
        0 <= pos <= input.len(),
    ensures
        pos <= space_run_end(input, pos) <= input.len(),
        pos < input.len() && input[pos] == ' ' ==> pos < space_run_end(input, pos),
    decreases input.len() - pos,
{
    if pos < input.len() && input[pos] == ' ' {
        lemma_space_run_bounds(input, pos + 1);
    }
}

/// A greedy run stays inside the input.
pub proof fn lemma_run_bounds(input: Seq<char>, pos: int, accepts: spec_fn(char) -> bool)
    requires
        0 <= pos <= input.len(),
    ensures
        pos <= run_end(input, pos, accepts) <= input.len(),
    decreases input.len() - pos,
{
    if pos < input.len() && input[pos] != '\n' && accepts(input[pos]) {
        lemma_run_bounds(input, pos + 1, accepts);
    }
}

/// A lexeme stays inside the input.
pub proof fn lemma_lexeme_bounds(matcher: Matcher, input: Seq<char>, pos: int)
    requires
        0 <= pos <= input.len(),
    ensures
        pos <= lexeme_end(matcher, input, pos) <= input.len(),
{
    match matcher {
        Matcher::Predicate(accepts) => lemma_run_bounds(input, pos, accepts),
        _ => {},
    }
}

/// What `first_match` finds: the least index at or after `from` of a rule that
/// succeeds, or nothing when no such rule succeeds.
pub proof fn lemma_first_match<T>(rules: Seq<Rule<T>>, input: Seq<char>, pos: int, from: int)
    requires
        0 <= from,
    ensures
        match first_match(rules, input, pos, from) {
            Some(i) => {
                &&& from <= i < rules.len()
                &&& matches_at(rules[i].matcher, input, pos)
                &&& forall|j: int| from <= j < i ==> !matches_at(#[trigger] rules[j].matcher, input, pos)
            },
            None => forall|j: int| from <= j < rules.len() ==> !matches_at(#[trigger] rules[j].matcher, input, pos),
        },
    decreases rules.len() - from,
{
    if from < rules.len() && !matches_at(rules[from].matcher, input, pos) {
        lemma_first_match(rules, input, pos, from + 1);
    }
}

/// Every transition moves the cursor forward and keeps it inside the input.
pub proof fn lemma_step_advances<T>(cfg: Config<T>, input: Seq<char>, pos: int)
    requires
        0 <= pos < input.len(),
    ensures
        step_at(cfg, input, pos).start == pos,
        pos < step_at(cfg, input, pos).end <= input.len(),
{
    if input[pos] == ' ' {
        lemma_space_run_bounds(input, pos);
    } else if hook_claims(cfg.hook, input, pos) {
    } else {
        lemma_first_match(cfg.rules, input, pos, 0);
        match first_match(cfg.rules, input, pos, 0) {
            Some(i) => lemma_lexeme_bounds(cfg.rules[i].matcher, input, pos),
            None => {},
        }
    }
}

/// The transitions of a scan that starts at `pos` and runs to the end of the input.
pub open spec fn trace_from<T>(cfg: Config<T>, input: Seq<char>, pos: int) -> Seq<Step<T>>
    decreases input.len() - pos,
{
    if 0 <= pos < input.len() {
        proof {
            lemma_step_advances(cfg, input, pos);
        }
        seq![step_at(cfg, input, pos)] + trace_from(cfg, input, step_at(cfg, input, pos).end)
    } else {
        Seq::empty()
    }
}

/// The tokens that the transitions of `trace` add, in order.
pub open spec fn tokens_of<T>(trace: Seq<Step<T>>) -> Seq<TokenView<T>>
    decreases trace.len(),
{
    if trace.len() == 0 {
        Seq::empty()
    } else {
        trace.first().emitted + tokens_of(trace.drop_first())
    }
}

/// The tokens of a scan that starts at `pos` and runs to the end of the input.
pub open spec fn tokens_from<T>(cfg: Config<T>, input: Seq<char>, pos: int) -> Seq<TokenView<T>> {
    tokens_of(trace_from(cfg, input, pos))
}

/// The tokens of a scan are those of its first transition, followed by those of
/// the scan that resumes where that transition ends.
pub proof fn lemma_tokens_from_unfold<T>(cfg: Config<T>, input: Seq<char>, pos: int)
    ensures
        0 <= pos < input.len() ==> tokens_from(cfg, input, pos) == step_at(cfg, input, pos).emitted
            + tokens_from(cfg, input, step_at(cfg, input, pos).end),
        !(0 <= pos < input.len()) ==> tokens_from(cfg, input, pos) == Seq::<TokenView<T>>::empty(),
{
    if 0 <= pos < input.len() {
        let step = step_at(cfg, input, pos);
        let rest = trace_from(cfg, input, step.end);
        let trace = trace_from(cfg, input, pos);
        assert(trace == seq![step] + rest);
        assert(trace.drop_first() == rest);
        assert(trace.first() == step);
    }
}

} // verus!
