//! Laws of the scanner, proved of the mathematical model that the contracts of
//! the executable functions speak of.

use vstd::prelude::*;
use crate::matching::lemma_run_accepted;
use crate::model::{hook_claims, lemma_first_match, lemma_run_bounds, lemma_step_advances,
    lemma_tokens_from_unfold, reclassified,
    lexeme_end, matches_at, rule_token, run_end, space_run_end, step_at, tokens_from, trace_from,
    Config, Rule, Step, StepKind};
use crate::token::{faithful_clone, same_token, same_tokens, Matcher, TokenView};

verus! {

/// Whether `step` is a transition that the scan may take over `input`: it
/// covers a stretch that is not empty, and what it emits fits its kind. A run
/// of spaces and a dropped character emit nothing, and a dropped character is
/// exactly one character. A matched rule emits one token, whose range is the
/// stretch and whose text is the input over that stretch.
pub open spec fn step_sound<T>(cfg: Config<T>, input: Seq<char>, step: Step<T>) -> bool {
    &&& 0 <= step.start < step.end <= input.len()
    &&& match step.kind {
        StepKind::Spaces => {
            &&& step.emitted.len() == 0
            &&& forall|k: int| step.start <= k < step.end ==> #[trigger] input[k] == ' '
        },
        StepKind::Hooked => true,
        StepKind::Matched(i) => {
            &&& 0 <= i < cfg.rules.len()
            &&& step.emitted.len() == 1
            &&& step.emitted[0].start == step.start
            &&& step.emitted[0].end == step.end
            &&& step.emitted[0].content == input.subrange(step.start, step.end)
        },
        StepKind::Discarded => step.emitted.len() == 0 && step.end == step.start + 1,
    }
}

/// Every character of a run of spaces is a space.
pub proof fn lemma_space_run_is_spaces(input: Seq<char>, pos: int)
    requires
        0 <= pos <= input.len(),
    ensures
        forall|k: int| pos <= k < space_run_end(input, pos) ==> #[trigger] input[k] == ' ',
    decreases input.len() - pos,
{
    if pos < input.len() && input[pos] == ' ' {
        lemma_space_run_is_spaces(input, pos + 1);
    }
}

/// The transition taken at any position before the end of the input is sound.
pub proof fn lemma_step_sound<T>(cfg: Config<T>, input: Seq<char>, pos: int)
    requires
        0 <= pos < input.len(),
    ensures
        step_sound(cfg, input, step_at(cfg, input, pos)),
{
    lemma_step_advances(cfg, input, pos);
    if input[pos] == ' ' {
        lemma_space_run_is_spaces(input, pos);
    } else if hook_claims(cfg.hook, input, pos) {
    } else {
        lemma_first_match(cfg.rules, input, pos, 0);
    }
}

/// The input is covered exactly once: the transitions of a scan that starts at
/// `pos` cover the input from `pos` to its end by stretches that are not empty,
/// each starting where the one before it ended, and each transition is sound.
/// So every character from `pos` on lies in exactly one stretch: the range of
/// a token that a rule produced, a run of skipped spaces, what the hook
/// handled, or a single dropped character. The cursor never moves backwards
/// from one transition to the next.
pub proof fn trace_covers_input<T>(cfg: Config<T>, input: Seq<char>, pos: int)
    requires
        0 <= pos <= input.len(),
    ensures
        ({
            let trace = trace_from(cfg, input, pos);
            &&& pos == input.len() <==> trace.len() == 0
            &&& pos < input.len() ==> trace.first().start == pos && trace.last().end == input.len()
            &&& forall|k: int| 0 <= k < trace.len() ==> step_sound(cfg, input, #[trigger] trace[k])
            &&& forall|k: int| 0 < k < trace.len() ==> (#[trigger] trace[k]).start == trace[k - 1].end
        }),
    decreases input.len() - pos,
{
    if pos < input.len() {
        let step = step_at(cfg, input, pos);
        let rest = trace_from(cfg, input, step.end);
        let trace = trace_from(cfg, input, pos);
        lemma_step_advances(cfg, input, pos);
        lemma_step_sound(cfg, input, pos);
        trace_covers_input(cfg, input, step.end);
        assert(trace == seq![step] + rest);
        assert(trace.first() == step);
        assert forall|k: int| 0 <= k < trace.len() implies step_sound(cfg, input, #[trigger] trace[k]) by {
            if k > 0 {
                assert(trace[k] == rest[k - 1]);
            }
        }
        assert forall|k: int| 0 < k < trace.len() implies (#[trigger] trace[k]).start == trace[k - 1].end by {
            assert(trace[k] == rest[k - 1]);
            if k > 1 {
                assert(trace[k - 1] == rest[k - 2]);
            }
        }
        if rest.len() > 0 {
            assert(trace.last() == rest.last());
        }
    }
}

/// `same_tokens` is symmetric.
pub proof fn lemma_same_tokens_symmetric<T: Clone>(a: Seq<TokenView<T>>, b: Seq<TokenView<T>>)
    requires
        same_tokens(a, b),
    ensures
        same_tokens(b, a),
{
    assert forall|i: int| 0 <= i < b.len() implies same_token(#[trigger] b[i], a[i]) by {
        assert(same_token(a[i], b[i]));
    }
}

/// A scan is deterministic: two results for one configuration and one input
/// are the same tokens, and are equal where cloning a tag is faithful.
pub proof fn runs_agree<T: Clone>(
    cfg: Config<T>,
    input: Seq<char>,
    first: Seq<TokenView<T>>,
    second: Seq<TokenView<T>>,
)
    requires
        same_tokens(first, tokens_from(cfg, input, 0)),
        same_tokens(second, tokens_from(cfg, input, 0)),
    ensures
        same_tokens(first, second),
        faithful_clone::<T>() ==> first == second,
{
    let expected = tokens_from(cfg, input, 0);
    lemma_same_tokens_symmetric(second, expected);
    crate::token::lemma_same_tokens_transitive(first, expected, second);
    if faithful_clone::<T>() {
        assert forall|i: int| 0 <= i < first.len() implies first[i] == second[i] by {
            assert(same_token(first[i], second[i]));
        }
        assert(first =~= second);
    }
}

/// A repeat rule for a character other than the newline and a count other than
/// zero matches exactly when the next `count` characters are all that
/// character. When it does not match, its lexeme is empty: the cursor stays
/// where it was and no token comes of it.
pub proof fn literal_repeat_matches_exactly(input: Seq<char>, pos: int, c: char, count: nat)
    requires
        0 <= pos <= input.len(),
        c != '\n',
        count > 0,
    ensures
        matches_at(Matcher::LiteralRepeat(c, count), input, pos) <==> pos + count <= input.len() && forall|
            k: int,
        | pos <= k < pos + count ==> #[trigger] input[k] == c,
        matches_at(Matcher::LiteralRepeat(c, count), input, pos) ==> lexeme_end(
            Matcher::LiteralRepeat(c, count),
            input,
            pos,
        ) == pos + count,
        !matches_at(Matcher::LiteralRepeat(c, count), input, pos) ==> lexeme_end(
            Matcher::LiteralRepeat(c, count),
            input,
            pos,
        ) == pos,
{
}

/// A greedy rule consumes the longest run of accepted characters that stands
/// at the cursor and holds no newline: every character of the run is accepted,
/// and the run ends at the end of the input, before a newline, or before a
/// character that is not accepted. The rule matches exactly when that run is
/// not empty, so its token is never empty.
pub proof fn predicate_run_is_maximal(input: Seq<char>, pos: int, accepts: spec_fn(char) -> bool)
    requires
        0 <= pos <= input.len(),
    ensures
        ({
            let end = run_end(input, pos, accepts);
            &&& pos <= end <= input.len()
            &&& forall|k: int| pos <= k < end ==> accepts(#[trigger] input[k]) && input[k] != '\n'
            &&& end == input.len() || input[end] == '\n' || !accepts(input[end])
            &&& !accepts('\n') ==> end == input.len() || !accepts(input[end])
            &&& lexeme_end(Matcher::Predicate(accepts), input, pos) == end
            &&& matches_at(Matcher::Predicate(accepts), input, pos) <==> end > pos
        }),
{
    lemma_run_bounds(input, pos, accepts);
    lemma_run_accepted(input, pos, accepts);
    lemma_run_stops(input, pos, accepts);
}

/// A greedy run ends at the end of the input, before a newline, or before a
/// character that is not accepted.
pub proof fn lemma_run_stops(input: Seq<char>, pos: int, accepts: spec_fn(char) -> bool)
    requires
        0 <= pos <= input.len(),
    ensures
        ({
            let end = run_end(input, pos, accepts);
            end == input.len() || input[end] == '\n' || !accepts(input[end])
        }),
    decreases input.len() - pos,
{
    if pos < input.len() && input[pos] != '\n' && accepts(input[pos]) {
        lemma_run_stops(input, pos + 1, accepts);
    }
}

/// The keyword table changes the tag of a rule's token exactly when the text
/// of the token is a keyword, to the tag listed for that text; text, range and
/// line are what they are without any keyword table.
pub proof fn keywords_change_only_the_tag<T>(
    rules: Seq<Rule<T>>,
    keywords: Map<Seq<char>, T>,
    input: Seq<char>,
    pos: int,
    i: int,
)
    ensures
        ({
            let token = rule_token(rules, keywords, input, pos, i);
            let plain = rule_token(rules, Map::empty(), input, pos, i);
            &&& token.content == plain.content
            &&& token.start == plain.start
            &&& token.end == plain.end
            &&& token.line == plain.line
            &&& plain.token_type == rules[i].token_type
            &&& keywords.dom().contains(token.content) ==> token.token_type == keywords[token.content]
            &&& !keywords.dom().contains(token.content) ==> token.token_type == rules[i].token_type
        }),
{
}

/// `token` with the tag that the keyword table gives to its text, if it gives
/// one.
pub open spec fn reclassified_token<T>(keywords: Map<Seq<char>, T>, token: TokenView<T>) -> TokenView<T> {
    TokenView { token_type: reclassified(keywords, token.content, token.token_type), ..token }
}

/// Keywords change tags and nothing else, over a whole scan: with and without
/// the keyword table a scan yields as many tokens, with the same text, range
/// and line at every place. In a scan without a hook each token is the token
/// of the scan without keywords, reclassified: it has the keyword's tag if its
/// text is a keyword, and the tag of its rule if not.
pub proof fn keywords_only_change_tags_of_a_run<T>(cfg: Config<T>, input: Seq<char>, pos: int)
    requires
        0 <= pos <= input.len(),
    ensures
        ({
            let with = tokens_from(cfg, input, pos);
            let without = tokens_from(Config { keywords: Map::empty(), ..cfg }, input, pos);
            &&& with.len() == without.len()
            &&& forall|i: int|
                0 <= i < with.len() ==> {
                    &&& (#[trigger] with[i]).content == without[i].content
                    &&& with[i].start == without[i].start
                    &&& with[i].end == without[i].end
                    &&& with[i].line == without[i].line
                }
            &&& cfg.hook is None ==> forall|i: int|
                0 <= i < with.len() ==> #[trigger] with[i] == reclassified_token(cfg.keywords, without[i])
        }),
    decreases input.len() - pos,
{
    let plain = Config { keywords: Map::empty(), ..cfg };
    lemma_tokens_from_unfold(cfg, input, pos);
    lemma_tokens_from_unfold(plain, input, pos);
    if pos < input.len() {
        let step = step_at(cfg, input, pos);
        let plain_step = step_at(plain, input, pos);
        lemma_step_advances(cfg, input, pos);
        lemma_first_match(cfg.rules, input, pos, 0);
        assert(plain_step.end == step.end);
        assert(plain_step.emitted.len() == step.emitted.len());
        keywords_only_change_tags_of_a_run(cfg, input, step.end);
        let with = tokens_from(cfg, input, pos);
        let without = tokens_from(plain, input, pos);
        let rest = tokens_from(cfg, input, step.end);
        let plain_rest = tokens_from(plain, input, step.end);
        assert(with == step.emitted + rest);
        assert(without == plain_step.emitted + plain_rest);
        assert forall|i: int| 0 <= i < with.len() implies {
            &&& (#[trigger] with[i]).content == without[i].content
            &&& with[i].start == without[i].start
            &&& with[i].end == without[i].end
            &&& with[i].line == without[i].line
            &&& cfg.hook is None ==> with[i] == reclassified_token(cfg.keywords, without[i])
        } by {
            if i < step.emitted.len() {
                assert(with[i] == step.emitted[i]);
                assert(without[i] == plain_step.emitted[i]);
            } else {
                assert(with[i] == rest[i - step.emitted.len()]);
                assert(without[i] == plain_rest[i - step.emitted.len()]);
            }
        }
    }
}

/// In a scan without a hook the tokens come in the order of the input and do
/// not overlap: each lies inside the input from `pos` on, is not empty, and
/// starts no earlier than the one before it ends.
pub proof fn rule_tokens_are_ordered<T>(cfg: Config<T>, input: Seq<char>, pos: int)
    requires
        0 <= pos <= input.len(),
        cfg.hook is None,
    ensures
        ({
            let tokens = tokens_from(cfg, input, pos);
            &&& forall|i: int|
                0 <= i < tokens.len() ==> pos <= (#[trigger] tokens[i]).start < tokens[i].end <= input.len()
            &&& forall|i: int| 0 < i < tokens.len() ==> tokens[i - 1].end <= (#[trigger] tokens[i]).start
        }),
    decreases input.len() - pos,
{
    lemma_tokens_from_unfold(cfg, input, pos);
    if pos < input.len() {
        let step = step_at(cfg, input, pos);
        lemma_step_sound(cfg, input, pos);
        rule_tokens_are_ordered(cfg, input, step.end);
        let tokens = tokens_from(cfg, input, pos);
        let rest = tokens_from(cfg, input, step.end);
        assert(tokens == step.emitted + rest);
        assert forall|i: int| 0 <= i < tokens.len() implies pos <= (#[trigger] tokens[i]).start
            < tokens[i].end <= input.len() by {
            if i < step.emitted.len() {
                assert(tokens[i] == step.emitted[i]);
            } else {
                assert(tokens[i] == rest[i - step.emitted.len()]);
            }
        }
        assert forall|i: int| 0 < i < tokens.len() implies tokens[i - 1].end <= (#[trigger] tokens[i]).start by {
            assert(tokens[i] == rest[i - step.emitted.len()]);
            if i - 1 < step.emitted.len() {
                assert(tokens[i - 1] == step.emitted[i - 1]);
            } else {
                assert(tokens[i - 1] == rest[i - 1 - step.emitted.len()]);
            }
        }
    }
}

/// The hook has priority over every rule: where the hook takes a position, the
/// transition is the hook's, whatever the rules and the keywords are.
pub proof fn hook_has_priority<T>(cfg: Config<T>, other: Config<T>, input: Seq<char>, pos: int)
    requires
        0 <= pos < input.len(),
        input[pos] != ' ',
        hook_claims(cfg.hook, input, pos),
        other.hook == cfg.hook,
    ensures
        step_at(cfg, input, pos).kind == StepKind::Hooked,
        step_at(cfg, input, pos).end == (cfg.hook->0.resume)(input, pos),
        step_at(cfg, input, pos).emitted == (cfg.hook->0.emits)(input, pos),
        step_at(other, input, pos) == step_at(cfg, input, pos),
{
}

/// A character that is no space, that the hook does not take and that no rule
/// matches is dropped: the transition covers that one character and emits
/// nothing.
pub proof fn unmatched_character_is_dropped<T>(cfg: Config<T>, input: Seq<char>, pos: int)
    requires
        0 <= pos < input.len(),
        input[pos] != ' ',
        !hook_claims(cfg.hook, input, pos),
        forall|j: int| 0 <= j < cfg.rules.len() ==> !matches_at(#[trigger] cfg.rules[j].matcher, input, pos),
    ensures
        step_at(cfg, input, pos).kind == StepKind::Discarded,
        step_at(cfg, input, pos).end == pos + 1,
        step_at(cfg, input, pos).emitted.len() == 0,
{
    lemma_first_match(cfg.rules, input, pos, 0);
}

/// A scan ends: from `pos` it takes at most one transition for each character
/// that is left.
pub proof fn trace_is_bounded<T>(cfg: Config<T>, input: Seq<char>, pos: int)
    requires
        0 <= pos <= input.len(),
    ensures
        trace_from(cfg, input, pos).len() <= input.len() - pos,
    decreases input.len() - pos,
{
    if pos < input.len() {
        lemma_step_advances(cfg, input, pos);
        trace_is_bounded(cfg, input, step_at(cfg, input, pos).end);
    }
}

} // verus!
