use lexer::predicate::{Alphabetic, Alphanumeric};
use lexer::token::{ProcessType, Token, TokenProcess};
use lexer::{LexerCore, LexerData};

fn scan_state(text: &str) -> LexerCore<u8> {
    LexerCore::new(text.chars().collect())
}

#[test]
fn new_core_starts_at_line_one() {
    let state = scan_state("abc");
    assert_eq!(state.position(), 0);
    assert_eq!(state.line(), 1);
    assert_eq!(state.input_len(), 3);
    assert_eq!(state.read_buffer(), "");
    assert!(state.tokens().is_empty());
}

#[test]
fn peek_reads_without_moving() {
    let state = scan_state("ab");
    assert_eq!(state.peek(), Some('a'));
    assert_eq!(state.peek(), Some('a'));
    assert_eq!(state.position(), 0);
}

#[test]
fn peek_on_empty_input_is_none() {
    let state = scan_state("");
    assert_eq!(state.peek(), None);
    assert_eq!(state.peek_at(0), None);
}

#[test]
fn peek_at_looks_ahead_within_bounds() {
    let mut state = scan_state("abc");
    assert_eq!(state.peek_at(0), Some('a'));
    assert_eq!(state.peek_at(2), Some('c'));
    assert_eq!(state.peek_at(3), None);
    assert_eq!(state.peek_at(usize::MAX), None);
    state.consume();
    assert_eq!(state.peek_at(1), Some('c'));
    assert_eq!(state.peek_at(2), None);
}

#[test]
fn consume_reads_and_advances() {
    let mut state = scan_state("ab");
    assert_eq!(state.consume(), Some('a'));
    assert_eq!(state.consume(), Some('b'));
    assert_eq!(state.position(), 2);
    assert_eq!(state.consume(), None);
    assert_eq!(state.position(), 2);
    assert_eq!(state.read_buffer(), "");
}

#[test]
fn consume_on_empty_input_is_none() {
    let mut state = scan_state("");
    assert_eq!(state.consume(), None);
    assert_eq!(state.position(), 0);
    assert_eq!(state.line(), 1);
}

#[test]
fn consume_counts_newlines() {
    let mut state = scan_state("\na\n");
    state.consume();
    assert_eq!(state.line(), 2);
    state.consume();
    assert_eq!(state.line(), 2);
    state.consume();
    assert_eq!(state.line(), 3);
}

#[test]
fn push_consume_fills_the_buffer() {
    let mut state = scan_state("xy");
    state.push_consume();
    assert_eq!(state.read_buffer(), "x");
    state.push_consume();
    assert_eq!(state.read_buffer(), "xy");
    state.push_consume();
    assert_eq!(state.read_buffer(), "xy");
    assert_eq!(state.position(), 2);
}

#[test]
fn clear_empties_the_buffer_only() {
    let mut state = scan_state("xy");
    state.push_consume();
    state.clear();
    assert_eq!(state.read_buffer(), "");
    assert_eq!(state.position(), 1);
}

#[test]
fn read_buffer_keeps_character_order() {
    let mut state = scan_state("héllo wörld");
    for _ in 0..5 {
        state.push_consume();
    }
    assert_eq!(state.read_buffer(), "héllo");
}

#[test]
fn new_token_is_placed_by_the_buffer() {
    let mut state = scan_state("ab\ncd");
    state.consume();
    state.consume();
    state.consume();
    state.push_consume();
    state.push_consume();
    let token = state.new_token(9, "cd");
    assert_eq!(token, Token::new(9, "cd", (3, 5), 2));
    assert!(state.tokens().is_empty());
    assert_eq!(state.position(), 5);
}

#[test]
fn emit_adds_a_token_to_the_sink() {
    let mut state = scan_state("abc");
    state.push_consume();
    state.push_consume();
    state.emit(4, "synthetic");
    assert_eq!(state.tokens(), &vec![Token::new(4, "synthetic", (0, 2), 1)]);
    assert_eq!(state.read_buffer(), "ab");
}

#[test]
fn backtrack_restores_cursor_and_line() {
    let mut state = scan_state("a\nb\nc");
    for _ in 0..4 {
        state.push_consume();
    }
    assert_eq!(state.line(), 3);
    state.backtrack(3);
    assert_eq!(state.position(), 1);
    assert_eq!(state.line(), 1);
    assert_eq!(state.read_buffer(), "");
    assert_eq!(state.peek(), Some('\n'));
}

#[test]
fn backtrack_is_bounded_by_the_start() {
    let mut state = scan_state("\n\n");
    state.consume();
    state.consume();
    state.backtrack(10);
    assert_eq!(state.position(), 0);
    assert_eq!(state.line(), 1);
}

#[test]
fn consume_n_is_all_or_nothing() {
    let mut state = scan_state("ab\ncd");
    assert_eq!(state.consume_n(6), None);
    assert_eq!(state.position(), 0);
    assert_eq!(state.consume_n(3), Some("ab\n".to_owned()));
    assert_eq!(state.position(), 3);
    assert_eq!(state.line(), 2);
    assert_eq!(state.read_buffer(), "");
    assert_eq!(state.consume_n(0), Some(String::new()));
    assert_eq!(state.consume_n(usize::MAX), None);
    assert_eq!(state.consume_n(2), Some("cd".to_owned()));
    assert_eq!(state.consume_n(1), None);
}

#[test]
fn consume_string_takes_the_whole_text() {
    let mut state = scan_state("let x");
    assert!(state.consume_string("let"));
    assert_eq!(state.position(), 3);
    assert_eq!(state.read_buffer(), "let");
}

#[test]
fn consume_string_rolls_back_on_mismatch() {
    let mut state = scan_state("lex x");
    assert!(!state.consume_string("let"));
    assert_eq!(state.position(), 0);
    assert_eq!(state.read_buffer(), "");
    assert_eq!(state.peek(), Some('l'));
}

#[test]
fn consume_string_fails_when_the_input_ends_early() {
    let mut state = scan_state("le");
    assert!(!state.consume_string("let"));
    assert_eq!(state.position(), 0);
    assert_eq!(state.read_buffer(), "");
}

#[test]
fn consume_string_fails_on_empty_text() {
    let mut state = scan_state("abc");
    assert!(!state.consume_string(""));
    assert_eq!(state.position(), 0);
}

#[test]
fn empty_text_leaves_the_state_as_it_was() {
    let mut state = scan_state("a\nbc");
    state.push_consume();
    state.push_consume();
    state.emit(3, "a");
    assert!(!state.consume_string(""));
    assert_eq!(state.position(), 2);
    assert_eq!(state.line(), 2);
    assert_eq!(state.read_buffer(), "a\n");
    assert_eq!(state.tokens(), &vec![Token::new(3, "a", (0, 2), 2)]);
}

#[test]
fn repeat_of_zero_leaves_the_state_as_it_was() {
    let mut state = scan_state("abc");
    state.push_consume();
    assert!(!state.consume_repeat('b', 0));
    assert_eq!(state.position(), 1);
    assert_eq!(state.read_buffer(), "a");
}

#[test]
fn failed_repeat_empties_the_buffer() {
    let mut state = scan_state("abbc");
    state.push_consume();
    assert!(!state.consume_repeat('b', 3));
    assert_eq!(state.position(), 1);
    assert_eq!(state.read_buffer(), "");
    let mut state = scan_state("a\n\n");
    state.push_consume();
    assert!(!state.consume_repeat('\n', 2));
    assert_eq!(state.position(), 1);
    assert_eq!(state.line(), 1);
    assert_eq!(state.read_buffer(), "");
}

#[test]
fn failed_consume_string_empties_the_buffer() {
    let mut state = scan_state("abcd");
    state.push_consume();
    assert!(!state.consume_string("bd"));
    assert_eq!(state.position(), 1);
    assert_eq!(state.read_buffer(), "");
}

#[test]
fn consume_repeat_matches_a_full_window() {
    let mut state = scan_state("///x");
    assert!(state.consume_repeat('/', 3));
    assert_eq!(state.position(), 3);
    assert_eq!(state.read_buffer(), "///");
}

#[test]
fn consume_repeat_leaves_the_cursor_on_any_mismatch() {
    for text in ["x//", "/x/", "//x", "//", ""] {
        let mut state = scan_state(text);
        assert!(!state.consume_repeat('/', 3));
        assert_eq!(state.position(), 0);
        assert_eq!(state.read_buffer(), "");
        assert!(state.tokens().is_empty());
    }
}

#[test]
fn consume_repeat_of_zero_fails() {
    let mut state = scan_state("aaa");
    assert!(!state.consume_repeat('a', 0));
    assert_eq!(state.position(), 0);
}

#[test]
fn consume_while_condition_takes_the_longest_run() {
    let mut state = scan_state("abc1d");
    assert!(state.consume_while_condition(&Alphabetic));
    assert_eq!(state.position(), 3);
    assert_eq!(state.read_buffer(), "abc");
    assert_eq!(state.peek(), Some('1'));
}

#[test]
fn consume_while_condition_runs_to_the_end() {
    let mut state = scan_state("ab12");
    assert!(state.consume_while_condition(&Alphanumeric));
    assert_eq!(state.position(), 4);
    assert_eq!(state.peek(), None);
}

#[test]
fn consume_while_condition_fails_on_an_empty_run() {
    let mut state = scan_state("1abc");
    assert!(!state.consume_while_condition(&Alphabetic));
    assert_eq!(state.position(), 0);
    assert_eq!(state.read_buffer(), "");
    let mut at_end = scan_state("");
    assert!(!at_end.consume_while_condition(&Alphabetic));
}

#[test]
fn skip_spaces_stops_at_other_whitespace() {
    let mut state = scan_state("   \t a");
    state.skip_spaces();
    assert_eq!(state.position(), 3);
    assert_eq!(state.line(), 1);
    assert_eq!(state.read_buffer(), "");
    state.skip_spaces();
    assert_eq!(state.position(), 3);
}

#[test]
fn make_token_takes_the_first_rule_that_matches() {
    let data = LexerData::new(vec![
        (1u8, TokenProcess::new(ProcessType::CharacterSpecific('/', 2))),
        (2u8, TokenProcess::new(ProcessType::SpecificString("/*".to_owned()))),
        (3u8, TokenProcess::new(ProcessType::KeepCollecting(Box::new(Alphabetic)))),
    ]);
    let mut state = scan_state("/*ab//");
    assert_eq!(state.make_token(&data), Some(Token::new(2, "/*", (0, 2), 1)));
    assert_eq!(state.read_buffer(), "");
    assert_eq!(state.make_token(&data), Some(Token::new(3, "ab", (2, 4), 1)));
    assert_eq!(state.make_token(&data), Some(Token::new(1, "//", (4, 6), 1)));
    assert_eq!(state.make_token(&data), None);
    assert!(state.tokens().is_empty());
}

#[test]
fn make_token_without_match_leaves_the_cursor() {
    let data = LexerData::new(vec![(1u8, TokenProcess::new(ProcessType::CharacterSpecific('/', 2)))]);
    let mut state = scan_state("/x");
    assert_eq!(state.make_token(&data), None);
    assert_eq!(state.position(), 0);
    assert_eq!(state.read_buffer(), "");
}

#[test]
fn make_token_applies_the_keyword_table() {
    let mut data = LexerData::new(vec![(1u8, TokenProcess::new(ProcessType::KeepCollecting(Box::new(Alphabetic))))]);
    data.keywords = vec![("if".to_owned(), 7u8)];
    let mut state = scan_state("if iff");
    assert_eq!(state.make_token(&data), Some(Token::new(7, "if", (0, 2), 1)));
    state.skip_spaces();
    assert_eq!(state.make_token(&data), Some(Token::new(1, "iff", (3, 6), 1)));
}
