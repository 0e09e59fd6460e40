use lexer::hook::{Hook, MarkerHook};
use lexer::token::Token;
use lexer::LexerCore;

fn scan_state(text: &str) -> LexerCore<u8> {
    LexerCore::new(text.chars().collect())
}

fn hook() -> MarkerHook<u8> {
    let mut hook = MarkerHook::new("#!");
    hook.with_literal("begin", 1);
    hook.with_literal("end", 2);
    hook
}

#[test]
fn marker_hook_emits_marker_and_word() {
    let mut state = scan_state("#!end rest");
    assert!(hook().handle(&mut state));
    assert_eq!(state.position(), 5);
    assert_eq!(state.tokens(), &vec![Token::new(2u8, "#!end", (0, 5), 1)]);
}

#[test]
fn marker_hook_leaves_unknown_words_untouched() {
    for text in ["#!ending", "#!en", "#!", "#?end", "#", "end", "# !end"] {
        let mut state = scan_state(text);
        assert!(!hook().handle(&mut state));
        assert_eq!(state.position(), 0);
        assert_eq!(state.line(), 1);
        assert_eq!(state.read_buffer(), "");
        assert!(state.tokens().is_empty());
    }
}

#[test]
fn marker_hook_word_ends_at_whitespace_and_control_characters() {
    for text in ["#!begin\tx", "#!begin\nx", "#!begin\u{1}x", "#!begin\u{a0}x", "#!begin"] {
        let mut state = scan_state(text);
        assert!(hook().handle(&mut state));
        assert_eq!(state.position(), 7);
        assert_eq!(state.tokens(), &vec![Token::new(1u8, "#!begin", (0, 7), 1)]);
    }
}

#[test]
fn marker_hook_first_of_equal_words_counts() {
    let mut hook = MarkerHook::new("@");
    hook.with_literal("x", 1u8);
    hook.with_literal("x", 2u8);
    let mut state = scan_state("@x");
    assert!(hook.handle(&mut state));
    assert_eq!(state.tokens(), &vec![Token::new(1u8, "@x", (0, 2), 1)]);
}

#[test]
fn marker_hook_reports_the_line_of_its_token() {
    let mut state = scan_state("\n\n#!end");
    state.consume();
    state.consume();
    assert!(hook().handle(&mut state));
    assert_eq!(state.tokens(), &vec![Token::new(2u8, "#!end", (2, 7), 3)]);
}

#[test]
fn marker_hook_with_empty_word() {
    let mut hook = MarkerHook::new("::");
    hook.with_literal("", 3u8);
    let mut state = scan_state(":: a");
    assert!(hook.handle(&mut state));
    assert_eq!(state.position(), 2);
    assert_eq!(state.tokens(), &vec![Token::new(3u8, "::", (0, 2), 1)]);
}

#[test]
fn marker_hook_without_marker_or_word_handles_nothing() {
    let mut hook = MarkerHook::new("");
    hook.with_literal("", 3u8);
    let mut state = scan_state(" a");
    assert!(!hook.handle(&mut state));
    assert_eq!(state.position(), 0);
}

fn listed_as_whitespace(c: char) -> bool {
    matches!(
        c as u32,
        0x09..=0x0d | 0x20 | 0x85 | 0xa0 | 0x1680 | 0x2000..=0x200a | 0x2028 | 0x2029 | 0x202f | 0x205f | 0x3000
    )
}

fn listed_as_control(c: char) -> bool {
    matches!(c as u32, 0x00..=0x1f | 0x7f..=0x9f)
}

#[test]
fn listed_whitespace_and_control_characters_are_those_of_the_standard_library() {
    for code in 0..=0x10ffffu32 {
        if let Some(c) = char::from_u32(code) {
            assert_eq!(listed_as_whitespace(c), c.is_whitespace(), "{:x}", code);
            assert_eq!(listed_as_control(c), c.is_control(), "{:x}", code);
        }
    }
}

#[test]
fn marker_hook_word_ends_exactly_at_listed_characters() {
    let hook = hook();
    for code in 0..=0x10ffffu32 {
        if let Some(c) = char::from_u32(code) {
            let mut state: LexerCore<u8> = LexerCore::new(vec!['#', '!', 'e', 'n', 'd', c, 'x']);
            let ends_word = listed_as_whitespace(c) || listed_as_control(c);
            assert_eq!(hook.handle(&mut state), ends_word, "{:x}", code);
            assert_eq!(state.position(), if ends_word { 5 } else { 0 });
        }
    }
}

#[test]
fn marker_hook_keeps_earlier_tokens() {
    let mut state = scan_state("ab #!end");
    state.push_consume();
    state.push_consume();
    state.emit(9, "ab");
    state.clear();
    state.consume();
    assert!(hook().handle(&mut state));
    assert_eq!(
        state.tokens(),
        &vec![Token::new(9u8, "ab", (0, 2), 1), Token::new(2u8, "#!end", (3, 8), 1)]
    );
}
