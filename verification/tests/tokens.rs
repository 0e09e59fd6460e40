use lexer::predicate::{Alphabetic, Alphanumeric, CharPredicate, Either, OneOf};
use lexer::text::chars_of;
use lexer::token::{Token, TokenProcess, ProcessType};
use lexer::LexerData;

#[test]
fn token_keeps_what_it_was_made_of() {
    let token = Token::new('t', "text", (2, 6), 3);
    assert_eq!(token.content(), "text");
    assert_eq!(*token.token_type(), 't');
    assert_eq!(token.span(), (2, 6));
    assert_eq!(token.line(), 3);
}

#[test]
fn change_type_changes_the_tag_only() {
    let mut token = Token::new(1u8, "word", (4, 8), 2);
    token.change_type(9);
    assert_eq!(token, Token::new(9u8, "word", (4, 8), 2));
}

#[test]
fn clone_of_a_token_is_equal() {
    let token = Token::new("tag".to_owned(), "word", (0, 4), 1);
    assert_eq!(token.clone(), token);
}

#[test]
fn tokens_differ_by_any_field() {
    let token = Token::new(1u8, "a", (0, 1), 1);
    assert_ne!(token, Token::new(2u8, "a", (0, 1), 1));
    assert_ne!(token, Token::new(1u8, "b", (0, 1), 1));
    assert_ne!(token, Token::new(1u8, "a", (0, 2), 1));
    assert_ne!(token, Token::new(1u8, "a", (0, 1), 2));
}

#[test]
fn token_process_holds_its_process() {
    let process = TokenProcess::new(ProcessType::CharacterSpecific('/', 2));
    assert!(matches!(process.process_type, ProcessType::CharacterSpecific('/', 2)));
    let process = TokenProcess::new(ProcessType::SpecificString("ab".to_owned()));
    assert!(matches!(process.process_type, ProcessType::SpecificString(text) if text == "ab"));
}

#[test]
fn lexer_data_starts_without_keywords() {
    let data: LexerData<u8> = LexerData::new(vec![(1, TokenProcess::new(ProcessType::CharacterSpecific('/', 2)))]);
    assert_eq!(data.conditionals.len(), 1);
    assert!(data.keywords.is_empty());
}

#[test]
fn reclassify_changes_the_tag_of_a_keyword() {
    let mut data: LexerData<u8> = LexerData::new(Vec::new());
    data.keywords = vec![("class".to_owned(), 5), ("pub".to_owned(), 6)];
    let mut token = Token::new(1u8, "pub", (10, 13), 4);
    data.reclassify(&mut token);
    assert_eq!(token, Token::new(6u8, "pub", (10, 13), 4));
}

#[test]
fn reclassify_leaves_other_tokens_alone() {
    let mut data: LexerData<u8> = LexerData::new(Vec::new());
    data.keywords = vec![("class".to_owned(), 5)];
    for text in ["Class", "clas", "classes", " class", ""] {
        let mut token = Token::new(1u8, text, (0, 5), 1);
        data.reclassify(&mut token);
        assert_eq!(token, Token::new(1u8, text, (0, 5), 1));
    }
}

#[test]
fn alphabetic_follows_the_standard_library() {
    assert!(Alphabetic.test('a'));
    assert!(Alphabetic.test('é'));
    assert!(!Alphabetic.test('1'));
    assert!(!Alphabetic.test('_'));
    assert!(!Alphabetic.test(' '));
}

#[test]
fn alphanumeric_follows_the_standard_library() {
    assert!(Alphanumeric.test('a'));
    assert!(Alphanumeric.test('7'));
    assert!(!Alphanumeric.test('-'));
    assert!(!Alphanumeric.test('\n'));
}

#[test]
fn one_of_accepts_listed_characters_only() {
    let set = OneOf { chars: vec!['_', '-'] };
    assert!(set.test('_'));
    assert!(set.test('-'));
    assert!(!set.test('a'));
    assert!(!OneOf { chars: Vec::new() }.test('a'));
}

#[test]
fn either_accepts_what_one_side_accepts() {
    let either = Either { first: Alphabetic, second: OneOf { chars: vec!['_'] } };
    assert!(either.test('x'));
    assert!(either.test('_'));
    assert!(!either.test('1'));
}

#[test]
fn chars_of_lists_characters_in_order() {
    assert_eq!(chars_of("añ→b"), vec!['a', 'ñ', '→', 'b']);
    assert_eq!(chars_of(""), Vec::<char>::new());
}
