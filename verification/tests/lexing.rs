use refdoc::error::LexError;
use refdoc::lexer::tokenize;
use refdoc::token::Token;

#[test]
fn punctuation_marks() {
    assert_eq!(
        tokenize("()[]{},.:;*"),
        Ok(vec![
            Token::OpeningParenthesis,
            Token::ClosingParenthesis,
            Token::OpeningBrace,
            Token::ClosingBrace,
            Token::OpeningBracket,
            Token::ClosingBracket,
            Token::Comma,
            Token::Period,
            Token::Colon,
            Token::Semicolon,
            Token::Asterisk,
        ])
    );
}

#[test]
fn blanks_are_skipped() {
    assert_eq!(tokenize(""), Ok(vec![]));
    assert_eq!(tokenize(" \t\n\u{c} "), Ok(vec![]));
    assert_eq!(
        tokenize("\tvoid\n*\u{c}data "),
        Ok(vec![Token::Text("void"), Token::Asterisk, Token::Text("data")])
    );
}

#[test]
fn numbers_and_text_runs() {
    assert_eq!(
        tokenize("core/4.6 section_12 007"),
        Ok(vec![
            Token::Text("core/"),
            Token::Number(4),
            Token::Period,
            Token::Number(6),
            Token::Text("section_"),
            Token::Number(12),
            Token::Number(7),
        ])
    );
}

#[test]
fn runs_are_maximal() {
    assert_eq!(
        tokenize("abc123def"),
        Ok(vec![Token::Text("abc"), Token::Number(123), Token::Text("def")])
    );
}

#[test]
fn largest_number() {
    assert_eq!(tokenize("18446744073709551615"), Ok(vec![Token::Number(u64::MAX)]));
    assert_eq!(tokenize("000018446744073709551615"), Ok(vec![Token::Number(u64::MAX)]));
}

#[test]
fn number_out_of_range() {
    assert_eq!(
        tokenize("x 18446744073709551616 y"),
        Err(LexError::NumberOutOfRange { digits: "18446744073709551616", position: 2 })
    );
    assert_eq!(
        tokenize("99999999999999999999999"),
        Err(LexError::NumberOutOfRange { digits: "99999999999999999999999", position: 0 })
    );
}

#[test]
fn unexpected_character() {
    assert_eq!(
        tokenize("int x = 3"),
        Err(LexError::UnexpectedCharacter { character: '=', position: 6 })
    );
    assert_eq!(tokenize("#"), Err(LexError::UnexpectedCharacter { character: '#', position: 0 }));
}

#[test]
fn character_outside_ascii() {
    assert_eq!(
        tokenize("ab \u{e9}t\u{e9}"),
        Err(LexError::UnexpectedCharacter { character: '\u{e9}', position: 3 })
    );
    assert_eq!(
        tokenize("\u{1f600}"),
        Err(LexError::UnexpectedCharacter { character: '\u{1f600}', position: 0 })
    );
}

#[test]
fn first_error_wins() {
    assert_eq!(
        tokenize("a ? 99999999999999999999999"),
        Err(LexError::UnexpectedCharacter { character: '?', position: 2 })
    );
}

#[test]
fn lexing_twice_gives_the_same_tokens() {
    let source = "void *MapBufferRange(enum target, intptr offset);";
    assert_eq!(tokenize(source), tokenize(source));
    let copy = String::from(source);
    assert_eq!(tokenize(source), tokenize(&copy));
}

#[test]
fn tokens_compare_by_what_they_hold() {
    assert!(Token::Text("ab").same(&Token::Text("ab")));
    assert!(!Token::Text("ab").same(&Token::Text("abc")));
    assert!(!Token::Text("ab").same(&Token::Number(1)));
    assert!(Token::Number(7).same(&Token::Number(7)));
    assert!(!Token::Number(7).same(&Token::Number(8)));
    assert!(Token::Comma.same(&Token::Comma));
    assert!(!Token::Comma.same(&Token::Colon));
    assert!(!Token::Comma.same(&Token::Text(",")));
}

#[test]
fn markers_of_tokens() {
    assert_eq!(Token::OpeningBracket.marker(), Some('{'));
    assert_eq!(Token::ClosingBrace.marker(), Some(']'));
    assert_eq!(Token::Text("x").marker(), None);
    assert_eq!(Token::Number(1).marker(), None);
    let all = "()[]{},.:;*";
    let tokens = tokenize(all).unwrap();
    let markers: String = tokens.iter().map(|t| t.marker().unwrap()).collect();
    assert_eq!(markers, all);
}
