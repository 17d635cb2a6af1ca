use refdoc::error::{Delimiter, Expected, ParseError};
use refdoc::lexer::tokenize;
use refdoc::parameter::{const_pointer, parameter_of, parse, pointer, value, Parameter, Type};
use refdoc::token::Token;

#[test]
fn parse_multi_value_parameters() {
    let tokens = tokenize("uint buffer, enum internalformat, enum format, enum type)").unwrap();
    let mut ts: &[Token] = tokens.as_ref();
    let result = parse(&mut ts).unwrap();

    let expected = [
        value("uint", "buffer"),
        value("enum", "internalformat"),
        value("enum", "format"),
        value("enum", "type"),
    ];

    assert_eq!(result.len(), expected.len());
    for (result, expected) in result.into_iter().zip(expected) {
        assert_eq!(result, expected);
    }
}

#[test]
fn parse_multi_pointer_parameters() {
    let tokens = tokenize("uint* buffer, void *data);").unwrap();
    let mut ts: &[Token] = tokens.as_ref();
    let result = parse(&mut ts).unwrap();

    let expected = [pointer("uint", "buffer"), pointer("void", "data")];

    assert_eq!(result.len(), expected.len());
    for (result, expected) in result.into_iter().zip(expected) {
        assert_eq!(result, expected);
    }
}

#[test]
fn constructors_set_type_and_name() {
    assert_eq!(value("int", "x"), Parameter { ty: Type::Value("int"), ident: "x" });
    assert_eq!(pointer("int", "x"), Parameter { ty: Type::Pointer("int"), ident: "x" });
    assert_eq!(const_pointer("int", "x"), Parameter { ty: Type::ConstPointer("int"), ident: "x" });
}

#[test]
fn each_shape_gives_back_its_parts() {
    let v = [Token::Text("sizei"), Token::Text("count")];
    assert_eq!(parameter_of(&v), Some(value("sizei", "count")));
    let p = [Token::Text("void"), Token::Asterisk, Token::Text("data")];
    assert_eq!(parameter_of(&p), Some(pointer("void", "data")));
    let c = [Token::Text("const"), Token::Text("uint"), Token::Asterisk, Token::Text("buffers")];
    assert_eq!(parameter_of(&c), Some(const_pointer("uint", "buffers")));
}

#[test]
fn four_tokens_need_the_const_qualifier() {
    let c = [Token::Text("static"), Token::Text("uint"), Token::Asterisk, Token::Text("buffers")];
    assert_eq!(parameter_of(&c), None);
}

#[test]
fn const_alone_is_a_type_name() {
    let v = [Token::Text("const"), Token::Text("x")];
    assert_eq!(parameter_of(&v), Some(value("const", "x")));
}

#[test]
fn three_text_runs_are_no_parameter() {
    let slice = [Token::Text("a"), Token::Text("b"), Token::Text("c")];
    assert_eq!(parameter_of(&slice), None);

    let tokens = tokenize("int x, a b c, int y) rest").unwrap();
    let mut ts: &[Token] = tokens.as_ref();
    let result = parse(&mut ts);
    assert_eq!(
        result,
        Err(ParseError::UnexpectedTokenShape {
            expected: Expected::Parameter,
            found: slice.to_vec(),
        })
    );
    assert_eq!(ts, &tokens[..]);
}

#[test]
fn parameters_keep_their_order() {
    let tokens = tokenize("int a, int b, int c)").unwrap();
    let mut ts: &[Token] = tokens.as_ref();
    let result = parse(&mut ts).unwrap();
    assert_eq!(result, vec![value("int", "a"), value("int", "b"), value("int", "c")]);
    assert!(ts.is_empty());
}

#[test]
fn mixed_shapes_in_one_list() {
    let tokens = tokenize("enum target, const uint *buffers, void* data) ; next").unwrap();
    let mut ts: &[Token] = tokens.as_ref();
    let result = parse(&mut ts).unwrap();
    assert_eq!(
        result,
        vec![value("enum", "target"), const_pointer("uint", "buffers"), pointer("void", "data")]
    );
    assert_eq!(ts, &[Token::Semicolon, Token::Text("next")]);
}

#[test]
fn missing_closing_parenthesis() {
    let tokens = tokenize("int a, int b").unwrap();
    let mut ts: &[Token] = tokens.as_ref();
    let result = parse(&mut ts);
    assert_eq!(
        result,
        Err(ParseError::MissingDelimiter {
            expected: Delimiter::ClosingParenthesis,
            remaining: tokens.clone(),
        })
    );
    assert_eq!(ts, &tokens[..]);
}

#[test]
fn empty_list_is_an_empty_slice() {
    let tokens = tokenize(")").unwrap();
    let mut ts: &[Token] = tokens.as_ref();
    let result = parse(&mut ts);
    assert_eq!(
        result,
        Err(ParseError::UnexpectedTokenShape { expected: Expected::Parameter, found: vec![] })
    );
}

#[test]
fn trailing_comma_leaves_an_empty_slice() {
    let tokens = tokenize("int a,)").unwrap();
    let mut ts: &[Token] = tokens.as_ref();
    let result = parse(&mut ts);
    assert_eq!(
        result,
        Err(ParseError::UnexpectedTokenShape { expected: Expected::Parameter, found: vec![] })
    );
}

#[test]
fn list_ends_at_its_own_parenthesis() {
    let tokens = tokenize("int a) int b)").unwrap();
    let mut ts: &[Token] = tokens.as_ref();
    let result = parse(&mut ts).unwrap();
    assert_eq!(result, vec![value("int", "a")]);
    assert_eq!(ts, &tokens[3..]);
}

#[test]
fn nested_parentheses_are_refused() {
    let tokens = tokenize("int (*f)(int), int x)").unwrap();
    let mut ts: &[Token] = tokens.as_ref();
    let result = parse(&mut ts);
    assert_eq!(
        result,
        Err(ParseError::UnexpectedTokenShape {
            expected: Expected::Parameter,
            found: tokens[..8].to_vec(),
        })
    );
    assert_eq!(ts, &tokens[..]);
}

#[test]
fn commas_inside_parentheses_do_not_split() {
    let tokens = tokenize("int x, void (int a, int b), int y) z").unwrap();
    let mut ts: &[Token] = tokens.as_ref();
    let result = parse(&mut ts);
    assert_eq!(
        result,
        Err(ParseError::UnexpectedTokenShape {
            expected: Expected::Parameter,
            found: tokens[3..11].to_vec(),
        })
    );
}

#[test]
fn parenthesis_of_an_inner_pair_closes_no_list() {
    let tokens = tokenize("int a ( )").unwrap();
    let mut ts: &[Token] = tokens.as_ref();
    let result = parse(&mut ts);
    assert_eq!(
        result,
        Err(ParseError::MissingDelimiter {
            expected: Delimiter::ClosingParenthesis,
            remaining: tokens.clone(),
        })
    );
}
