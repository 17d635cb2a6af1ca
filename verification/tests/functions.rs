use refdoc::error::{Delimiter, Expected, ParseError};
use refdoc::function::{parse, return_type, Function};
use refdoc::lexer::tokenize;
use refdoc::parameter::{const_pointer, value, Type};
use refdoc::token::Token;

#[test]
pub fn value_return() {
    let tokens = tokenize("void BindBuffersRange(enum target, uint first, sizei count,const uint *buffers, const intptr *offsets, const sizeiptr *size);").unwrap();
    let mut ts: &[Token] = tokens.as_ref();

    let function = parse(&mut ts).unwrap();

    assert_eq!(function.return_type, Type::Value("void"));
    assert_eq!(function.ident, "BindBuffersRange");
    assert_eq!(ts.first(), Some(&Token::Semicolon));
}

#[test]
pub fn pointer_return() {
    let tokens = tokenize(
        "void *MapBufferRange(enum target, intptr offset, sizeiptr length, bitfield access);",
    )
    .unwrap();
    let mut ts: &[Token] = tokens.as_ref();

    let function = parse(&mut ts).unwrap();

    assert_eq!(function.return_type, Type::Pointer("void"));
    assert_eq!(function.ident, "MapBufferRange");
    assert_eq!(ts.first(), Some(&Token::Semicolon));
}

#[test]
fn const_pointer_return() {
    let tokens = tokenize("const ubyte *GetString(enum name); void Next(int x);").unwrap();
    let mut ts: &[Token] = tokens.as_ref();
    let function = parse(&mut ts).unwrap();
    assert_eq!(
        function,
        Function {
            return_type: Type::ConstPointer("ubyte"),
            ident: "GetString",
            params: vec![value("enum", "name")],
        }
    );
    assert_eq!(ts, &tokens[8..]);
    assert_eq!(ts.first(), Some(&Token::Semicolon));
}

#[test]
fn whole_signature() {
    let tokens = tokenize("void BindBuffersRange(enum target, uint first, sizei count,const uint *buffers, const intptr *offsets, const sizeiptr *size);").unwrap();
    let mut ts: &[Token] = tokens.as_ref();
    let function = parse(&mut ts).unwrap();
    assert_eq!(
        function.params,
        vec![
            value("enum", "target"),
            value("uint", "first"),
            value("sizei", "count"),
            const_pointer("uint", "buffers"),
            const_pointer("intptr", "offsets"),
            const_pointer("sizeiptr", "size"),
        ]
    );
}

#[test]
fn cursor_stops_at_the_semicolon() {
    let tokens = tokenize("void Foo(int x);").unwrap();
    let mut ts: &[Token] = tokens.as_ref();
    let function = parse(&mut ts).unwrap();
    assert_eq!(function.ident, "Foo");
    assert_eq!(ts, &[Token::Semicolon]);
}

#[test]
fn declarations_chain() {
    let tokens = tokenize("void A(int x) int *B(int y)").unwrap();
    let mut ts: &[Token] = tokens.as_ref();
    let a = parse(&mut ts).unwrap();
    let b = parse(&mut ts).unwrap();
    assert_eq!(a.ident, "A");
    assert_eq!(b.ident, "B");
    assert_eq!(b.return_type, Type::Pointer("int"));
    assert!(ts.is_empty());
}

#[test]
fn return_type_shapes() {
    let tokens = tokenize("const void * f").unwrap();
    assert_eq!(return_type(&tokens), Some((Type::ConstPointer("void"), 3)));
    let tokens = tokenize("const * f").unwrap();
    assert_eq!(return_type(&tokens), Some((Type::Pointer("const"), 2)));
    let tokens = tokenize("const f (").unwrap();
    assert_eq!(return_type(&tokens), Some((Type::Value("const"), 1)));
    let tokens = tokenize("* f").unwrap();
    assert_eq!(return_type(&tokens), None);
    assert_eq!(return_type(&[]), None);
}

#[test]
fn invalid_return_type() {
    let tokens = tokenize("(int x)").unwrap();
    let mut ts: &[Token] = tokens.as_ref();
    let result = parse(&mut ts);
    assert_eq!(
        result,
        Err(ParseError::UnexpectedTokenShape {
            expected: Expected::ReturnType,
            found: tokens.clone(),
        })
    );
    assert_eq!(ts, &tokens[..]);
}

#[test]
fn invalid_identifier() {
    let tokens = tokenize("void 12(int x)").unwrap();
    let mut ts: &[Token] = tokens.as_ref();
    let result = parse(&mut ts);
    assert_eq!(
        result,
        Err(ParseError::UnexpectedTokenShape {
            expected: Expected::FunctionName,
            found: tokens[1..].to_vec(),
        })
    );
    assert_eq!(ts, &tokens[..]);
}

#[test]
fn name_without_parenthesis() {
    let tokens = tokenize("void f").unwrap();
    let mut ts: &[Token] = tokens.as_ref();
    let result = parse(&mut ts);
    assert_eq!(
        result,
        Err(ParseError::UnexpectedTokenShape {
            expected: Expected::FunctionName,
            found: vec![Token::Text("f")],
        })
    );
}

#[test]
fn function_pointer_parameter_is_refused() {
    let tokens = tokenize("void f(int (*g)(int), int x);").unwrap();
    let mut ts: &[Token] = tokens.as_ref();
    let result = parse(&mut ts);
    assert_eq!(
        result,
        Err(ParseError::UnexpectedTokenShape {
            expected: Expected::Parameter,
            found: tokens[3..11].to_vec(),
        })
    );
    assert_eq!(ts, &tokens[..]);
}

#[test]
fn unterminated_parameter_list() {
    let tokens = tokenize("void f(int x").unwrap();
    let mut ts: &[Token] = tokens.as_ref();
    let result = parse(&mut ts);
    assert_eq!(
        result,
        Err(ParseError::MissingDelimiter {
            expected: Delimiter::ClosingParenthesis,
            remaining: tokens[3..].to_vec(),
        })
    );
    assert_eq!(ts, &tokens[..]);
}
