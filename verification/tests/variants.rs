use refdoc::enumeration::{check, expand_variant, group_lacks_colon, parse, VariantIter};
use refdoc::error::{Delimiter, Expected, LexError, ParseError};
use refdoc::lexer::tokenize;
use refdoc::token::Token;
use refdoc::utils::{closes_group, group_end, is_well_nested, opens_group, VariantIndentationInfo};

fn names(list: &[&str]) -> Result<Vec<String>, ParseError<'static>> {
    Ok(list.iter().map(|name| name.to_string()).collect())
}

#[test]
fn flat_group() {
    assert_eq!(
        expand_variant("Color: {Red, Green, Blue}"),
        names(&["ColorRed", "ColorGreen", "ColorBlue"])
    );
}

#[test]
fn nested_group() {
    assert_eq!(
        expand_variant("Shape: {Round: {Circle, Oval}, Square}"),
        names(&["ShapeRoundCircle", "ShapeRoundOval", "ShapeSquare"])
    );
}

#[test]
fn bare_name_stands_for_itself() {
    assert_eq!(expand_variant("Color"), names(&["Color"]));
    assert_eq!(expand_variant("  Color\n"), names(&["Color"]));
}

#[test]
fn empty_group_gives_no_name() {
    assert_eq!(expand_variant("Color: {}"), names(&[]));
    assert_eq!(expand_variant("{}"), names(&[]));
    assert_eq!(expand_variant("A: {B, {}, C: [], D}"), names(&["AB", "AD"]));
}

#[test]
fn group_without_a_name() {
    assert_eq!(
        expand_variant("GroupName: { Variant, Other, { NestedGroup: [X, Y] } }"),
        names(&[
            "GroupNameVariant",
            "GroupNameOther",
            "GroupNameNestedGroupX",
            "GroupNameNestedGroupY"
        ])
    );
    assert_eq!(expand_variant("{a, b}"), names(&["a", "b"]));
}

#[test]
fn prefix_is_restored_between_siblings() {
    assert_eq!(
        expand_variant("T: {A: {B: {C, D}, E}, F: G: {H}, I}"),
        names(&["TABC", "TABD", "TAE", "TFGH", "TI"])
    );
}

#[test]
fn names_chain_without_brackets() {
    assert_eq!(expand_variant("A: B: C"), names(&["ABC"]));
}

#[test]
fn trailing_comma_is_accepted() {
    assert_eq!(expand_variant("A: {B, C,}"), names(&["AB", "AC"]));
}

#[test]
fn names_with_slashes_and_underscores() {
    assert_eq!(
        expand_variant("GL_: [core/, compat_]"),
        names(&["GL_core/", "GL_compat_"])
    );
}

#[test]
fn unbalanced_brackets() {
    for text in ["Color: {Red, Green", "{a,b", "Color: Red}"] {
        assert_eq!(
            expand_variant(text),
            Err(ParseError::UnbalancedNesting { found: tokenize(text).unwrap() })
        );
    }
    assert_eq!(
        expand_variant("{A}{B}"),
        Err(ParseError::UnbalancedNesting { found: tokenize("A}{B").unwrap() })
    );
    assert_eq!(
        expand_variant("X: {a, {A}{B}, {c}"),
        Err(ParseError::UnbalancedNesting { found: tokenize("X: {a, {A}{B}, {c}").unwrap() })
    );
    assert_eq!(
        expand_variant("X: {a, {A}{B, c}}"),
        Err(ParseError::UnbalancedNesting { found: tokenize("A}{B, c").unwrap() })
    );
}

#[test]
fn group_without_its_colon() {
    let tokens = tokenize("Color {Red, Green}").unwrap();
    assert_eq!(tokens.len(), 6);
    let missing =
        ParseError::MissingDelimiter { expected: Delimiter::Colon, remaining: tokens.clone() };
    assert_eq!(expand_variant("Color {Red, Green}"), Err(missing.clone()));
    assert_eq!(check(&tokens), Err(missing.clone()));
    assert_eq!(VariantIter::new(&tokens).err(), Some(missing));
}

#[test]
fn inner_group_without_its_colon() {
    let tokens = tokenize("A: {B {C}, D}").unwrap();
    assert_eq!(
        expand_variant("A: {B {C}, D}"),
        Err(ParseError::MissingDelimiter {
            expected: Delimiter::Colon,
            remaining: tokens[3..7].to_vec(),
        })
    );
    assert_eq!(
        expand_variant("A: B [C]"),
        Err(ParseError::MissingDelimiter {
            expected: Delimiter::Colon,
            remaining: tokenize("B [C]").unwrap(),
        })
    );
}

#[test]
fn unbalanced_brackets_come_before_a_missing_colon() {
    assert_eq!(
        expand_variant("Color {Red, Green"),
        Err(ParseError::UnbalancedNesting { found: tokenize("Color {Red, Green").unwrap() })
    );
}

#[test]
fn name_with_a_group_behind_it() {
    assert!(group_lacks_colon(&tokenize("Color {Red}").unwrap()));
    assert!(group_lacks_colon(&tokenize("Color [").unwrap()));
    assert!(!group_lacks_colon(&tokenize("Color: {Red}").unwrap()));
    assert!(!group_lacks_colon(&tokenize("Color (Red)").unwrap()));
    assert!(!group_lacks_colon(&tokenize("Color Red").unwrap()));
    assert!(!group_lacks_colon(&tokenize("{Red}").unwrap()));
    assert!(!group_lacks_colon(&tokenize("Color").unwrap()));
    assert!(!group_lacks_colon(&[]));
}

#[test]
fn group_at_the_cursor_without_its_colon() {
    let tokens = tokenize("Color {Red: {A}} x").unwrap();
    let mut ts: &[Token] = tokens.as_ref();
    assert_eq!(
        parse(&mut ts).err(),
        Some(ParseError::MissingDelimiter { expected: Delimiter::Colon, remaining: tokens.clone() })
    );
    assert_eq!(ts, &tokens[..]);
}

#[test]
fn two_names_in_a_row() {
    assert_eq!(
        expand_variant("A: {B C, D}"),
        Err(ParseError::UnexpectedTokenShape {
            expected: Expected::Variant,
            found: vec![Token::Text("B"), Token::Text("C")],
        })
    );
}

#[test]
fn empty_piece_between_commas() {
    assert_eq!(
        expand_variant("A: {B,,C}"),
        Err(ParseError::UnexpectedTokenShape { expected: Expected::Variant, found: vec![] })
    );
}

#[test]
fn nothing_is_no_variant() {
    assert_eq!(
        expand_variant(""),
        Err(ParseError::UnexpectedTokenShape { expected: Expected::Variant, found: vec![] })
    );
    assert_eq!(
        expand_variant("A:"),
        Err(ParseError::UnexpectedTokenShape {
            expected: Expected::Variant,
            found: vec![Token::Text("A"), Token::Colon],
        })
    );
}

#[test]
fn comma_outside_brackets() {
    assert_eq!(
        expand_variant("A, B"),
        Err(ParseError::UnexpectedTokenShape {
            expected: Expected::Variant,
            found: vec![Token::Text("A"), Token::Comma, Token::Text("B")],
        })
    );
}

#[test]
fn number_is_no_name() {
    assert_eq!(
        expand_variant("A: {B, 12}"),
        Err(ParseError::UnexpectedTokenShape {
            expected: Expected::Variant,
            found: vec![Token::Number(12)],
        })
    );
}

#[test]
fn text_that_cannot_be_lexed() {
    assert_eq!(
        expand_variant("A: {B, C?}"),
        Err(ParseError::Lex(LexError::UnexpectedCharacter { character: '?', position: 8 }))
    );
}

#[test]
fn names_one_at_a_time() {
    let tokens = tokenize("Color: {Red, Green}").unwrap();
    let mut iter = VariantIter::new(&tokens).unwrap();
    assert_eq!(iter.next(), Some("ColorRed".to_string()));
    assert_eq!(iter.next(), Some("ColorGreen".to_string()));
    assert_eq!(iter.next(), None);
    assert_eq!(iter.next(), None);
}

#[test]
fn new_refuses_what_check_refuses() {
    let tokens = tokenize("Color: {Red Green}").unwrap();
    assert!(check(&tokens).is_err());
    assert!(VariantIter::new(&tokens).is_err());
    let tokens = tokenize("Color: {Red, Green}").unwrap();
    assert_eq!(check(&tokens), Ok(10));
}

#[test]
fn group_at_the_cursor() {
    let tokens = tokenize("Color: {Red, Green}; void f(int x);").unwrap();
    let mut ts: &[Token] = tokens.as_ref();
    let mut iter = parse(&mut ts).unwrap();
    assert_eq!(ts, &tokens[7..]);
    assert_eq!(ts.first(), Some(&Token::Semicolon));
    assert_eq!(iter.next(), Some("ColorRed".to_string()));
    assert_eq!(iter.next(), Some("ColorGreen".to_string()));
    assert_eq!(iter.next(), None);
}

#[test]
fn groups_follow_each_other() {
    let tokens = tokenize("A: {B} C: [D: {E, F}]").unwrap();
    let mut ts: &[Token] = tokens.as_ref();
    let mut first = parse(&mut ts).unwrap();
    let mut second = parse(&mut ts).unwrap();
    assert!(ts.is_empty());
    assert_eq!(first.next(), Some("AB".to_string()));
    assert_eq!(first.next(), None);
    assert_eq!(second.next(), Some("CDE".to_string()));
    assert_eq!(second.next(), Some("CDF".to_string()));
    assert_eq!(second.next(), None);
}

#[test]
fn group_without_colon() {
    let tokens = tokenize("Color {Red}").unwrap();
    let mut ts: &[Token] = tokens.as_ref();
    assert_eq!(
        parse(&mut ts).err(),
        Some(ParseError::MissingDelimiter { expected: Delimiter::Colon, remaining: tokens.clone() })
    );
    assert_eq!(ts, &tokens[..]);
}

#[test]
fn group_name_of_another_shape() {
    let tokens = tokenize("a b : {x}").unwrap();
    let mut ts: &[Token] = tokens.as_ref();
    assert_eq!(
        parse(&mut ts).err(),
        Some(ParseError::UnexpectedTokenShape {
            expected: Expected::GroupName,
            found: vec![Token::Text("a"), Token::Text("b")],
        })
    );
    let tokens = tokenize(": {x}").unwrap();
    let mut ts: &[Token] = tokens.as_ref();
    assert_eq!(
        parse(&mut ts).err(),
        Some(ParseError::UnexpectedTokenShape { expected: Expected::GroupName, found: vec![] })
    );
    let tokens = tokenize("7 : {x}").unwrap();
    let mut ts: &[Token] = tokens.as_ref();
    assert_eq!(
        parse(&mut ts).err(),
        Some(ParseError::UnexpectedTokenShape {
            expected: Expected::GroupName,
            found: vec![Token::Number(7)],
        })
    );
    assert_eq!(ts, &tokens[..]);
}

#[test]
fn group_without_brackets() {
    let tokens = tokenize("Color: Red").unwrap();
    let mut ts: &[Token] = tokens.as_ref();
    assert_eq!(
        parse(&mut ts).err(),
        Some(ParseError::UnexpectedTokenShape {
            expected: Expected::Variant,
            found: vec![Token::Text("Red")],
        })
    );
    let tokens = tokenize("Color:").unwrap();
    let mut ts: &[Token] = tokens.as_ref();
    assert_eq!(
        parse(&mut ts).err(),
        Some(ParseError::UnexpectedTokenShape { expected: Expected::Variant, found: vec![] })
    );
}

#[test]
fn group_left_open() {
    let tokens = tokenize("Color: {Red, {Green}").unwrap();
    let mut ts: &[Token] = tokens.as_ref();
    assert_eq!(
        parse(&mut ts).err(),
        Some(ParseError::UnbalancedNesting { found: tokens[2..].to_vec() })
    );
    assert_eq!(ts, &tokens[..]);
}

#[test]
fn group_with_a_fault_inside() {
    let tokens = tokenize("Color: {Red Green} x").unwrap();
    let mut ts: &[Token] = tokens.as_ref();
    assert_eq!(
        parse(&mut ts).err(),
        Some(ParseError::UnexpectedTokenShape {
            expected: Expected::Variant,
            found: vec![Token::Text("Red"), Token::Text("Green")],
        })
    );
    assert_eq!(ts, &tokens[..]);
}

#[test]
fn brackets_of_tokens() {
    assert!(opens_group::<VariantIndentationInfo>(&Token::OpeningBracket));
    assert!(opens_group::<VariantIndentationInfo>(&Token::OpeningBrace));
    assert!(!opens_group::<VariantIndentationInfo>(&Token::OpeningParenthesis));
    assert!(!opens_group::<VariantIndentationInfo>(&Token::Text("{")));
    assert!(closes_group::<VariantIndentationInfo>(&Token::ClosingBracket));
    assert!(closes_group::<VariantIndentationInfo>(&Token::ClosingBrace));
    assert!(!closes_group::<VariantIndentationInfo>(&Token::ClosingParenthesis));
    assert!(!closes_group::<VariantIndentationInfo>(&Token::OpeningBrace));
}

#[test]
fn end_of_a_group() {
    let tokens = tokenize("{a, [b, c], d} e }").unwrap();
    assert_eq!(group_end::<VariantIndentationInfo>(&tokens, &Token::Comma), 10);
    let tokens = tokenize("{a, [b, c], d").unwrap();
    assert_eq!(group_end::<VariantIndentationInfo>(&tokens, &Token::Comma), tokens.len());
    let tokens = tokenize("[]").unwrap();
    assert_eq!(group_end::<VariantIndentationInfo>(&tokens, &Token::Comma), 1);
}

#[test]
fn depth_back_at_zero() {
    let comma = Token::Comma;
    assert_eq!(group_end::<VariantIndentationInfo>(&[], &comma), 0);
    let tokens = tokenize("a {b}").unwrap();
    assert_eq!(group_end::<VariantIndentationInfo>(&tokens, &comma), 0);
    let tokens = tokenize("} a { b").unwrap();
    assert_eq!(group_end::<VariantIndentationInfo>(&tokens, &comma), 2);
    let tokens = tokenize("} } {").unwrap();
    assert_eq!(group_end::<VariantIndentationInfo>(&tokens, &comma), 3);
}

#[test]
fn nesting_of_tokens() {
    let comma = Token::Comma;
    assert!(is_well_nested::<VariantIndentationInfo>(&tokenize("{a,[b]},c").unwrap(), &comma));
    assert!(is_well_nested::<VariantIndentationInfo>(&[], &comma));
    assert!(is_well_nested::<VariantIndentationInfo>(&tokenize("{a}{b}").unwrap(), &comma));
    assert!(!is_well_nested::<VariantIndentationInfo>(&tokenize("{a,[b},c").unwrap(), &comma));
    assert!(!is_well_nested::<VariantIndentationInfo>(&tokenize("a},{c").unwrap(), &comma));
    assert!(is_well_nested::<VariantIndentationInfo>(&tokenize("(a").unwrap(), &comma));
}

#[test]
fn longest_name_is_measured() {
    assert_eq!(check(&tokenize("Shape: {Round: {Circle, Oval}, Square}").unwrap()), Ok(16));
    assert_eq!(check(&tokenize("Color").unwrap()), Ok(5));
    assert_eq!(check(&tokenize("Color: {}").unwrap()), Ok(5));
    assert_eq!(check(&tokenize("{}").unwrap()), Ok(0));
    assert_eq!(check(&tokenize("{a, bcd, ef}").unwrap()), Ok(3));
    let names = expand_variant("Shape: {Round: {Circle, Oval}, Square}").unwrap();
    assert_eq!(names.iter().map(|name| name.len()).max(), Some(16));
}
