use refdoc::lexer::tokenize;
use refdoc::token::{position, Token};
use refdoc::utils::{
    enclosing_end, split_on_level, token_cut, IndentationInfo, ParenthesisIndentationInfo,
    SplitOnLevel, UnbalancedNesting, VariantIndentationInfo,
};

#[test]
fn splits_only_at_depth_zero() {
    assert_eq!(split_on_level::<VariantIndentationInfo>("{a,b},c", ','), Ok(vec!["{a,b}", "c"]));
}

#[test]
fn unbalanced_input() {
    assert_eq!(split_on_level::<VariantIndentationInfo>("{a,b", ','), Err(UnbalancedNesting));
    assert_eq!(split_on_level::<VariantIndentationInfo>("a,b}", ','), Err(UnbalancedNesting));
    assert_eq!(split_on_level::<VariantIndentationInfo>("a},{b", ','), Err(UnbalancedNesting));
}

#[test]
fn empty_and_trailing() {
    assert_eq!(split_on_level::<VariantIndentationInfo>("", ','), Ok(vec![]));
    assert_eq!(split_on_level::<VariantIndentationInfo>("a,", ','), Ok(vec!["a"]));
    assert_eq!(split_on_level::<VariantIndentationInfo>(",a", ','), Ok(vec!["", "a"]));
    assert_eq!(split_on_level::<VariantIndentationInfo>("a,,b", ','), Ok(vec!["a", "", "b"]));
    assert_eq!(split_on_level::<VariantIndentationInfo>("abc", ','), Ok(vec!["abc"]));
}

#[test]
fn both_kinds_of_markers() {
    assert_eq!(
        split_on_level::<VariantIndentationInfo>("a[b,{c,d}],e{f,g},h", ','),
        Ok(vec!["a[b,{c,d}]", "e{f,g}", "h"])
    );
    assert_eq!(split_on_level::<VariantIndentationInfo>("(a,b)", ','), Ok(vec!["(a", "b)"]));
}

#[test]
fn characters_of_several_bytes() {
    assert_eq!(
        split_on_level::<VariantIndentationInfo>("\u{e9}t\u{e9};{\u{1f600};x};\u{4e2d}", ';'),
        Ok(vec!["\u{e9}t\u{e9}", "{\u{1f600};x}", "\u{4e2d}"])
    );
    assert_eq!(
        split_on_level::<VariantIndentationInfo>("a\u{2192}{b\u{2192}c}\u{2192}d", '\u{2192}'),
        Ok(vec!["a", "{b\u{2192}c}", "d"])
    );
}

#[test]
fn pieces_one_at_a_time() {
    let mut splitter = SplitOnLevel::<VariantIndentationInfo>::new("x,{y,z},w}", ',');
    assert_eq!(splitter.next(), Some(Ok("x")));
    assert_eq!(splitter.next(), Some(Ok("{y,z}")));
    assert_eq!(splitter.next(), Some(Err(UnbalancedNesting)));
    assert_eq!(splitter.next(), None);
    assert_eq!(splitter.next(), None);
}

#[test]
fn variant_markers() {
    assert!(VariantIndentationInfo::is_indent('{'));
    assert!(VariantIndentationInfo::is_indent('['));
    assert!(!VariantIndentationInfo::is_indent('('));
    assert!(!VariantIndentationInfo::is_indent('}'));
    assert!(VariantIndentationInfo::is_dedent('}'));
    assert!(VariantIndentationInfo::is_dedent(']'));
    assert!(!VariantIndentationInfo::is_dedent(')'));
    assert!(!VariantIndentationInfo::is_dedent('{'));
    assert!(ParenthesisIndentationInfo::is_indent('('));
    assert!(!ParenthesisIndentationInfo::is_indent(')'));
    assert!(!ParenthesisIndentationInfo::is_indent('{'));
    assert!(ParenthesisIndentationInfo::is_dedent(')'));
    assert!(!ParenthesisIndentationInfo::is_dedent('('));
    assert!(!ParenthesisIndentationInfo::is_dedent(']'));
}

#[test]
fn parentheses_as_groups() {
    assert_eq!(
        split_on_level::<ParenthesisIndentationInfo>("f(a,b),{c,d}", ','),
        Ok(vec!["f(a,b)", "{c", "d}"])
    );
}

#[test]
fn end_of_the_enclosing_group() {
    let comma = Token::Comma;
    let tokens = tokenize("a, (b, c), d) e )").unwrap();
    assert_eq!(enclosing_end::<ParenthesisIndentationInfo>(&tokens, &comma), 9);
    assert_eq!(enclosing_end::<ParenthesisIndentationInfo>(&tokens[10..], &comma), 1);
    let tokens = tokenize("a, (b, c), d").unwrap();
    assert_eq!(enclosing_end::<ParenthesisIndentationInfo>(&tokens, &comma), tokens.len());
    assert_eq!(enclosing_end::<ParenthesisIndentationInfo>(&[], &comma), 0);
    let tokens = tokenize(") a").unwrap();
    assert_eq!(enclosing_end::<ParenthesisIndentationInfo>(&tokens, &comma), 0);
}

#[test]
fn first_cut_among_tokens() {
    let tokens = tokenize("{a,b},c").unwrap();
    assert_eq!(token_cut::<VariantIndentationInfo>(&tokens, &Token::Comma), Ok(5));
    assert_eq!(token_cut::<ParenthesisIndentationInfo>(&tokens, &Token::Comma), Ok(2));
    assert_eq!(token_cut::<VariantIndentationInfo>(&tokens[6..], &Token::Comma), Ok(1));
    assert_eq!(token_cut::<VariantIndentationInfo>(&[], &Token::Comma), Ok(0));
    let tokens = tokenize("{a,b").unwrap();
    assert_eq!(token_cut::<VariantIndentationInfo>(&tokens, &Token::Comma), Err(UnbalancedNesting));
    let tokens = tokenize("a},b").unwrap();
    assert_eq!(token_cut::<VariantIndentationInfo>(&tokens, &Token::Comma), Err(UnbalancedNesting));
}

#[test]
fn position_of_a_token() {
    let tokens = tokenize("a , b : c").unwrap();
    assert_eq!(position(&tokens, &Token::Colon), 3);
    assert_eq!(position(&tokens, &Token::Comma), 1);
    assert_eq!(position(&tokens, &Token::Semicolon), 5);
    assert_eq!(position(&tokens, &Token::Text("c")), 4);
}
