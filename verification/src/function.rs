//! Function declarations: a return type, a name, and a parameter list in
//! parentheses.
use crate::error::{unexpected_shape, Expected, ParseError, ParseErrorView};
use crate::parameter::{parameter_views, Parameter, ParameterView, Type, TypeView};
use crate::text::same_text;
use crate::parameter::{lemma_closes_below, lemma_list_ends_at_first_parenthesis, list_policy};
use crate::token::{index_of, lemma_index_from, lemma_views_subrange, views, Token, TokenView};
use crate::utils::{closing, first_below, lemma_below_from, lemma_closing_of_enclosed};
use vstd::prelude::*;
use vstd::slice::slice_subrange;

verus! {

/// A function's signature.
#[derive(Debug, Clone, Hash, PartialEq, Eq)]
pub struct Function<'s> {
    pub return_type: Type<'s>,
    pub ident: &'s str,
    pub params: Vec<Parameter<'s>>,
}

/// A function's signature, with names taken by their characters.
pub struct FunctionView {
    pub return_type: TypeView,
    pub ident: Seq<char>,
    pub params: Seq<ParameterView>,
}

impl<'s> View for Function<'s> {
    type V = FunctionView;

    open spec fn view(&self) -> FunctionView {
        FunctionView {
            return_type: self.return_type@,
            ident: self.ident@,
            params: parameter_views(self.params@),
        }
    }
}

/// The return type that `tokens` start with, and the number of tokens that
/// it takes: `const type *`, else `type *`, else `type`.
pub open spec fn return_type_of(tokens: Seq<TokenView>) -> Option<(TypeView, int)> {
    if tokens.len() >= 3 && tokens[0] == TokenView::Text("const"@) && tokens[1] is Text
        && tokens[2] == TokenView::Asterisk {
        Some((TypeView::ConstPointer(tokens[1]->Text_0), 3))
    } else if tokens.len() >= 2 && tokens[0] is Text && tokens[1] == TokenView::Asterisk {
        Some((TypeView::Pointer(tokens[0]->Text_0), 2))
    } else if tokens.len() >= 1 && tokens[0] is Text {
        Some((TypeView::Value(tokens[0]->Text_0), 1))
    } else {
        None
    }
}

/// Whether `tokens` start with a name and an opening parenthesis.
pub open spec fn starts_with_name(tokens: Seq<TokenView>) -> bool {
    tokens.len() >= 2 && tokens[0] is Text && tokens[1] == TokenView::OpeningParenthesis
}

/// What `parse` makes of the tokens at the cursor: the function and the
/// tokens that remain behind its parameter list, or the error.
pub open spec fn parse_spec(tokens: Seq<TokenView>) -> Result<
    (FunctionView, Seq<TokenView>),
    ParseErrorView,
> {
    match return_type_of(tokens) {
        None => Err(
            ParseErrorView::UnexpectedTokenShape { expected: Expected::ReturnType, found: tokens },
        ),
        Some((return_type, used)) => {
            let rest = tokens.skip(used);
            if starts_with_name(rest) {
                match crate::parameter::parse_spec(rest.skip(2)) {
                    Ok((params, remaining)) => Ok(
                        (FunctionView { return_type, ident: rest[0]->Text_0, params }, remaining),
                    ),
                    Err(e) => Err(e),
                }
            } else {
                Err(
                    ParseErrorView::UnexpectedTokenShape {
                        expected: Expected::FunctionName,
                        found: rest,
                    },
                )
            }
        },
    }
}

/// The return type that `tokens` start with, and the number of tokens that
/// it takes.
pub fn return_type<'s>(tokens: &[Token<'s>]) -> (found: Option<(Type<'s>, usize)>)
    ensures
        match found {
            Some((ty, used)) => return_type_of(views(tokens@)) == Some((ty@, used as int)) && 1
                <= used <= tokens@.len(),
            None => return_type_of(views(tokens@)) is None,
        },
{
    if tokens.len() >= 3 {
        match (tokens[0], tokens[1], tokens[2]) {
            (Token::Text(qualifier), Token::Text(ty), Token::Asterisk) => {
                if same_text(qualifier, "const") {
                    return Some((Type::ConstPointer(ty), 3));
                }
            },
            _ => {},
        }
    }
    if tokens.len() >= 2 {
        match (tokens[0], tokens[1]) {
            (Token::Text(ty), Token::Asterisk) => {
                return Some((Type::Pointer(ty), 2));
            },
            _ => {},
        }
    }
    if tokens.len() >= 1 {
        match tokens[0] {
            Token::Text(ty) => {
                return Some((Type::Value(ty), 1));
            },
            _ => {},
        }
    }
    None
}

/// Reads a function declaration at the cursor.
///
/// On success the cursor stands just behind the closing parenthesis of the
/// parameter list; on an error it stays where it was.
pub fn parse<'s>(ts: &mut &'s [Token<'s>]) -> (result: Result<Function<'s>, ParseError<'s>>)
    ensures
        match result {
            Ok(function) => parse_spec(views((*old(ts))@)) == Ok::<
                (FunctionView, Seq<TokenView>),
                ParseErrorView,
            >((function@, views((*final(ts))@))),
            Err(e) => parse_spec(views((*old(ts))@)) == Err::<
                (FunctionView, Seq<TokenView>),
                ParseErrorView,
            >(e@) && *final(ts) == *old(ts),
        },
{
    let all: &'s [Token<'s>] = *ts;
    let (return_type, used) = match return_type(all) {
        Some(found) => found,
        None => {
            return Err(unexpected_shape(Expected::ReturnType, all));
        },
    };
    let rest = slice_subrange(all, used, all.len());
    proof {
        lemma_views_subrange(all@, used as int, all@.len() as int);
    }
    if rest.len() < 2 {
        return Err(unexpected_shape(Expected::FunctionName, rest));
    }
    match (rest[0], rest[1]) {
        (Token::Text(ident), Token::OpeningParenthesis) => {
            let mut cursor = slice_subrange(rest, 2, rest.len());
            proof {
                lemma_views_subrange(rest@, 2, rest@.len() as int);
            }
            match crate::parameter::parse(&mut cursor) {
                Ok(params) => {
                    *ts = cursor;
                    Ok(Function { return_type, ident, params })
                },
                Err(e) => Err(e),
            }
        },
        _ => Err(unexpected_shape(Expected::FunctionName, rest)),
    }
}

/// After a function has been read, the cursor stands just behind the
/// parenthesis that closes the parameter list. The tokens that were read end
/// with that parenthesis, which matches the one that opens the list and is
/// the first closing parenthesis at all; what remains is no part of the
/// declaration.
pub proof fn lemma_cursor_behind_declaration(tokens: Seq<TokenView>)
    requires
        parse_spec(tokens) is Ok,
    ensures
        match (parse_spec(tokens), return_type_of(tokens)) {
            (Ok((_, remaining)), Some((_, used))) => {
                let read = tokens.len() - remaining.len();
                &&& used + 2 < read <= tokens.len()
                &&& remaining == tokens.skip(read)
                &&& tokens[used + 1] == TokenView::OpeningParenthesis
                &&& tokens[read - 1] == TokenView::ClosingParenthesis
                &&& closing(tokens.skip(used + 1), list_policy()) == read - 1 - (used + 1)
                &&& index_of(tokens, TokenView::ClosingParenthesis) == read - 1
            },
            _ => false,
        },
{
    let (_, used) = return_type_of(tokens)->0;
    let rest = tokens.skip(used);
    let list = rest.skip(2);
    let close = first_below(list, list_policy());
    let target = TokenView::ClosingParenthesis;
    assert(list =~= tokens.skip(used + 2));
    assert(tokens[used + 1] == rest[1]);
    assert(tokens[used] == rest[0]);
    lemma_below_from(list, list_policy(), 0, 0);
    assert(list.skip(close + 1) =~= tokens.skip(used + 2 + close + 1));
    assert(tokens[used + 2 + close] == list[close]);
    lemma_closes_below(list);
    lemma_closing_of_enclosed(tokens.skip(used + 1), list_policy());
    assert(tokens.skip(used + 1).skip(1) =~= list);
    assert(tokens.skip(used + 1)[0] == tokens[used + 1]);
    lemma_list_ends_at_first_parenthesis(list);
    lemma_index_from(list, target, 0, 0);
    assert forall|k: int| 0 <= k < used + 2 + close implies tokens[k] != target by {
        if k >= used + 2 {
            assert(list[k - used - 2] == tokens[k]);
        }
    }
    lemma_index_from(tokens, target, 0, used + 2 + close);
}

} // verus!
