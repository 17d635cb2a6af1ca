//! Parameter lists: `type name`, `type * name` and `const type * name`,
//! separated by commas and closed by a parenthesis.
//!
//! The parenthesis that closes a list is the first one that matches none
//! opened within the list, and commas separate only outside parentheses.
use crate::error::{missing_delimiter, unexpected_shape, Delimiter, Expected, ParseError, ParseErrorView};
use crate::text::same_text;
use crate::token::{index_of, lemma_index_from, lemma_views_subrange, views, Token, TokenView};
use crate::utils::{
    enclosing_end, first_below, first_cut, lemma_below_from, lemma_cut_from, lemma_depth_step,
    lemma_enclosed_well_nested, lemma_first_piece, token_cut, token_policy, token_step,
    well_nested, ParenthesisIndentationInfo, Policy,
};
use vstd::prelude::*;
use vstd::slice::slice_subrange;

verus! {

/// How a parameter, or a function's result, is passed.
#[derive(Debug, Clone, Hash, PartialEq, Eq)]
pub enum Type<'s> {
    Value(&'s str),
    Pointer(&'s str),
    ConstPointer(&'s str),
}

/// A type, with its name taken by its characters.
pub enum TypeView {
    Value(Seq<char>),
    Pointer(Seq<char>),
    ConstPointer(Seq<char>),
}

impl<'s> View for Type<'s> {
    type V = TypeView;

    open spec fn view(&self) -> TypeView {
        match *self {
            Type::Value(name) => TypeView::Value(name@),
            Type::Pointer(name) => TypeView::Pointer(name@),
            Type::ConstPointer(name) => TypeView::ConstPointer(name@),
        }
    }
}

/// One parameter of a function.
#[derive(Debug, Clone, Hash, PartialEq, Eq)]
pub struct Parameter<'s> {
    pub ty: Type<'s>,
    pub ident: &'s str,
}

/// A parameter, with names taken by their characters.
pub struct ParameterView {
    pub ty: TypeView,
    pub ident: Seq<char>,
}

impl<'s> View for Parameter<'s> {
    type V = ParameterView;

    open spec fn view(&self) -> ParameterView {
        ParameterView { ty: self.ty@, ident: self.ident@ }
    }
}

/// The parameters of a sequence, each taken by its view.
pub open spec fn parameter_views<'s>(parameters: Seq<Parameter<'s>>) -> Seq<ParameterView> {
    parameters.map_values(|p: Parameter<'s>| p@)
}

/// The parameter that the tokens between two commas stand for, if they have
/// one of the three shapes.
pub open spec fn classify(slice: Seq<TokenView>) -> Option<ParameterView> {
    if slice.len() == 2 && slice[0] is Text && slice[1] is Text {
        Some(ParameterView { ty: TypeView::Value(slice[0]->Text_0), ident: slice[1]->Text_0 })
    } else if slice.len() == 3 && slice[0] is Text && slice[1] == TokenView::Asterisk
        && slice[2] is Text {
        Some(ParameterView { ty: TypeView::Pointer(slice[0]->Text_0), ident: slice[2]->Text_0 })
    } else if slice.len() == 4 && slice[0] == TokenView::Text("const"@) && slice[1] is Text
        && slice[2] == TokenView::Asterisk && slice[3] is Text {
        Some(
            ParameterView { ty: TypeView::ConstPointer(slice[1]->Text_0), ident: slice[3]->Text_0 },
        )
    } else {
        None
    }
}

/// How a parameter list is split: at commas, outside parentheses.
pub open spec fn list_policy() -> Policy<TokenView> {
    token_policy::<ParenthesisIndentationInfo>(TokenView::Comma)
}

/// The tokens before the first comma outside parentheses: all of them,
/// where there is none.
pub open spec fn first_slice(tokens: Seq<TokenView>) -> Seq<TokenView> {
    tokens.take(first_cut(tokens, list_policy()))
}

/// Whether a comma stands among the tokens, outside parentheses.
pub open spec fn has_comma(tokens: Seq<TokenView>) -> bool {
    0 <= first_cut(tokens, list_policy()) < tokens.len()
}

/// The tokens behind the first comma outside parentheses.
pub open spec fn behind_comma(tokens: Seq<TokenView>) -> Seq<TokenView> {
    tokens.skip(first_cut(tokens, list_policy()) + 1)
}

/// The slices that the commas outside parentheses cut `tokens` into, one
/// more than there are such commas: no tokens give one empty slice.
pub open spec fn slices(tokens: Seq<TokenView>) -> Seq<Seq<TokenView>>
    decreases tokens.len(),
    via slices_decreases
{
    if has_comma(tokens) {
        seq![first_slice(tokens)] + slices(behind_comma(tokens))
    } else {
        seq![tokens]
    }
}

#[via_fn]
proof fn slices_decreases(tokens: Seq<TokenView>) {
    lemma_cut_from(tokens, list_policy(), 0, 0);
}

/// `parameters` in front of what the rest of a list gives.
pub open spec fn chain(
    parameters: Seq<ParameterView>,
    rest: Result<Seq<ParameterView>, Seq<TokenView>>,
) -> Result<Seq<ParameterView>, Seq<TokenView>> {
    match rest {
        Ok(more) => Ok(parameters + more),
        Err(slice) => Err(slice),
    }
}

/// The parameters that a list stands for, slice by slice in its order, or
/// the first slice from the left that has none of the three shapes.
pub open spec fn parameters_of(tokens: Seq<TokenView>) -> Result<
    Seq<ParameterView>,
    Seq<TokenView>,
>
    decreases tokens.len(),
    via parameters_of_decreases
{
    match classify(first_slice(tokens)) {
        None => Err(first_slice(tokens)),
        Some(parameter) => if has_comma(tokens) {
            chain(seq![parameter], parameters_of(behind_comma(tokens)))
        } else {
            Ok(seq![parameter])
        },
    }
}

#[via_fn]
proof fn parameters_of_decreases(tokens: Seq<TokenView>) {
    lemma_cut_from(tokens, list_policy(), 0, 0);
}

/// What `parse` makes of the tokens at the cursor: the parameters and the
/// tokens that remain behind the parenthesis that closes the list, or the
/// error.
pub open spec fn parse_spec(tokens: Seq<TokenView>) -> Result<
    (Seq<ParameterView>, Seq<TokenView>),
    ParseErrorView,
> {
    let close = first_below(tokens, list_policy());
    if close >= tokens.len() {
        Err(
            ParseErrorView::MissingDelimiter {
                expected: Delimiter::ClosingParenthesis,
                remaining: tokens,
            },
        )
    } else {
        match parameters_of(tokens.take(close)) {
            Ok(parameters) => Ok((parameters, tokens.skip(close + 1))),
            Err(found) => Err(
                ParseErrorView::UnexpectedTokenShape { expected: Expected::Parameter, found },
            ),
        }
    }
}

/// A parameter passed by value.
pub fn value<'s>(ty: &'s str, ident: &'s str) -> (parameter: Parameter<'s>)
    ensures
        parameter@ == (ParameterView { ty: TypeView::Value(ty@), ident: ident@ }),
{
    Parameter { ty: Type::Value(ty), ident }
}

/// A parameter passed by pointer.
pub fn pointer<'s>(ty: &'s str, ident: &'s str) -> (parameter: Parameter<'s>)
    ensures
        parameter@ == (ParameterView { ty: TypeView::Pointer(ty@), ident: ident@ }),
{
    Parameter { ty: Type::Pointer(ty), ident }
}

/// A parameter passed by pointer to a constant.
pub fn const_pointer<'s>(ty: &'s str, ident: &'s str) -> (parameter: Parameter<'s>)
    ensures
        parameter@ == (ParameterView { ty: TypeView::ConstPointer(ty@), ident: ident@ }),
{
    Parameter { ty: Type::ConstPointer(ty), ident }
}

/// The parameter that `slice` stands for, if it has one of the three shapes.
pub fn parameter_of<'s>(slice: &[Token<'s>]) -> (parameter: Option<Parameter<'s>>)
    ensures
        match parameter {
            Some(p) => classify(views(slice@)) == Some(p@),
            None => classify(views(slice@)) is None,
        },
{
    if slice.len() == 2 {
        match (slice[0], slice[1]) {
            (Token::Text(ty), Token::Text(ident)) => Some(value(ty, ident)),
            _ => None,
        }
    } else if slice.len() == 3 {
        match (slice[0], slice[1], slice[2]) {
            (Token::Text(ty), Token::Asterisk, Token::Text(ident)) => Some(pointer(ty, ident)),
            _ => None,
        }
    } else if slice.len() == 4 {
        match (slice[0], slice[1], slice[2], slice[3]) {
            (Token::Text(qualifier), Token::Text(ty), Token::Asterisk, Token::Text(ident)) => {
                if same_text(qualifier, "const") {
                    Some(const_pointer(ty, ident))
                } else {
                    None
                }
            },
            _ => None,
        }
    } else {
        None
    }
}

/// Reads a parameter list whose opening parenthesis has been read.
///
/// The list ends at the first closing parenthesis that matches no opening
/// one of the list. On success the cursor stands just behind that
/// parenthesis; on an error it stays where it was.
pub fn parse<'s>(tokens: &mut &'s [Token<'s>]) -> (result: Result<
    Vec<Parameter<'s>>,
    ParseError<'s>,
>)
    ensures
        match result {
            Ok(parameters) => parse_spec(views((*old(tokens))@)) == Ok::<
                (Seq<ParameterView>, Seq<TokenView>),
                ParseErrorView,
            >((parameter_views(parameters@), views((*final(tokens))@))),
            Err(e) => parse_spec(views((*old(tokens))@)) == Err::<
                (Seq<ParameterView>, Seq<TokenView>),
                ParseErrorView,
            >(e@) && *final(tokens) == *old(tokens),
        },
{
    let all: &'s [Token<'s>] = *tokens;
    let close = enclosing_end::<ParenthesisIndentationInfo>(all, &Token::Comma);
    if close >= all.len() {
        return Err(missing_delimiter(Delimiter::ClosingParenthesis, all));
    }
    let list = slice_subrange(all, 0, close);
    let rest = slice_subrange(all, close + 1, all.len());
    let mut parameters: Vec<Parameter<'s>> = Vec::new();
    let mut start: usize = 0;
    proof {
        lemma_views_subrange(all@, 0, close as int);
        lemma_views_subrange(all@, close + 1, all@.len() as int);
        assert(list@.skip(0) =~= list@);
        assert(parameter_views(parameters@) =~= Seq::<ParameterView>::empty());
        let whole = parameters_of(views(list@));
        if let Ok(more) = whole {
            assert(Seq::<ParameterView>::empty() + more =~= more);
        }
        lemma_enclosed_well_nested(views(all@), list_policy());
    }
    loop
        invariant_except_break
            parameters_of(views(list@)) == chain(
                parameter_views(parameters@),
                parameters_of(views(list@.skip(start as int))),
            ),
        invariant
            start <= close,
            close == list@.len(),
            *tokens == all,
            *old(tokens) == all,
            close < all@.len(),
            close == first_below(views(all@), list_policy()),
            views(list@) == views(all@).take(close as int),
            well_nested(views(list@.skip(start as int)), list_policy()),
            views(rest@) == views(all@).skip(close + 1),
        ensures
            parameters_of(views(list@)) == Ok::<Seq<ParameterView>, Seq<TokenView>>(
                parameter_views(parameters@),
            ),
        decreases close - start,
    {
        let left = slice_subrange(list, start, close);
        proof {
            assert(left@ =~= list@.skip(start as int));
            lemma_first_piece(views(left@), list_policy());
        }
        let cut = token_cut::<ParenthesisIndentationInfo>(left, &Token::Comma).unwrap();
        let slice = slice_subrange(left, 0, cut);
        let ghost before = parameters@;
        proof {
            lemma_views_subrange(left@, 0, cut as int);
        }
        match parameter_of(slice) {
            None => {
                return Err(unexpected_shape(Expected::Parameter, slice));
            },
            Some(parameter) => {
                parameters.push(parameter);
            },
        }
        proof {
            assert(parameter_views(parameters@) =~= parameter_views(before).push(
                parameters@.last()@,
            ));
        }
        if cut >= left.len() {
            proof {
                assert(parameter_views(before) + seq![parameters@.last()@] =~= parameter_views(
                    parameters@,
                ));
            }
            break;
        }
        proof {
            assert(left@.skip(cut + 1) =~= list@.skip(start + cut + 1));
            lemma_views_subrange(left@, cut + 1, left@.len() as int);
            assert(views(left@).skip(cut + 1) =~= views(left@.skip(cut + 1)));
            let rest = parameters_of(views(list@.skip(start + cut + 1)));
            if let Ok(more) = rest {
                assert(parameter_views(before) + (seq![parameters@.last()@] + more)
                    =~= parameter_views(parameters@) + more);
            }
        }
        start = start + cut + 1;
    }
    *tokens = rest;
    Ok(parameters)
}

/// Each of the three shapes gives back the type and the name that it was
/// made of: alone, and as the whole of a parameter list.
pub proof fn lemma_shapes_round_trip(ty: Seq<char>, name: Seq<char>, rest: Seq<TokenView>)
    ensures
        classify(seq![TokenView::Text(ty), TokenView::Text(name)]) == Some(
            ParameterView { ty: TypeView::Value(ty), ident: name },
        ),
        classify(seq![TokenView::Text(ty), TokenView::Asterisk, TokenView::Text(name)]) == Some(
            ParameterView { ty: TypeView::Pointer(ty), ident: name },
        ),
        classify(
            seq![
                TokenView::Text("const"@),
                TokenView::Text(ty),
                TokenView::Asterisk,
                TokenView::Text(name),
            ],
        ) == Some(ParameterView { ty: TypeView::ConstPointer(ty), ident: name }),
        parse_spec(
            seq![TokenView::Text(ty), TokenView::Text(name), TokenView::ClosingParenthesis] + rest,
        ) == Ok::<(Seq<ParameterView>, Seq<TokenView>), ParseErrorView>(
            (seq![ParameterView { ty: TypeView::Value(ty), ident: name }], rest),
        ),
        parse_spec(
            seq![
                TokenView::Text(ty),
                TokenView::Asterisk,
                TokenView::Text(name),
                TokenView::ClosingParenthesis,
            ] + rest,
        ) == Ok::<(Seq<ParameterView>, Seq<TokenView>), ParseErrorView>(
            (seq![ParameterView { ty: TypeView::Pointer(ty), ident: name }], rest),
        ),
        parse_spec(
            seq![
                TokenView::Text("const"@),
                TokenView::Text(ty),
                TokenView::Asterisk,
                TokenView::Text(name),
                TokenView::ClosingParenthesis,
            ] + rest,
        ) == Ok::<(Seq<ParameterView>, Seq<TokenView>), ParseErrorView>(
            (seq![ParameterView { ty: TypeView::ConstPointer(ty), ident: name }], rest),
        ),
{
    let value = seq![TokenView::Text(ty), TokenView::Text(name)];
    let pointer = seq![TokenView::Text(ty), TokenView::Asterisk, TokenView::Text(name)];
    let constant = seq![
        TokenView::Text("const"@),
        TokenView::Text(ty),
        TokenView::Asterisk,
        TokenView::Text(name),
    ];
    lemma_single_parameter(value, rest);
    lemma_single_parameter(pointer, rest);
    lemma_single_parameter(constant, rest);
    assert(value + seq![TokenView::ClosingParenthesis] + rest =~= seq![
        TokenView::Text(ty),
        TokenView::Text(name),
        TokenView::ClosingParenthesis,
    ] + rest);
    assert(pointer + seq![TokenView::ClosingParenthesis] + rest =~= seq![
        TokenView::Text(ty),
        TokenView::Asterisk,
        TokenView::Text(name),
        TokenView::ClosingParenthesis,
    ] + rest);
    assert(constant + seq![TokenView::ClosingParenthesis] + rest =~= seq![
        TokenView::Text("const"@),
        TokenView::Text(ty),
        TokenView::Asterisk,
        TokenView::Text(name),
        TokenView::ClosingParenthesis,
    ] + rest);
}

/// A slice of one of the three shapes, without comma or parenthesis, is a
/// parameter list of one parameter.
proof fn lemma_single_parameter(slice: Seq<TokenView>, rest: Seq<TokenView>)
    requires
        classify(slice) is Some,
    ensures
        parse_spec(slice + seq![TokenView::ClosingParenthesis] + rest) == Ok::<
            (Seq<ParameterView>, Seq<TokenView>),
            ParseErrorView,
        >((seq![classify(slice)->0], rest)),
{
    let tokens = slice + seq![TokenView::ClosingParenthesis] + rest;
    let n = slice.len() as int;
    assert(forall|k: int| 0 <= k < n ==> tokens[k] == slice[k]);
    assert(tokens[n] == TokenView::ClosingParenthesis);
    assert(tokens.take(n) =~= slice);
    assert(tokens.skip(n + 1) =~= rest);
    lemma_plain_list(tokens, n);
    lemma_plain_list(slice, n);
    lemma_depth_step(tokens, list_policy(), n);
    lemma_below_from(tokens, list_policy(), 0, n);
    lemma_cut_from(slice, list_policy(), 0, n);
    assert(slice.take(n) =~= slice);
}

/// Text runs and asterisks open and close no group: behind any number of
/// them the depth is zero.
proof fn lemma_plain_list(tokens: Seq<TokenView>, count: int)
    requires
        0 <= count <= tokens.len(),
        forall|k: int|
            0 <= k < count ==> #[trigger] tokens[k] is Text || tokens[k] == TokenView::Asterisk,
    ensures
        forall|k: int|
            0 <= k <= count ==> crate::utils::depth(#[trigger] tokens.take(k), list_policy()) == 0,
        forall|k: int| 0 <= k < count ==> !crate::utils::is_cut(tokens, list_policy(), k),
    decreases count,
{
    assert(tokens.take(0) =~= Seq::<TokenView>::empty());
    if count > 0 {
        lemma_plain_list(tokens, count - 1);
        lemma_depth_step(tokens, list_policy(), count - 1);
        assert(tokens[count - 1] is Text || tokens[count - 1] == TokenView::Asterisk);
        assert(token_step::<ParenthesisIndentationInfo>(tokens[count - 1]) == 0);
    }
}

/// A list that stands for parameters holds no parenthesis.
pub proof fn lemma_no_parenthesis(tokens: Seq<TokenView>)
    requires
        parameters_of(tokens) is Ok,
    ensures
        forall|k: int|
            0 <= k < tokens.len() ==> #[trigger] tokens[k] != TokenView::ClosingParenthesis
                && tokens[k] != TokenView::OpeningParenthesis,
    decreases tokens.len(),
{
    lemma_cut_from(tokens, list_policy(), 0, 0);
    let cut = first_cut(tokens, list_policy());
    let head = first_slice(tokens);
    assert forall|k: int| 0 <= k < cut implies #[trigger] tokens[k]
        != TokenView::ClosingParenthesis && tokens[k] != TokenView::OpeningParenthesis by {
        assert(head[k] == tokens[k]);
    }
    if has_comma(tokens) {
        let tail = behind_comma(tokens);
        lemma_no_parenthesis(tail);
        assert(crate::utils::is_cut(tokens, list_policy(), cut));
        assert forall|k: int| cut < k < tokens.len() implies #[trigger] tokens[k]
            != TokenView::ClosingParenthesis && tokens[k] != TokenView::OpeningParenthesis by {
            assert(tail[k - cut - 1] == tokens[k]);
        }
    }
}

/// Where a list is read, the parenthesis that closes it is the first
/// closing parenthesis at all: no other stands within the list.
pub proof fn lemma_list_ends_at_first_parenthesis(tokens: Seq<TokenView>)
    requires
        parse_spec(tokens) is Ok,
    ensures
        first_below(tokens, list_policy()) == index_of(tokens, TokenView::ClosingParenthesis),
        index_of(tokens, TokenView::ClosingParenthesis) < tokens.len(),
{
    let close = first_below(tokens, list_policy());
    let list = tokens.take(close);
    lemma_below_from(tokens, list_policy(), 0, 0);
    lemma_no_parenthesis(list);
    assert forall|k: int| 0 <= k < close implies tokens[k] != TokenView::ClosingParenthesis by {
        assert(list[k] == tokens[k]);
    }
    lemma_closes_below(tokens);
    lemma_index_from(tokens, TokenView::ClosingParenthesis, 0, close);
}

/// The token behind which the depth first falls below zero is a closing
/// parenthesis.
pub proof fn lemma_closes_below(tokens: Seq<TokenView>)
    requires
        first_below(tokens, list_policy()) < tokens.len(),
    ensures
        tokens[first_below(tokens, list_policy())] == TokenView::ClosingParenthesis,
{
    let close = first_below(tokens, list_policy());
    lemma_below_from(tokens, list_policy(), 0, 0);
    lemma_depth_step(tokens, list_policy(), close);
    if close > 0 {
        assert(crate::utils::depth(tokens.take((close - 1) + 1), list_policy()) >= 0);
    }
    assert(token_step::<ParenthesisIndentationInfo>(tokens[close]) < 0);
}

/// Three text runs in a row are no parameter, and a list that holds them
/// between its commas is refused with them.
pub proof fn lemma_three_text_runs(a: Seq<char>, b: Seq<char>, c: Seq<char>, rest: Seq<TokenView>)
    ensures
        classify(seq![TokenView::Text(a), TokenView::Text(b), TokenView::Text(c)]) is None,
        parse_spec(
            seq![
                TokenView::Text(a),
                TokenView::Text(b),
                TokenView::Text(c),
                TokenView::ClosingParenthesis,
            ] + rest,
        ) == Err::<(Seq<ParameterView>, Seq<TokenView>), ParseErrorView>(
            ParseErrorView::UnexpectedTokenShape {
                expected: Expected::Parameter,
                found: seq![TokenView::Text(a), TokenView::Text(b), TokenView::Text(c)],
            },
        ),
{
    let slice = seq![TokenView::Text(a), TokenView::Text(b), TokenView::Text(c)];
    let tokens = seq![
        TokenView::Text(a),
        TokenView::Text(b),
        TokenView::Text(c),
        TokenView::ClosingParenthesis,
    ] + rest;
    assert(forall|k: int| 0 <= k < 3 ==> tokens[k] == slice[k]);
    assert(tokens.take(3) =~= slice);
    lemma_plain_list(tokens, 3);
    lemma_plain_list(slice, 3);
    lemma_depth_step(tokens, list_policy(), 3);
    lemma_below_from(tokens, list_policy(), 0, 3);
    lemma_cut_from(slice, list_policy(), 0, 3);
    assert(slice.take(3) =~= slice);
}

/// The parameters come in the order of the slices that commas cut the list
/// into: the parameter at each index is the one that the slice at that index
/// stands for. A list fails with the first slice that stands for none.
pub proof fn lemma_parameters_in_order(tokens: Seq<TokenView>)
    ensures
        match parameters_of(tokens) {
            Ok(parameters) => {
                &&& parameters.len() == slices(tokens).len()
                &&& forall|i: int|
                    0 <= i < parameters.len() ==> classify(#[trigger] slices(tokens)[i]) == Some(
                        parameters[i],
                    )
            },
            Err(found) => exists|i: int|
                {
                    &&& 0 <= i < slices(tokens).len()
                    &&& #[trigger] slices(tokens)[i] == found
                    &&& classify(found) is None
                    &&& forall|j: int| 0 <= j < i ==> classify(#[trigger] slices(tokens)[j]) is Some
                },
        },
    decreases tokens.len(),
{
    lemma_cut_from(tokens, list_policy(), 0, 0);
    let head = first_slice(tokens);
    if has_comma(tokens) {
        let tail = behind_comma(tokens);
        lemma_parameters_in_order(tail);
        let all = slices(tokens);
        assert(all =~= seq![head] + slices(tail));
        assert(all[0] == head);
        assert(forall|i: int| 1 <= i < all.len() ==> all[i] == slices(tail)[i - 1]);
        match classify(head) {
            None => {
                assert(all[0] == head);
            },
            Some(p) => {
                match parameters_of(tail) {
                    Ok(more) => {
                        let parameters = seq![p] + more;
                        assert forall|i: int| 0 <= i < parameters.len() implies classify(
                            #[trigger] all[i],
                        ) == Some(parameters[i]) by {
                            if i > 0 {
                                assert(all[i] == slices(tail)[i - 1]);
                            }
                        }
                    },
                    Err(found) => {
                        let i = choose|i: int|
                            {
                                &&& 0 <= i < slices(tail).len()
                                &&& #[trigger] slices(tail)[i] == found
                                &&& classify(found) is None
                                &&& forall|j: int|
                                    0 <= j < i ==> classify(#[trigger] slices(tail)[j]) is Some
                            };
                        assert(all[i + 1] == found);
                        assert forall|j: int| 0 <= j < i + 1 implies classify(
                            #[trigger] all[j],
                        ) is Some by {
                            if j > 0 {
                                assert(all[j] == slices(tail)[j - 1]);
                            }
                        }
                    },
                }
            },
        }
    } else {
        assert(head =~= tokens);
        assert(slices(tokens)[0] == tokens);
    }
}

} // verus!
