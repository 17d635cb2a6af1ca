//! Enumeration groups and the variant names that they stand for.
//!
//! A variant is a name, a name with a colon and a variant behind it, or a
//! group: variants in brackets, separated by commas. A name in front of a
//! colon is put in front of every name behind it, so that the group
//! `Color: {Red, Green}` stands for `ColorRed` and `ColorGreen`. A name
//! with a group directly behind it lacks its colon.
use crate::error::{
    missing_delimiter, unbalanced_nesting, unexpected_shape, Delimiter, Expected, ParseError,
    ParseErrorView,
};
use crate::lexer::{lex, tokenize};
use crate::text::{lemma_encode_concat, lemma_encode_injective, lemma_offset_is_boundary};
use crate::token::{index_of, lemma_views_subrange, position, views, Token, TokenView};
use crate::utils::{
    behind, closes_group, closing, first_cut, first_piece_nested, group_end, is_well_nested,
    lemma_cut_from, opens_group, token_cut, token_policy, token_step, well_nested, Policy,
    VariantIndentationInfo,
};
use vstd::prelude::*;
use vstd::slice::slice_subrange;
use vstd::string::*;
use vstd::utf8::*;

verus! {

/// How the variants of a group are split: at commas, outside brackets.
pub open spec fn variant_policy() -> Policy<TokenView> {
    token_policy::<VariantIndentationInfo>(TokenView::Comma)
}

/// A single name.
pub open spec fn is_leaf(tokens: Seq<TokenView>) -> bool {
    tokens.len() == 1 && tokens[0] is Text
}

/// A name and a colon, with something behind them.
pub open spec fn is_named(tokens: Seq<TokenView>) -> bool {
    tokens.len() > 2 && tokens[0] is Text && tokens[1] == TokenView::Colon
}

/// A name with an opening bracket directly behind it: the colon between
/// them is missing.
pub open spec fn lacks_colon(tokens: Seq<TokenView>) -> bool {
    &&& tokens.len() >= 2
    &&& tokens[0] is Text
    &&& token_step::<VariantIndentationInfo>(tokens[1]) > 0
}

/// Something between an opening and a closing bracket.
pub open spec fn is_bracketed(tokens: Seq<TokenView>) -> bool {
    &&& tokens.len() >= 2
    &&& token_step::<VariantIndentationInfo>(tokens[0]) > 0
    &&& token_step::<VariantIndentationInfo>(tokens.last()) < 0
}

/// What stands between the first and the last token.
pub open spec fn inner(tokens: Seq<TokenView>) -> Seq<TokenView> {
    tokens.subrange(1, tokens.len() - 1)
}

/// The first piece of a list of variants.
pub open spec fn first_variant(tokens: Seq<TokenView>) -> Seq<TokenView> {
    tokens.take(first_cut(tokens, variant_policy()))
}

/// What stands behind the first piece of a list of variants.
pub open spec fn other_variants(tokens: Seq<TokenView>) -> Seq<TokenView> {
    behind(tokens, first_cut(tokens, variant_policy()))
}

/// What is wrong with a variant, if anything: the first part of it, from
/// the left, that lacks the colon between a name and its group, that is no
/// variant, or whose brackets do not match.
pub open spec fn node_error(tokens: Seq<TokenView>) -> Option<ParseErrorView>
    decreases tokens.len(), 0int,
{
    if is_leaf(tokens) {
        None
    } else if is_named(tokens) {
        node_error(tokens.skip(2))
    } else if lacks_colon(tokens) {
        Some(ParseErrorView::MissingDelimiter { expected: Delimiter::Colon, remaining: tokens })
    } else if is_bracketed(tokens) {
        list_error(inner(tokens))
    } else {
        Some(ParseErrorView::UnexpectedTokenShape { expected: Expected::Variant, found: tokens })
    }
}

/// What is wrong with a list of variants, if anything: the rest of the list
/// from the first variant on whose brackets do not match, or what is wrong
/// with the first variant that has a fault.
pub open spec fn list_error(tokens: Seq<TokenView>) -> Option<ParseErrorView>
    decreases tokens.len(), 1int,
{
    if tokens.len() == 0 {
        None
    } else if !first_piece_nested(tokens, variant_policy()) {
        Some(ParseErrorView::UnbalancedNesting { found: tokens })
    } else {
        proof {
            lemma_cut_from(tokens, variant_policy(), 0, 0);
        }
        match node_error(first_variant(tokens)) {
            Some(e) => Some(e),
            None => list_error(other_variants(tokens)),
        }
    }
}

/// The names that a variant stands for, each behind `prefix`, from the left.
pub open spec fn node_paths(tokens: Seq<TokenView>, prefix: Seq<char>) -> Seq<Seq<char>>
    decreases tokens.len(), 0int,
{
    if is_leaf(tokens) {
        seq![prefix + tokens[0]->Text_0]
    } else if is_named(tokens) {
        node_paths(tokens.skip(2), prefix + tokens[0]->Text_0)
    } else if is_bracketed(tokens) {
        list_paths(inner(tokens), prefix)
    } else {
        Seq::empty()
    }
}

/// The names that a list of variants stands for: those of its first
/// variant, then those of the others. An empty list stands for none.
pub open spec fn list_paths(tokens: Seq<TokenView>, prefix: Seq<char>) -> Seq<Seq<char>>
    decreases tokens.len(), 1int,
{
    if tokens.len() == 0 {
        Seq::empty()
    } else {
        proof {
            lemma_cut_from(tokens, variant_policy(), 0, 0);
        }
        node_paths(first_variant(tokens), prefix) + list_paths(other_variants(tokens), prefix)
    }
}

/// The variant names that `tokens` stand for, or what is wrong with them:
/// unbalanced brackets first, else the first part that lacks its colon or
/// is no variant.
pub open spec fn expansion(tokens: Seq<TokenView>) -> Result<Seq<Seq<char>>, ParseErrorView> {
    if !well_nested(tokens, variant_policy()) {
        Err(ParseErrorView::UnbalancedNesting { found: tokens })
    } else {
        match node_error(tokens) {
            Some(e) => Err(e),
            None => Ok(node_paths(tokens, Seq::empty())),
        }
    }
}

/// The variant names that a text stands for, or what is wrong with it.
pub open spec fn text_expansion(text: Seq<char>) -> Result<Seq<Seq<char>>, ParseErrorView> {
    match lex(text) {
        Err(e) => Err(ParseErrorView::Lex(e)),
        Ok(tokens) => expansion(tokens),
    }
}

/// What `parse` makes of the tokens at the cursor: the variant names of the
/// group declared there and the tokens that remain behind it, or the error.
pub open spec fn parse_spec(tokens: Seq<TokenView>) -> Result<
    (Seq<Seq<char>>, Seq<TokenView>),
    ParseErrorView,
> {
    let colon = index_of(tokens, TokenView::Colon);
    let tree = tokens.skip(2);
    let end = closing(tree, variant_policy());
    if colon >= tokens.len() || lacks_colon(tokens) {
        Err(ParseErrorView::MissingDelimiter { expected: Delimiter::Colon, remaining: tokens })
    } else if !(colon == 1 && tokens[0] is Text) {
        Err(
            ParseErrorView::UnexpectedTokenShape {
                expected: Expected::GroupName,
                found: tokens.take(colon),
            },
        )
    } else if tree.len() == 0 || token_step::<VariantIndentationInfo>(tree[0]) <= 0 {
        Err(ParseErrorView::UnexpectedTokenShape { expected: Expected::Variant, found: tree })
    } else if end >= tree.len() {
        Err(ParseErrorView::UnbalancedNesting { found: tree })
    } else {
        match expansion(tokens.take(end + 3)) {
            Ok(paths) => Ok((paths, tokens.skip(end + 3))),
            Err(e) => Err(e),
        }
    }
}

/// The number of bytes that a name takes in a string.
pub open spec fn bytes_of(name: Seq<char>) -> nat {
    encode_utf8(name).len()
}

/// The greater of two numbers.
pub open spec fn greater(a: nat, b: nat) -> nat {
    if a >= b {
        a
    } else {
        b
    }
}

/// The length in bytes of the longest name that a variant stands for, its
/// prefix not counted.
pub open spec fn longest_in_node(tokens: Seq<TokenView>) -> nat
    decreases tokens.len(), 0int,
{
    if is_leaf(tokens) {
        bytes_of(tokens[0]->Text_0)
    } else if is_named(tokens) {
        bytes_of(tokens[0]->Text_0) + longest_in_node(tokens.skip(2))
    } else if is_bracketed(tokens) {
        longest_in_list(inner(tokens))
    } else {
        0
    }
}

/// The length in bytes of the longest name that a list of variants stands
/// for, its prefix not counted.
pub open spec fn longest_in_list(tokens: Seq<TokenView>) -> nat
    decreases tokens.len(), 1int,
{
    if tokens.len() == 0 {
        0
    } else {
        proof {
            lemma_cut_from(tokens, variant_policy(), 0, 0);
        }
        greater(longest_in_node(first_variant(tokens)), longest_in_list(other_variants(tokens)))
    }
}

/// A length as far as a `usize` holds it.
pub open spec fn capped(length: nat) -> usize {
    if length > usize::MAX {
        usize::MAX
    } else {
        length as usize
    }
}

/// Whether `tokens` begin with a name and an opening bracket directly
/// behind it.
pub fn group_lacks_colon(tokens: &[Token<'_>]) -> (lacks: bool)
    ensures
        lacks == lacks_colon(views(tokens@)),
{
    if tokens.len() < 2 {
        return false;
    }
    match tokens[0] {
        Token::Text(_) => opens_group::<VariantIndentationInfo>(&tokens[1]),
        _ => false,
    }
}

/// Checks a variant and measures its longest name.
///
/// Returns what is wrong with the variant, if anything, and else the length
/// in bytes of the longest name that it stands for, as far as a `usize`
/// holds it.
pub fn check_node<'s>(tokens: &[Token<'s>]) -> (result: Result<usize, ParseError<'s>>)
    ensures
        match result {
            Ok(longest) => node_error(views(tokens@)) is None && longest == capped(
                longest_in_node(views(tokens@)),
            ),
            Err(e) => node_error(views(tokens@)) == Some(e@),
        },
    decreases tokens@.len(), 0int,
{
    let n: usize = tokens.len();
    if n == 1 {
        if let Token::Text(name) = tokens[0] {
            return Ok(name.as_bytes().len());
        }
    }
    if n > 2 {
        if let (Token::Text(name), Token::Colon) = (tokens[0], tokens[1]) {
            let tail = slice_subrange(tokens, 2, n);
            proof {
                lemma_views_subrange(tokens@, 2, n as int);
            }
            return match check_node(tail) {
                Ok(longest) => Ok(name.as_bytes().len().saturating_add(longest)),
                Err(e) => Err(e),
            };
        }
    }
    if group_lacks_colon(tokens) {
        return Err(missing_delimiter(Delimiter::Colon, tokens));
    }
    if n >= 2 {
        if opens_group::<VariantIndentationInfo>(&tokens[0]) && closes_group::<
            VariantIndentationInfo,
        >(&tokens[n - 1]) {
            let list = slice_subrange(tokens, 1, n - 1);
            proof {
                lemma_views_subrange(tokens@, 1, n - 1);
            }
            return check_list(list);
        }
    }
    Err(unexpected_shape(Expected::Variant, tokens))
}

/// Checks a list of variants and measures its longest name, piece by piece.
pub fn check_list<'s>(tokens: &[Token<'s>]) -> (result: Result<usize, ParseError<'s>>)
    ensures
        match result {
            Ok(longest) => list_error(views(tokens@)) is None && longest == capped(
                longest_in_list(views(tokens@)),
            ),
            Err(e) => list_error(views(tokens@)) == Some(e@),
        },
    decreases tokens@.len(), 1int,
{
    let ghost items = views(tokens@);
    let n: usize = tokens.len();
    let mut start: usize = 0;
    let mut longest: usize = 0;
    proof {
        assert(items.skip(0) =~= items);
    }
    while start < n
        invariant
            items == views(tokens@),
            n == tokens@.len(),
            start <= n,
            list_error(items) == list_error(items.skip(start as int)),
            capped(longest_in_list(items)) == capped(
                greater(longest as nat, longest_in_list(items.skip(start as int))),
            ),
        decreases n - start,
    {
        let left = slice_subrange(tokens, start, n);
        proof {
            lemma_views_subrange(tokens@, start as int, n as int);
            assert(views(left@) =~= items.skip(start as int));
            lemma_cut_from(views(left@), variant_policy(), 0, 0);
        }
        match token_cut::<VariantIndentationInfo>(left, &Token::Comma) {
            Err(_) => {
                return Err(unbalanced_nesting(left));
            },
            Ok(cut) => {
                let piece = slice_subrange(left, 0, cut);
                proof {
                    lemma_views_subrange(left@, 0, cut as int);
                }
                match check_node(piece) {
                    Err(e) => {
                        return Err(e);
                    },
                    Ok(length) => {
                        if length > longest {
                            longest = length;
                        }
                    },
                }
                proof {
                    if cut < left@.len() {
                        assert(behind(views(left@), cut as int) =~= items.skip(start + cut + 1));
                    } else {
                        assert(behind(views(left@), cut as int) =~= items.skip(n as int));
                    }
                }
                if cut >= left.len() {
                    start = n;
                } else {
                    start = start + cut + 1;
                }
            },
        }
    }
    proof {
        assert(items.skip(start as int) =~= Seq::<TokenView>::empty());
    }
    Ok(longest)
}

/// Checks the tokens of a variant and measures its longest name.
///
/// Returns what is wrong with the tokens, if anything: unbalanced brackets
/// first, else the first part that lacks its colon or is no variant. Else
/// it returns the length
/// in bytes of the longest name that the variant stands for, as far as a
/// `usize` holds it.
pub fn check<'s>(tokens: &[Token<'s>]) -> (result: Result<usize, ParseError<'s>>)
    ensures
        match result {
            Ok(longest) => expansion(views(tokens@)) is Ok && longest == capped(
                longest_in_node(views(tokens@)),
            ),
            Err(e) => expansion(views(tokens@)) == Err::<Seq<Seq<char>>, ParseErrorView>(e@),
        },
{
    if !is_well_nested::<VariantIndentationInfo>(tokens, &Token::Comma) {
        return Err(unbalanced_nesting(tokens));
    }
    check_node(tokens)
}

/// No name that a variant stands for is longer than its prefix and the
/// longest name of the variant together.
pub proof fn lemma_names_fit(tokens: Seq<TokenView>, prefix: Seq<char>)
    ensures
        forall|i: int|
            0 <= i < node_paths(tokens, prefix).len() ==> bytes_of(
                #[trigger] node_paths(tokens, prefix)[i],
            ) <= bytes_of(prefix) + longest_in_node(tokens),
    decreases tokens.len(), 0int,
{
    let names = node_paths(tokens, prefix);
    if is_leaf(tokens) {
        lemma_encode_concat(prefix, tokens[0]->Text_0);
        assert(names =~= seq![prefix + tokens[0]->Text_0]);
    } else if is_named(tokens) {
        let longer = prefix + tokens[0]->Text_0;
        lemma_encode_concat(prefix, tokens[0]->Text_0);
        lemma_names_fit(tokens.skip(2), longer);
        assert(names == node_paths(tokens.skip(2), longer));
        assert(bytes_of(longer) == bytes_of(prefix) + bytes_of(tokens[0]->Text_0));
        assert forall|i: int| 0 <= i < names.len() implies bytes_of(#[trigger] names[i])
            <= bytes_of(prefix) + longest_in_node(tokens) by {
            assert(names[i] == node_paths(tokens.skip(2), longer)[i]);
        }
    } else if is_bracketed(tokens) {
        lemma_list_names_fit(inner(tokens), prefix);
        assert(names == list_paths(inner(tokens), prefix));
        assert forall|i: int| 0 <= i < names.len() implies bytes_of(#[trigger] names[i])
            <= bytes_of(prefix) + longest_in_node(tokens) by {
            assert(names[i] == list_paths(inner(tokens), prefix)[i]);
        }
    } else {
        assert(names =~= Seq::<Seq<char>>::empty());
    }
}

/// No name that a list of variants stands for is longer than its prefix and
/// the longest name of the list together.
pub proof fn lemma_list_names_fit(tokens: Seq<TokenView>, prefix: Seq<char>)
    ensures
        forall|i: int|
            0 <= i < list_paths(tokens, prefix).len() ==> bytes_of(
                #[trigger] list_paths(tokens, prefix)[i],
            ) <= bytes_of(prefix) + longest_in_list(tokens),
    decreases tokens.len(), 1int,
{
    if tokens.len() > 0 {
        lemma_cut_from(tokens, variant_policy(), 0, 0);
        let head = node_paths(first_variant(tokens), prefix);
        let tail = list_paths(other_variants(tokens), prefix);
        lemma_names_fit(first_variant(tokens), prefix);
        lemma_list_names_fit(other_variants(tokens), prefix);
        assert forall|i: int| 0 <= i < list_paths(tokens, prefix).len() implies bytes_of(
            #[trigger] list_paths(tokens, prefix)[i],
        ) <= bytes_of(prefix) + longest_in_list(tokens) by {
            if i < head.len() {
                assert(list_paths(tokens, prefix)[i] == head[i]);
            } else {
                assert(list_paths(tokens, prefix)[i] == tail[i - head.len()]);
            }
        }
    }
}

/// Whether `text` begins with `prefix`.
pub open spec fn starts_with(text: Seq<char>, prefix: Seq<char>) -> bool {
    prefix.len() <= text.len() && text.take(prefix.len() as int) =~= prefix
}

/// A list of variants that is still to be expanded: the tokens from `start`
/// up to `end`, with the length in bytes of the prefix that goes in front of
/// their names.
#[derive(Clone, Copy)]
struct Frame {
    mark: usize,
    start: usize,
    end: usize,
}

/// The tokens of a frame.
spec fn span(tokens: Seq<TokenView>, frame: Frame) -> Seq<TokenView> {
    tokens.subrange(frame.start as int, frame.end as int)
}

/// Whether a frame holds a list of variants without fault, and the length
/// of its prefix.
spec fn frame_ok(tokens: Seq<TokenView>, frame: Frame, prefix: Seq<char>) -> bool {
    &&& frame.start <= frame.end <= tokens.len()
    &&& list_error(span(tokens, frame)) is None
    &&& frame.mark == encode_utf8(prefix).len()
}

/// Whether each frame is in order, with the prefix of the same index.
spec fn frames_ok(tokens: Seq<TokenView>, frames: Seq<Frame>, prefixes: Seq<Seq<char>>) -> bool
    decreases frames.len(),
{
    if frames.len() == 0 {
        prefixes.len() == 0
    } else {
        &&& prefixes.len() == frames.len()
        &&& frame_ok(tokens, frames.last(), prefixes.last())
        &&& frames_ok(tokens, frames.drop_last(), prefixes.drop_last())
    }
}

/// Whether each prefix begins with the one before it, and `buffer` with the
/// last.
spec fn chained(prefixes: Seq<Seq<char>>, buffer: Seq<char>) -> bool
    decreases prefixes.len(),
{
    if prefixes.len() == 0 {
        true
    } else {
        starts_with(buffer, prefixes.last()) && chained(prefixes.drop_last(), prefixes.last())
    }
}

/// The names that the frames still stand for, those of the last frame
/// first.
spec fn pending(tokens: Seq<TokenView>, frames: Seq<Frame>, prefixes: Seq<Seq<char>>) -> Seq<
    Seq<char>,
>
    decreases frames.len(),
{
    if frames.len() == 0 || prefixes.len() != frames.len() {
        Seq::empty()
    } else {
        list_paths(span(tokens, frames.last()), prefixes.last()) + pending(
            tokens,
            frames.drop_last(),
            prefixes.drop_last(),
        )
    }
}

/// The number of tokens in all frames.
spec fn weight(frames: Seq<Frame>) -> int
    decreases frames.len(),
{
    if frames.len() == 0 {
        0
    } else {
        (frames.last().end - frames.last().start) + weight(frames.drop_last())
    }
}

/// A prefix of a prefix is a prefix.
proof fn lemma_starts_with_chain(text: Seq<char>, middle: Seq<char>, prefix: Seq<char>)
    requires
        starts_with(text, middle),
        starts_with(middle, prefix),
    ensures
        starts_with(text, prefix),
{
    assert(text.take(prefix.len() as int) =~= text.take(middle.len() as int).take(
        prefix.len() as int,
    ));
}

/// What begins with the buffer begins with every prefix.
proof fn lemma_chained_longer(prefixes: Seq<Seq<char>>, buffer: Seq<char>, longer: Seq<char>)
    requires
        chained(prefixes, buffer),
        starts_with(longer, buffer),
    ensures
        chained(prefixes, longer),
{
    if prefixes.len() > 0 {
        lemma_starts_with_chain(longer, buffer, prefixes.last());
    }
}

/// The buffer may be cut down to the last prefix.
proof fn lemma_chained_cut(prefixes: Seq<Seq<char>>, buffer: Seq<char>)
    requires
        chained(prefixes, buffer),
        prefixes.len() > 0,
    ensures
        chained(prefixes, prefixes.last()),
        starts_with(buffer, prefixes.last()),
{
    assert(prefixes.last().take(prefixes.last().len() as int) =~= prefixes.last());
}

/// Without the last prefix the chain still holds.
proof fn lemma_chained_pop(prefixes: Seq<Seq<char>>, buffer: Seq<char>)
    requires
        chained(prefixes, buffer),
        prefixes.len() > 0,
    ensures
        chained(prefixes.drop_last(), buffer),
{
    lemma_chained_longer(prefixes.drop_last(), prefixes.last(), buffer);
}

/// The buffer may become the last prefix.
proof fn lemma_chained_push(prefixes: Seq<Seq<char>>, buffer: Seq<char>)
    requires
        chained(prefixes, buffer),
    ensures
        chained(prefixes.push(buffer), buffer),
{
    assert(buffer.take(buffer.len() as int) =~= buffer);
    assert(prefixes.push(buffer).drop_last() =~= prefixes);
}

/// A text with something behind it begins with what the text begins with.
proof fn lemma_starts_with_append(text: Seq<char>, prefix: Seq<char>, more: Seq<char>)
    requires
        starts_with(text, prefix),
    ensures
        starts_with(text + more, prefix),
        starts_with(text + more, text),
{
    assert((text + more).take(prefix.len() as int) =~= text.take(prefix.len() as int));
    assert((text + more).take(text.len() as int) =~= text);
}

/// Frames that are in order hold no negative number of tokens.
proof fn lemma_weight(tokens: Seq<TokenView>, frames: Seq<Frame>, prefixes: Seq<Seq<char>>)
    requires
        frames_ok(tokens, frames, prefixes),
    ensures
        weight(frames) >= 0,
    decreases frames.len(),
{
    if frames.len() > 0 {
        lemma_weight(tokens, frames.drop_last(), prefixes.drop_last());
    }
}

/// Taking the first variant off the last frame: what the frames stood for
/// is what that variant stands for, then what the frames stand for now.
proof fn lemma_take(
    tokens: Seq<TokenView>,
    frames: Seq<Frame>,
    prefixes: Seq<Seq<char>>,
    rest: Frame,
)
    requires
        frames_ok(tokens, frames, prefixes),
        frames.len() > 0,
        frames.last().start < frames.last().end,
        rest.mark == frames.last().mark,
        rest.end == frames.last().end,
        rest.start <= rest.end,
        span(tokens, rest) == other_variants(span(tokens, frames.last())),
    ensures
        frames_ok(tokens, frames.update(frames.len() - 1, rest), prefixes),
        node_error(first_variant(span(tokens, frames.last()))) is None,
        pending(tokens, frames, prefixes) == node_paths(
            first_variant(span(tokens, frames.last())),
            prefixes.last(),
        ) + pending(tokens, frames.update(frames.len() - 1, rest), prefixes),
        weight(frames.update(frames.len() - 1, rest)) == weight(frames) - (frames.last().end
            - frames.last().start) + (rest.end - rest.start),
{
    let after = frames.update(frames.len() - 1, rest);
    let list = span(tokens, frames.last());
    assert(after.drop_last() =~= frames.drop_last());
    assert(after.last() == rest);
    assert(list.len() > 0);
    lemma_cut_from(list, variant_policy(), 0, 0);
    assert(list_error(list) is None);
    assert(list_paths(list, prefixes.last()) == node_paths(first_variant(list), prefixes.last())
        + list_paths(other_variants(list), prefixes.last()));
    assert(pending(tokens, frames, prefixes) =~= node_paths(first_variant(list), prefixes.last())
        + pending(tokens, after, prefixes));
}

/// `String::with_capacity`: an empty string with room for `capacity` bytes.
/// The contract leaves out the capacities above `isize::MAX`, on which the
/// function panics.
pub assume_specification[ String::with_capacity ](capacity: usize) -> (text: String)
    requires
        capacity <= isize::MAX,
    ensures
        text@ == Seq::<char>::empty(),
;

/// `String::truncate`: cuts `text` down to its first `len` bytes. The
/// contract asks that `len` lies within the text and on a character
/// boundary, where the method would have no effect or panic otherwise.
#[verifier::external_body]
fn truncate(text: &mut String, len: usize)
    requires
        len <= encode_utf8(old(text)@).len(),
        is_char_boundary(encode_utf8(old(text)@), len as int),
    ensures
        encode_utf8(final(text)@) == encode_utf8(old(text)@).subrange(0, len as int),
{
    text.truncate(len)
}

/// The length of a prefix in bytes lies on a character boundary of the text.
proof fn lemma_prefix_boundary(text: Seq<char>, prefix: Seq<char>)
    requires
        starts_with(text, prefix),
    ensures
        is_char_boundary(encode_utf8(text), encode_utf8(prefix).len() as int),
        encode_utf8(prefix).len() <= encode_utf8(text).len(),
        encode_utf8(text).subrange(0, encode_utf8(prefix).len() as int) == encode_utf8(prefix),
{
    let n = prefix.len() as int;
    lemma_offset_is_boundary(text, n);
    lemma_encode_concat(text.take(n), text.skip(n));
    assert(text.take(n) + text.skip(n) =~= text);
    assert(encode_utf8(text).subrange(0, encode_utf8(prefix).len() as int) =~= encode_utf8(
        prefix,
    ));
}

/// Cuts `text` down to `prefix`, whose length in bytes is `mark`.
fn cut_to(text: &mut String, mark: usize, Ghost(prefix): Ghost<Seq<char>>)
    requires
        starts_with(old(text)@, prefix),
        mark == encode_utf8(prefix).len(),
    ensures
        final(text)@ == prefix,
{
    proof {
        lemma_prefix_boundary(text@, prefix);
    }
    truncate(text, mark);
    proof {
        lemma_encode_injective(text@, prefix);
    }
}

/// The variant names of an enumeration group, one at a time, from the left.
pub struct VariantIter<'source> {
    source: &'source [Token<'source>],
    buffer: String,
    frames: Vec<Frame>,
    prefixes: Ghost<Seq<Seq<char>>>,
}

impl<'source> VariantIter<'source> {
    /// Whether the state is one that `new` or `parse` made and `next` kept.
    pub closed spec fn wf(&self) -> bool {
        &&& frames_ok(views(self.source@), self.frames@, self.prefixes@)
        &&& chained(self.prefixes@, self.buffer@)
    }

    /// The names that are still to come, in their order.
    pub closed spec fn remaining(&self) -> Seq<Seq<char>> {
        pending(views(self.source@), self.frames@, self.prefixes@)
    }

    /// Starts on tokens that stand for a variant without fault, with room
    /// in the buffer for a name of `longest` bytes.
    fn start(tokens: &'source [Token<'source>], longest: usize) -> (iter: Self)
        requires
            expansion(views(tokens@)) is Ok,
        ensures
            iter.wf(),
            expansion(views(tokens@)) == Ok::<Seq<Seq<char>>, ParseErrorView>(iter.remaining()),
    {
        let mut frames: Vec<Frame> = Vec::new();
        frames.push(Frame { mark: 0, start: 0, end: tokens.len() });
        let ghost prefixes = Seq::<Seq<char>>::empty().push(Seq::<char>::empty());
        let room: usize = if longest > isize::MAX as usize {
            isize::MAX as usize
        } else {
            longest
        };
        let iter = VariantIter {
            source: tokens,
            buffer: String::with_capacity(room),
            frames,
            prefixes: Ghost(prefixes),
        };
        proof {
            let items = views(tokens@);
            lemma_node_is_one_piece(items, Seq::empty());
            assert(items.subrange(0, items.len() as int) =~= items);
            assert(iter.frames@.drop_last() =~= Seq::<Frame>::empty());
            assert(iter.prefixes@.drop_last() =~= Seq::<Seq<char>>::empty());
            assert(span(items, iter.frames@.last()) == items);
            assert(frames_ok(items, iter.frames@.drop_last(), iter.prefixes@.drop_last()));
            assert(pending(items, iter.frames@.drop_last(), iter.prefixes@.drop_last())
                =~= Seq::<Seq<char>>::empty());
            assert(pending(items, iter.frames@, iter.prefixes@) =~= list_paths(
                items,
                Seq::empty(),
            ));
            lemma_chained_push(Seq::empty(), Seq::empty());
        }
        iter
    }

    /// The names of the variant that `tokens` stand for.
    ///
    /// Fails where the brackets of `tokens` do not match, where a name has
    /// its group directly behind it, without the colon, or where a part of
    /// the tokens is no variant.
    pub fn new(tokens: &'source [Token<'source>]) -> (result: Result<Self, ParseError<'source>>)
        ensures
            match result {
                Ok(iter) => iter.wf() && expansion(views(tokens@)) == Ok::<
                    Seq<Seq<char>>,
                    ParseErrorView,
                >(iter.remaining()),
                Err(e) => expansion(views(tokens@)) == Err::<Seq<Seq<char>>, ParseErrorView>(e@),
            },
    {
        match check(tokens) {
            Err(e) => Err(e),
            Ok(longest) => Ok(Self::start(tokens, longest)),
        }
    }

    /// Drops the last frame, which holds no tokens any more.
    fn leave(&mut self)
        requires
            old(self).wf(),
            old(self).frames@.len() > 0,
            old(self).frames@.last().start >= old(self).frames@.last().end,
        ensures
            final(self).wf(),
            final(self).source == old(self).source,
            final(self).remaining() == old(self).remaining(),
            final(self).frames@ == old(self).frames@.drop_last(),
            weight(final(self).frames@) == weight(old(self).frames@),
    {
        let ghost tokens = views(self.source@);
        let ghost frames = self.frames@;
        let ghost prefixes = self.prefixes@;
        self.frames.pop();
        proof {
            self.prefixes = Ghost(prefixes.drop_last());
            assert(self.frames@ =~= frames.drop_last());
            assert(span(tokens, frames.last()).len() == 0);
            assert(pending(tokens, frames, prefixes) =~= pending(
                tokens,
                frames.drop_last(),
                prefixes.drop_last(),
            ));
            lemma_chained_pop(prefixes, self.buffer@);
        }
    }

    /// Takes the first variant off the last frame and cuts the buffer down
    /// to the prefix of that frame. Returns the bounds of the variant.
    fn take_variant(&mut self) -> (bounds: (usize, usize))
        requires
            old(self).wf(),
            old(self).frames@.len() > 0,
            old(self).frames@.last().start < old(self).frames@.last().end,
        ensures
            final(self).wf(),
            final(self).source == old(self).source,
            bounds.0 <= bounds.1 <= final(self).source@.len(),
            node_error(views(final(self).source@).subrange(bounds.0 as int, bounds.1 as int))
                is None,
            old(self).remaining() == node_paths(
                views(final(self).source@).subrange(bounds.0 as int, bounds.1 as int),
                final(self).buffer@,
            ) + final(self).remaining(),
            weight(final(self).frames@) + (bounds.1 - bounds.0) <= weight(old(self).frames@),
    {
        let source = self.source;
        let ghost tokens = views(source@);
        let ghost frames = self.frames@;
        let ghost prefixes = self.prefixes@;
        let top: usize = self.frames.len() - 1;
        let frame: Frame = self.frames[top];
        let ghost list = span(tokens, frame);
        let part = slice_subrange(source, frame.start, frame.end);
        proof {
            lemma_views_subrange(source@, frame.start as int, frame.end as int);
            lemma_cut_from(list, variant_policy(), 0, 0);
            assert(list_error(list) is None);
            assert(first_piece_nested(list, variant_policy()));
        }
        let cut: usize = token_cut::<VariantIndentationInfo>(part, &Token::Comma).unwrap();
        let end: usize = frame.start + cut;
        let next: usize = if cut < part.len() {
            end + 1
        } else {
            frame.end
        };
        let rest = Frame { mark: frame.mark, start: next, end: frame.end };
        self.frames[top] = rest;
        proof {
            lemma_chained_cut(prefixes, self.buffer@);
        }
        cut_to(&mut self.buffer, frame.mark, Ghost(prefixes.last()));
        proof {
            assert(self.frames@ =~= frames.update(top as int, rest));
            assert(span(tokens, rest) =~= other_variants(list));
            assert(tokens.subrange(frame.start as int, end as int) =~= first_variant(list));
            lemma_take(tokens, frames, prefixes, rest);
        }
        (frame.start, end)
    }

    /// Puts the names in front of colons, from `at` on, behind the buffer.
    /// Returns where the rest of the variant begins.
    fn enter_names(&mut self, at: usize, end: usize) -> (from: usize)
        requires
            at <= end <= old(self).source@.len(),
            node_error(views(old(self).source@).subrange(at as int, end as int)) is None,
        ensures
            final(self).source == old(self).source,
            final(self).frames@ == old(self).frames@,
            final(self).prefixes@ == old(self).prefixes@,
            at <= from < end,
            starts_with(final(self).buffer@, old(self).buffer@),
            !is_named(views(final(self).source@).subrange(from as int, end as int)),
            node_error(views(final(self).source@).subrange(from as int, end as int)) is None,
            node_paths(
                views(final(self).source@).subrange(from as int, end as int),
                final(self).buffer@,
            ) == node_paths(
                views(old(self).source@).subrange(at as int, end as int),
                old(self).buffer@,
            ),
    {
        let source = self.source;
        let ghost tokens = views(source@);
        let ghost piece = tokens.subrange(at as int, end as int);
        let ghost prefix = self.buffer@;
        let mut from: usize = at;
        proof {
            if at == end {
                assert(!is_leaf(piece) && !is_named(piece) && !is_bracketed(piece));
            }
            assert(prefix.take(prefix.len() as int) =~= prefix);
        }
        loop
            invariant
                self.source == source,
                tokens == views(source@),
                self.frames@ == old(self).frames@,
                self.prefixes@ == old(self).prefixes@,
                source == old(self).source,
                prefix == old(self).buffer@,
                piece == tokens.subrange(at as int, end as int),
                at <= from < end <= source@.len(),
                starts_with(self.buffer@, prefix),
                node_error(tokens.subrange(from as int, end as int)) is None,
                node_paths(tokens.subrange(from as int, end as int), self.buffer@) == node_paths(
                    piece,
                    prefix,
                ),
            ensures
                !is_named(tokens.subrange(from as int, end as int)),
            decreases end - from,
        {
            let ghost here = tokens.subrange(from as int, end as int);
            if end - from <= 2 {
                break;
            }
            proof {
                assert(here[0] == source@[from as int]@);
                assert(here[1] == source@[from + 1]@);
            }
            let name = match (source[from], source[from + 1]) {
                (Token::Text(name), Token::Colon) => name,
                _ => {
                    break;
                },
            };
            let ghost before = self.buffer@;
            self.buffer.append(name);
            proof {
                assert(is_named(here));
                assert(here.skip(2) =~= tokens.subrange(from + 2, end as int));
                lemma_starts_with_append(before, prefix, name@);
                if from + 2 == end {
                    let tail = tokens.subrange(from + 2, end as int);
                    assert(!is_leaf(tail) && !is_named(tail) && !is_bracketed(tail));
                }
            }
            from = from + 2;
        }
        from
    }

    /// Goes into the variant between `at` and `end`, with the buffer as its
    /// prefix. A single name is put behind the buffer and returned; the list
    /// of a group becomes a new frame.
    fn enter(&mut self, at: usize, end: usize) -> (path: Option<String>)
        requires
            old(self).wf(),
            at <= end <= old(self).source@.len(),
            node_error(views(old(self).source@).subrange(at as int, end as int)) is None,
        ensures
            final(self).wf(),
            final(self).source == old(self).source,
            match path {
                Some(name) => {
                    &&& node_paths(
                        views(old(self).source@).subrange(at as int, end as int),
                        old(self).buffer@,
                    ) == seq![name@]
                    &&& final(self).frames@ == old(self).frames@
                    &&& final(self).prefixes@ == old(self).prefixes@
                },
                None => {
                    &&& final(self).remaining() == node_paths(
                        views(old(self).source@).subrange(at as int, end as int),
                        old(self).buffer@,
                    ) + old(self).remaining()
                    &&& weight(final(self).frames@) + 2 <= weight(old(self).frames@) + (end - at)
                },
            },
    {
        let source = self.source;
        let ghost tokens = views(source@);
        let ghost frames = self.frames@;
        let ghost prefixes = self.prefixes@;
        let from = self.enter_names(at, end);
        let ghost here = tokens.subrange(from as int, end as int);
        let ghost prefix = self.buffer@;
        proof {
            assert(here[0] == source@[from as int]@);
            lemma_chained_longer(prefixes, old(self).buffer@, prefix);
        }
        if end - from == 1 {
            if let Token::Text(name) = source[from] {
                self.buffer.append(name);
                proof {
                    assert(is_leaf(here));
                    lemma_starts_with_append(prefix, prefix, name@);
                    lemma_chained_longer(prefixes, prefix, self.buffer@);
                }
                return Some(self.buffer.clone());
            }
        }
        proof {
            assert(!is_leaf(here));
            assert(is_bracketed(here));
            assert(inner(here) =~= tokens.subrange(from + 1, end - 1));
        }
        let mark: usize = self.buffer.as_str().as_bytes().len();
        let frame = Frame { mark, start: from + 1, end: end - 1 };
        self.frames.push(frame);
        proof {
            self.prefixes = Ghost(prefixes.push(prefix));
            assert(self.frames@.drop_last() =~= frames);
            assert(self.prefixes@.drop_last() =~= prefixes);
            lemma_chained_push(prefixes, prefix);
        }
        None
    }

    /// The next variant name, or `None` when all have been given.
    pub fn next(&mut self) -> (path: Option<String>)
        requires
            old(self).wf(),
        ensures
            final(self).wf(),
            match path {
                Some(name) => {
                    &&& old(self).remaining().len() > 0
                    &&& name@ == old(self).remaining()[0]
                    &&& final(self).remaining() == old(self).remaining().drop_first()
                },
                None => old(self).remaining().len() == 0 && final(self).remaining().len() == 0,
            },
    {
        loop
            invariant
                self.wf(),
                self.source == old(self).source,
                self.remaining() == old(self).remaining(),
            decreases weight(self.frames@), self.frames@.len(),
        {
            if self.frames.len() == 0 {
                return None;
            }
            let top: usize = self.frames.len() - 1;
            if self.frames[top].start >= self.frames[top].end {
                self.leave();
            } else {
                let ghost before = self.remaining();
                let (at, end) = self.take_variant();
                let ghost between = self.remaining();
                match self.enter(at, end) {
                    Some(name) => {
                        proof {
                            assert(before =~= seq![name@] + between);
                            assert(before.drop_first() =~= between);
                        }
                        return Some(name);
                    },
                    None => {},
                }
            }
            proof {
                lemma_weight(views(self.source@), self.frames@, self.prefixes@);
            }
        }
    }
}

/// The characters of each string of a sequence.
pub open spec fn strings(names: Seq<String>) -> Seq<Seq<char>> {
    names.map_values(|name: String| name@)
}

/// The variant names that `variant` stands for, in the order of the text.
///
/// `variant` is a name, a name with a colon and a variant behind it, or
/// variants in brackets, separated by commas. A name alone stands for
/// itself; an empty pair of brackets stands for no name at all. A name with
/// a group directly behind it is refused for its missing colon.
pub fn expand_variant<'s>(variant: &'s str) -> (result: Result<Vec<String>, ParseError<'s>>)
    ensures
        match result {
            Ok(names) => text_expansion(variant@) == Ok::<Seq<Seq<char>>, ParseErrorView>(
                strings(names@),
            ),
            Err(e) => text_expansion(variant@) == Err::<Seq<Seq<char>>, ParseErrorView>(e@),
        },
{
    let tokens = match tokenize(variant) {
        Ok(tokens) => tokens,
        Err(e) => {
            return Err(ParseError::Lex(e));
        },
    };
    let longest = match check(tokens.as_slice()) {
        Ok(longest) => longest,
        Err(e) => {
            return Err(e);
        },
    };
    let mut iter = VariantIter::start(tokens.as_slice(), longest);
    let mut names: Vec<String> = Vec::new();
    let ghost all = iter.remaining();
    proof {
        assert(strings(names@) + iter.remaining() =~= all);
    }
    loop
        invariant
            iter.wf(),
            all == strings(names@) + iter.remaining(),
        ensures
            all == strings(names@),
        decreases iter.remaining().len(),
    {
        let ghost before = names@;
        let ghost left = iter.remaining();
        match iter.next() {
            Some(name) => {
                names.push(name);
                proof {
                    assert(strings(names@) =~= strings(before).push(name@));
                    assert(strings(before) + left =~= strings(before).push(left[0])
                        + left.drop_first());
                }
            },
            None => {
                proof {
                    assert(strings(names@) + left =~= strings(names@));
                }
                break;
            },
        }
    }
    Ok(names)
}

/// Reads the enumeration group declared at the cursor: a name, a colon, and
/// a group in brackets.
///
/// On success the cursor stands just behind the bracket that closes the
/// group, and the names of its variants can be taken from the result. On an
/// error the cursor stays where it was: the colon is missing where none
/// stands among the tokens, or where the group stands directly behind the
/// name.
pub fn parse<'s>(ts: &mut &'s [Token<'s>]) -> (result: Result<VariantIter<'s>, ParseError<'s>>)
    ensures
        match result {
            Ok(iter) => iter.wf() && parse_spec(views((*old(ts))@)) == Ok::<
                (Seq<Seq<char>>, Seq<TokenView>),
                ParseErrorView,
            >((iter.remaining(), views((*final(ts))@))),
            Err(e) => parse_spec(views((*old(ts))@)) == Err::<
                (Seq<Seq<char>>, Seq<TokenView>),
                ParseErrorView,
            >(e@) && *final(ts) == *old(ts),
        },
{
    let all: &'s [Token<'s>] = *ts;
    let colon = position(all, &Token::Colon);
    if colon >= all.len() || group_lacks_colon(all) {
        return Err(missing_delimiter(Delimiter::Colon, all));
    }
    let named = colon == 1 && match all[0] {
        Token::Text(_) => true,
        _ => false,
    };
    if !named {
        proof {
            lemma_views_subrange(all@, 0, colon as int);
        }
        return Err(unexpected_shape(Expected::GroupName, slice_subrange(all, 0, colon)));
    }
    let tree = slice_subrange(all, 2, all.len());
    proof {
        lemma_views_subrange(all@, 2, all@.len() as int);
    }
    if tree.len() == 0 || !opens_group::<VariantIndentationInfo>(&tree[0]) {
        return Err(unexpected_shape(Expected::Variant, tree));
    }
    let end = group_end::<VariantIndentationInfo>(tree, &Token::Comma);
    if end >= tree.len() {
        return Err(unbalanced_nesting(tree));
    }
    let declaration = slice_subrange(all, 0, end + 3);
    let rest = slice_subrange(all, end + 3, all.len());
    proof {
        lemma_views_subrange(all@, 0, end + 3);
        lemma_views_subrange(all@, end + 3, all@.len() as int);
    }
    match VariantIter::new(declaration) {
        Ok(iter) => {
            *ts = rest;
            Ok(iter)
        },
        Err(e) => Err(e),
    }
}

/// A list of variants without fault is well nested.
proof fn lemma_list_well_nested(tokens: Seq<TokenView>)
    requires
        list_error(tokens) is None,
    ensures
        well_nested(tokens, variant_policy()),
    decreases tokens.len(),
{
    crate::utils::lemma_split_iff_well_nested(tokens, variant_policy());
    if tokens.len() > 0 {
        lemma_cut_from(tokens, variant_policy(), 0, 0);
        lemma_list_well_nested(other_variants(tokens));
        crate::utils::lemma_split_iff_well_nested(other_variants(tokens), variant_policy());
    }
}

/// A variant without fault is well nested and holds no comma outside its
/// brackets: as a list, it is the list of that one variant.
proof fn lemma_node_is_one_piece(tokens: Seq<TokenView>, prefix: Seq<char>)
    requires
        node_error(tokens) is None,
    ensures
        well_nested(tokens, variant_policy()),
        first_cut(tokens, variant_policy()) == tokens.len(),
        list_error(tokens) is None,
        list_paths(tokens, prefix) == node_paths(tokens, prefix),
    decreases tokens.len(),
{
    let policy = variant_policy();
    let n = tokens.len() as int;
    assert(!(policy.separates)(tokens[0]) || tokens[0] == TokenView::Comma);
    assert(tokens.take(n) =~= tokens);
    if is_leaf(tokens) {
        crate::utils::lemma_depth_step(tokens, policy, 0);
        assert(tokens.take(1) =~= tokens);
        assert forall|k: int| 0 <= k <= n implies depth_of(tokens.take(k)) >= 0 by {
            if k == 1 {
            } else {
                assert(k == 0);
            }
        }
        assert forall|k: int| 0 <= k < n implies !crate::utils::is_cut(tokens, policy, k) by {}
    } else if is_named(tokens) {
        let tail = tokens.skip(2);
        lemma_node_is_one_piece(tail, prefix + tokens[0]->Text_0);
        crate::utils::lemma_depth_step(tokens, policy, 0);
        crate::utils::lemma_depth_step(tokens, policy, 1);
        lemma_cut_from(tail, policy, 0, 0);
        assert forall|k: int| 0 <= k <= n implies depth_of(tokens.take(k)) == (if k <= 2 {
            0
        } else {
            depth_of(tail.take(k - 2))
        }) by {
            if k > 2 {
                crate::utils::lemma_depth_concat(tokens.take(2), tail.take(k - 2), policy);
                assert(tokens.take(2) + tail.take(k - 2) =~= tokens.take(k));
            }
        }
        assert(tail.take(n - 2) =~= tail);
        assert forall|k: int| 0 <= k < n implies !crate::utils::is_cut(tokens, policy, k) by {
            if k >= 2 {
                assert(tokens[k] == tail[k - 2]);
                assert(!crate::utils::is_cut(tail, policy, k - 2));
            }
        }
    } else {
        assert(is_bracketed(tokens));
        let list = inner(tokens);
        lemma_list_well_nested(list);
        crate::utils::lemma_depth_step(tokens, policy, 0);
        crate::utils::lemma_depth_step(tokens, policy, n - 1);
        assert forall|k: int| 1 <= k <= n - 1 implies depth_of(tokens.take(k)) == 1 + depth_of(
            list.take(k - 1),
        ) by {
            crate::utils::lemma_depth_concat(tokens.take(1), list.take(k - 1), policy);
            assert(tokens.take(1) + list.take(k - 1) =~= tokens.take(k));
        }
        assert(list.take(n - 2) =~= list);
        assert forall|k: int| 0 <= k <= n implies depth_of(tokens.take(k)) >= 0 by {
            if 1 <= k <= n - 1 {
                assert(depth_of(list.take(k - 1)) >= 0);
            }
        }
        assert forall|k: int| 0 <= k < n implies !crate::utils::is_cut(tokens, policy, k) by {
            if k < n - 1 {
                assert(depth_of(list.take(k)) >= 0);
                assert(depth_of(tokens.take(k + 1)) == 1 + depth_of(list.take(k)));
            }
        }
    }
    lemma_cut_from(tokens, policy, 0, n);
    assert(n > 0);
    assert(behind(tokens, n) =~= Seq::<TokenView>::empty());
    assert forall|k: int| 0 <= k <= n + 1 && k <= n implies crate::utils::depth(
        #[trigger] tokens.take(k),
        policy,
    ) >= 0 by {
        assert(depth_of(tokens.take(k)) >= 0);
    }
    assert(first_piece_nested(tokens, policy));
    assert(first_variant(tokens) == tokens);
    assert(other_variants(tokens) == Seq::<TokenView>::empty());
    assert(list_error(Seq::<TokenView>::empty()) is None);
    assert(list_paths(Seq::<TokenView>::empty(), prefix) =~= Seq::<Seq<char>>::empty());
    assert(node_paths(tokens, prefix) + Seq::<Seq<char>>::empty() =~= node_paths(tokens, prefix));
}

/// The depth behind `tokens`, with the brackets of a variant.
spec fn depth_of(tokens: Seq<TokenView>) -> int {
    crate::utils::depth(tokens, variant_policy())
}

/// A name with its group directly behind it lacks the colon, whatever
/// follows: it stands for no name, and where the brackets of the tokens
/// match, the missing colon is what is reported.
pub proof fn lemma_group_without_colon(name: Seq<char>, open: TokenView, rest: Seq<TokenView>)
    requires
        token_step::<VariantIndentationInfo>(open) > 0,
    ensures
        node_error(seq![TokenView::Text(name), open] + rest) == Some(
            ParseErrorView::MissingDelimiter {
                expected: Delimiter::Colon,
                remaining: seq![TokenView::Text(name), open] + rest,
            },
        ),
        well_nested(seq![TokenView::Text(name), open] + rest, variant_policy()) ==> expansion(
            seq![TokenView::Text(name), open] + rest,
        ) == Err::<Seq<Seq<char>>, ParseErrorView>(
            ParseErrorView::MissingDelimiter {
                expected: Delimiter::Colon,
                remaining: seq![TokenView::Text(name), open] + rest,
            },
        ),
{
    let tokens = seq![TokenView::Text(name), open] + rest;
    assert(tokens[0] == TokenView::Text(name));
    assert(tokens[1] == open);
    assert(lacks_colon(tokens));
}

/// A name alone stands for itself, and a pair of brackets with nothing
/// between them stands for no name.
pub proof fn lemma_smallest_variants(name: Seq<char>, open: TokenView, close: TokenView)
    requires
        token_step::<VariantIndentationInfo>(open) > 0,
        token_step::<VariantIndentationInfo>(close) < 0,
    ensures
        expansion(seq![TokenView::Text(name)]) == Ok::<Seq<Seq<char>>, ParseErrorView>(seq![name]),
        expansion(seq![open, close]) == Ok::<Seq<Seq<char>>, ParseErrorView>(Seq::empty()),
{
    let leaf = seq![TokenView::Text(name)];
    let group = seq![open, close];
    lemma_node_is_one_piece(leaf, Seq::empty());
    assert(Seq::<char>::empty() + name =~= name);
    assert(inner(group) =~= Seq::<TokenView>::empty());
    assert(list_error(Seq::<TokenView>::empty()) is None);
    assert(list_paths(Seq::<TokenView>::empty(), Seq::empty()) =~= Seq::<Seq<char>>::empty());
    lemma_node_is_one_piece(group, Seq::empty());
}

} // verus!
