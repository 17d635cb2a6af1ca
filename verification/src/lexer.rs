//! From characters to tokens.
//!
//! Blanks separate tokens and are dropped. A punctuation mark is a token by
//! itself; a longest run of digits is a number; a longest run of letters,
//! underscores and slashes is a text run. Anything else ends the lexing with
//! an error.
use crate::error::{LexError, LexErrorView};
use crate::text::{lemma_ascii_byte, lemma_ascii_prefix, slice_between};
use crate::token::{lemma_views_push, views, Token, TokenView};
use vstd::prelude::*;
use vstd::string::*;
use vstd::utf8::*;

verus! {

/// Space, tab, line feed and form feed.
pub open spec fn is_blank(c: char) -> bool {
    c == ' ' || c == '\t' || c == '\n' || c == '\u{c}'
}

/// The ten ASCII digits.
pub open spec fn is_digit(c: char) -> bool {
    '0' <= c <= '9'
}

/// The characters of a text run: ASCII letters, `_` and `/`.
pub open spec fn is_text_char(c: char) -> bool {
    ('a' <= c <= 'z') || ('A' <= c <= 'Z') || c == '_' || c == '/'
}

/// The token that a punctuation mark stands for.
pub open spec fn punctuation(c: char) -> Option<TokenView> {
    if c == '(' {
        Some(TokenView::OpeningParenthesis)
    } else if c == ')' {
        Some(TokenView::ClosingParenthesis)
    } else if c == '[' {
        Some(TokenView::OpeningBrace)
    } else if c == ']' {
        Some(TokenView::ClosingBrace)
    } else if c == '{' {
        Some(TokenView::OpeningBracket)
    } else if c == '}' {
        Some(TokenView::ClosingBracket)
    } else if c == ',' {
        Some(TokenView::Comma)
    } else if c == '.' {
        Some(TokenView::Period)
    } else if c == ':' {
        Some(TokenView::Colon)
    } else if c == ';' {
        Some(TokenView::Semicolon)
    } else if c == '*' {
        Some(TokenView::Asterisk)
    } else {
        None
    }
}

/// Where the run of digits that covers `from` ends: the first position at or
/// after `from` that holds no digit.
pub open spec fn digits_end(text: Seq<char>, from: int) -> int
    decreases text.len() - from,
{
    if 0 <= from < text.len() && is_digit(text[from]) {
        digits_end(text, from + 1)
    } else {
        from
    }
}

/// Where the text run that covers `from` ends.
pub open spec fn text_end(text: Seq<char>, from: int) -> int
    decreases text.len() - from,
{
    if 0 <= from < text.len() && is_text_char(text[from]) {
        text_end(text, from + 1)
    } else {
        from
    }
}

/// The number that a run of digits denotes in base ten.
pub open spec fn digits_value(digits: Seq<char>) -> nat
    decreases digits.len(),
{
    if digits.len() == 0 {
        0
    } else {
        (digits_value(digits.drop_last()) * 10 + (digits.last() as nat - '0' as nat)) as nat
    }
}

/// The token that starts at `from`, with the position just behind it.
pub open spec fn token_at(text: Seq<char>, from: int) -> Result<(TokenView, int), LexErrorView>
    recommends
        0 <= from < text.len(),
{
    let c = text[from];
    if punctuation(c) is Some {
        Ok((punctuation(c)->0, from + 1))
    } else if is_digit(c) {
        let end = digits_end(text, from);
        let digits = text.subrange(from, end);
        if digits_value(digits) <= u64::MAX {
            Ok((TokenView::Number(digits_value(digits) as u64), end))
        } else {
            Err(LexErrorView::NumberOutOfRange { digits, position: from })
        }
    } else if is_text_char(c) {
        let end = text_end(text, from);
        Ok((TokenView::Text(text.subrange(from, end)), end))
    } else {
        Err(LexErrorView::UnexpectedCharacter { character: c, position: from })
    }
}

/// `tokens` in front of what the rest of a text gives.
pub open spec fn prepend(
    tokens: Seq<TokenView>,
    rest: Result<Seq<TokenView>, LexErrorView>,
) -> Result<Seq<TokenView>, LexErrorView> {
    match rest {
        Ok(more) => Ok(tokens + more),
        Err(e) => Err(e),
    }
}

/// The tokens of `text` from position `from` on, or the first error.
pub open spec fn lex_from(text: Seq<char>, from: int) -> Result<Seq<TokenView>, LexErrorView>
    decreases text.len() - from,
    via lex_from_decreases
{
    if from < 0 || from >= text.len() {
        Ok(Seq::empty())
    } else if is_blank(text[from]) {
        lex_from(text, from + 1)
    } else {
        match token_at(text, from) {
            Ok((token, end)) => prepend(seq![token], lex_from(text, end)),
            Err(e) => Err(e),
        }
    }
}

#[via_fn]
proof fn lex_from_decreases(text: Seq<char>, from: int) {
    if 0 <= from < text.len() {
        lemma_run_bounds(text, from);
    }
}

/// The tokens of `text`, or the first error met from the left.
pub open spec fn lex(text: Seq<char>) -> Result<Seq<TokenView>, LexErrorView> {
    lex_from(text, 0)
}

/// What `tokenize` returns for `text`: the tokens of `lex`, or its error.
pub open spec fn lexed<'source>(
    text: Seq<char>,
    result: Result<Vec<Token<'source>>, LexError<'source>>,
) -> bool {
    match result {
        Ok(tokens) => lex(text) == Ok::<Seq<TokenView>, LexErrorView>(views(tokens@)),
        Err(e) => lex(text) == Err::<Seq<TokenView>, LexErrorView>(e@),
    }
}

/// A run ends at or behind its start, within the text, and behind its start
/// when the start belongs to it; every position in it belongs to it, and the
/// position at its end does not.
pub proof fn lemma_run_bounds(text: Seq<char>, from: int)
    requires
        0 <= from <= text.len(),
    ensures
        from <= digits_end(text, from) <= text.len(),
        from <= text_end(text, from) <= text.len(),
        from < text.len() && is_digit(text[from]) ==> from < digits_end(text, from),
        from < text.len() && is_text_char(text[from]) ==> from < text_end(text, from),
        forall|k: int| from <= k < digits_end(text, from) ==> is_digit(#[trigger] text[k]),
        forall|k: int| from <= k < text_end(text, from) ==> is_text_char(#[trigger] text[k]),
        digits_end(text, from) < text.len() ==> !is_digit(text[digits_end(text, from)]),
        text_end(text, from) < text.len() ==> !is_text_char(text[text_end(text, from)]),
    decreases text.len() - from,
{
    if from < text.len() {
        lemma_run_bounds(text, from + 1);
    }
}

/// A run that reaches `to` without a break ends where the run from `to` ends.
proof fn lemma_digits_end_step(text: Seq<char>, from: int, to: int)
    requires
        0 <= from <= to <= text.len(),
        forall|k: int| from <= k < to ==> is_digit(#[trigger] text[k]),
    ensures
        digits_end(text, from) == digits_end(text, to),
    decreases to - from,
{
    if from < to {
        lemma_digits_end_step(text, from + 1, to);
    }
}

/// The same for a run of text characters.
proof fn lemma_text_end_step(text: Seq<char>, from: int, to: int)
    requires
        0 <= from <= to <= text.len(),
        forall|k: int| from <= k < to ==> is_text_char(#[trigger] text[k]),
    ensures
        text_end(text, from) == text_end(text, to),
    decreases to - from,
{
    if from < to {
        lemma_text_end_step(text, from + 1, to);
    }
}

/// A longer run of digits denotes no smaller number.
proof fn lemma_digits_value_monotone(digits: Seq<char>, k: int)
    requires
        0 <= k <= digits.len(),
        forall|i: int| 0 <= i < digits.len() ==> is_digit(#[trigger] digits[i]),
    ensures
        digits_value(digits.take(k)) <= digits_value(digits),
    decreases digits.len() - k,
{
    if k < digits.len() {
        lemma_digits_value_monotone(digits, k + 1);
        assert(digits.take(k + 1).drop_last() =~= digits.take(k));
        assert(digits.take(k + 1).last() == digits[k]);
    } else {
        assert(digits.take(k) =~= digits);
    }
}

/// Reading one more token, then the rest, is reading the rest behind one
/// more token.
proof fn lemma_prepend_push<'source>(
    tokens: Seq<Token<'source>>,
    token: Token<'source>,
    rest: Result<Seq<TokenView>, LexErrorView>,
)
    ensures
        prepend(views(tokens), prepend(seq![token@], rest)) == prepend(
            views(tokens.push(token)),
            rest,
        ),
{
    lemma_views_push(tokens, token);
    if let Ok(more) = rest {
        assert(views(tokens) + (seq![token@] + more) =~= views(tokens).push(token@) + more);
    }
}

/// Whether `c` is a blank.
fn blank(c: char) -> (b: bool)
    ensures
        b == is_blank(c),
{
    c == ' ' || c == '\t' || c == '\n' || c == '\u{c}'
}

/// Whether `c` is a digit.
fn digit(c: char) -> (b: bool)
    ensures
        b == is_digit(c),
{
    '0' <= c && c <= '9'
}

/// Whether `c` may stand in a text run.
fn text_char(c: char) -> (b: bool)
    ensures
        b == is_text_char(c),
{
    ('a' <= c && c <= 'z') || ('A' <= c && c <= 'Z') || c == '_' || c == '/'
}

/// The token of a punctuation mark, `None` for any other character.
fn punctuation_token<'source>(c: char) -> (token: Option<Token<'source>>)
    ensures
        match token {
            Some(t) => punctuation(c) == Some(t@),
            None => punctuation(c) is None,
        },
{
    if c == '(' {
        Some(Token::OpeningParenthesis)
    } else if c == ')' {
        Some(Token::ClosingParenthesis)
    } else if c == '[' {
        Some(Token::OpeningBrace)
    } else if c == ']' {
        Some(Token::ClosingBrace)
    } else if c == '{' {
        Some(Token::OpeningBracket)
    } else if c == '}' {
        Some(Token::ClosingBracket)
    } else if c == ',' {
        Some(Token::Comma)
    } else if c == '.' {
        Some(Token::Period)
    } else if c == ':' {
        Some(Token::Colon)
    } else if c == ';' {
        Some(Token::Semicolon)
    } else if c == '*' {
        Some(Token::Asterisk)
    } else {
        None
    }
}

/// The number that the bytes of a run of digits denote, unless it is above
/// `u64::MAX`.
fn number_of(bytes: &[u8], from: usize, to: usize, Ghost(text): Ghost<Seq<char>>) -> (value:
    Option<u64>)
    requires
        from <= to <= bytes@.len(),
        to <= text.len(),
        forall|k: int| from <= k < to ==> is_digit(#[trigger] text[k]) && bytes@[k] == text[k] as u8,
    ensures
        match value {
            Some(v) => digits_value(text.subrange(from as int, to as int)) == v,
            None => digits_value(text.subrange(from as int, to as int)) > u64::MAX,
        },
{
    let ghost digits = text.subrange(from as int, to as int);
    let mut value: u64 = 0;
    let mut at: usize = from;
    while at < to
        invariant
            from <= at <= to <= bytes@.len(),
            to <= text.len(),
            digits == text.subrange(from as int, to as int),
            forall|k: int|
                from <= k < to ==> is_digit(#[trigger] text[k]) && bytes@[k] == text[k] as u8,
            value == digits_value(digits.take(at - from)),
        decreases to - at,
    {
        proof {
            assert(is_digit(text[at as int]));
        }
        let d: u64 = (bytes[at] - 0x30) as u64;
        proof {
            assert(digits.take(at + 1 - from).drop_last() =~= digits.take(at - from));
            assert(digits.take(at + 1 - from).last() == text[at as int]);
            assert(digits_value(digits.take(at + 1 - from)) == value * 10 + d);
            lemma_digits_value_monotone(digits, at + 1 - from);
        }
        if value > (u64::MAX - d) / 10 {
            return None;
        }
        value = value * 10 + d;
        at += 1;
    }
    proof {
        assert(digits.take(to - from) =~= digits);
    }
    Some(value)
}

/// Splits `source` into its tokens.
///
/// Returns the tokens of `lex` in their order, or the error of the first
/// place, from the left, where no token can be read.
pub fn tokenize<'source>(source: &'source str) -> (result: Result<
    Vec<Token<'source>>,
    LexError<'source>,
>)
    ensures
        lexed(source@, result),
{
    let bytes = source.as_bytes();
    let n: usize = bytes.len();
    let ghost text = source@;
    let mut tokens: Vec<Token<'source>> = Vec::new();
    let mut pos: usize = 0;
    while pos < n
        invariant
            text == source@,
            bytes@ == encode_utf8(text),
            n == bytes@.len(),
            pos <= n,
            pos <= text.len(),
            is_ascii_chars(text.take(pos as int)),
            lex(text) == prepend(views(tokens@), lex_from(text, pos as int)),
        decreases n - pos,
    {
        proof {
            lemma_ascii_prefix(text, pos as int);
            lemma_run_bounds(text, pos as int);
        }
        let b: u8 = bytes[pos];
        if b >= 0x80 {
            let character = source.get_char(pos);
            return Err(LexError::UnexpectedCharacter { character, position: pos });
        }
        let c: char = b as char;
        proof {
            lemma_ascii_byte(text[pos as int], b);
        }
        let ghost before = tokens@;
        proof {
            assert(text.take(pos + 1) =~= text.take(pos as int).push(c));
        }
        if blank(c) {
            pos += 1;
        } else if let Some(token) = punctuation_token(c) {
            tokens.push(token);
            pos += 1;
            proof {
                lemma_prepend_push(before, token, lex_from(text, pos as int));
            }
        } else if digit(c) {
            let end = run_end(bytes, pos, true, Ghost(text));
            match number_of(bytes, pos, end, Ghost(text)) {
                Some(value) => {
                    let token = Token::Number(value);
                    tokens.push(token);
                    proof {
                        lemma_prepend_push(before, token, lex_from(text, end as int));
                    }
                },
                None => {
                    proof {
                        lemma_ascii_prefix(text, end as int);
                    }
                    let digits = slice_between(source, pos, end, Ghost(pos as int), Ghost(end as int));
                    return Err(LexError::NumberOutOfRange { digits, position: pos });
                },
            }
            pos = end;
        } else if text_char(c) {
            let end = run_end(bytes, pos, false, Ghost(text));
            proof {
                lemma_ascii_prefix(text, end as int);
            }
            let run = slice_between(source, pos, end, Ghost(pos as int), Ghost(end as int));
            let token = Token::Text(run);
            tokens.push(token);
            proof {
                lemma_prepend_push(before, token, lex_from(text, end as int));
            }
            pos = end;
        } else {
            return Err(LexError::UnexpectedCharacter { character: c, position: pos });
        }
    }
    proof {
        lemma_ascii_prefix(text, pos as int);
        assert(views(tokens@) + Seq::<TokenView>::empty() =~= views(tokens@));
    }
    Ok(tokens)
}

/// Where the run of digits (`digits` set) or of text characters that covers
/// `from` ends.
fn run_end(bytes: &[u8], from: usize, digits: bool, Ghost(text): Ghost<Seq<char>>) -> (end: usize)
    requires
        bytes@ == encode_utf8(text),
        from <= text.len(),
        is_ascii_chars(text.take(from as int)),
    ensures
        from <= end <= text.len(),
        end <= bytes@.len(),
        is_ascii_chars(text.take(end as int)),
        end == if digits {
            digits_end(text, from as int)
        } else {
            text_end(text, from as int)
        },
        forall|k: int| from <= k < end ==> bytes@[k] == #[trigger] text[k] as u8,
{
    let mut end: usize = from;
    loop
        invariant
            bytes@ == encode_utf8(text),
            from <= end <= text.len(),
            is_ascii_chars(text.take(end as int)),
            forall|k: int|
                from <= k < end ==> if digits {
                    is_digit(#[trigger] text[k])
                } else {
                    is_text_char(text[k])
                },
        ensures
            end == if digits {
                digits_end(text, from as int)
            } else {
                text_end(text, from as int)
            },
        decreases text.len() - end,
    {
        proof {
            lemma_ascii_prefix(text, end as int);
            if digits {
                lemma_digits_end_step(text, from as int, end as int);
            } else {
                lemma_text_end_step(text, from as int, end as int);
            }
        }
        if end >= bytes.len() {
            break;
        }
        let b: u8 = bytes[end];
        if b >= 0x80 {
            break;
        }
        let c: char = b as char;
        proof {
            lemma_ascii_byte(text[end as int], b);
        }
        let inside = if digits {
            digit(c)
        } else {
            text_char(c)
        };
        if !inside {
            break;
        }
        end += 1;
        proof {
            assert(text.take(end as int) =~= text.take(end - 1).push(c));
        }
    }
    proof {
        lemma_ascii_prefix(text, end as int);
    }
    end
}

/// Lexing has no state: what `tokenize` returns for a text is fixed by the
/// characters of the text, so two runs on the same characters give the same
/// tokens, or the same error.
pub proof fn lemma_lexing_repeats<'a, 'b>(
    first: &'a str,
    second: &'b str,
    once: Result<Vec<Token<'a>>, LexError<'a>>,
    again: Result<Vec<Token<'b>>, LexError<'b>>,
)
    requires
        first@ == second@,
        lexed(first@, once),
        lexed(second@, again),
    ensures
        once is Ok <==> again is Ok,
        once is Ok ==> views(once->Ok_0@) == views(again->Ok_0@),
        once is Err ==> once->Err_0@ == again->Err_0@,
{
}

} // verus!
