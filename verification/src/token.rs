use crate::text::same_text;
use vstd::prelude::*;

verus! {

/// The smallest lexical unit of the reference text.
#[derive(Debug, Clone, Copy, PartialEq, Eq, Hash)]
pub enum Token<'source> {
    OpeningParenthesis,
    ClosingParenthesis,
    OpeningBrace,
    ClosingBrace,
    OpeningBracket,
    ClosingBracket,
    Comma,
    Period,
    Colon,
    Semicolon,
    Asterisk,
    Number(u64),
    Text(&'source str),
}

/// What a token is, with a text run taken by its characters.
pub enum TokenView {
    OpeningParenthesis,
    ClosingParenthesis,
    OpeningBrace,
    ClosingBrace,
    OpeningBracket,
    ClosingBracket,
    Comma,
    Period,
    Colon,
    Semicolon,
    Asterisk,
    Number(u64),
    Text(Seq<char>),
}

impl<'source> View for Token<'source> {
    type V = TokenView;

    open spec fn view(&self) -> TokenView {
        match *self {
            Token::OpeningParenthesis => TokenView::OpeningParenthesis,
            Token::ClosingParenthesis => TokenView::ClosingParenthesis,
            Token::OpeningBrace => TokenView::OpeningBrace,
            Token::ClosingBrace => TokenView::ClosingBrace,
            Token::OpeningBracket => TokenView::OpeningBracket,
            Token::ClosingBracket => TokenView::ClosingBracket,
            Token::Comma => TokenView::Comma,
            Token::Period => TokenView::Period,
            Token::Colon => TokenView::Colon,
            Token::Semicolon => TokenView::Semicolon,
            Token::Asterisk => TokenView::Asterisk,
            Token::Number(n) => TokenView::Number(n),
            Token::Text(s) => TokenView::Text(s@),
        }
    }
}

/// The character that a punctuation token was read from.
pub open spec fn marker_of(token: TokenView) -> Option<char> {
    match token {
        TokenView::OpeningParenthesis => Some('('),
        TokenView::ClosingParenthesis => Some(')'),
        TokenView::OpeningBrace => Some('['),
        TokenView::ClosingBrace => Some(']'),
        TokenView::OpeningBracket => Some('{'),
        TokenView::ClosingBracket => Some('}'),
        TokenView::Comma => Some(','),
        TokenView::Period => Some('.'),
        TokenView::Colon => Some(':'),
        TokenView::Semicolon => Some(';'),
        TokenView::Asterisk => Some('*'),
        TokenView::Number(_) => None,
        TokenView::Text(_) => None,
    }
}

impl<'source> Token<'source> {
    /// The character of a punctuation token; `None` for a number or a text
    /// run.
    pub fn marker(&self) -> (marker: Option<char>)
        ensures
            marker == marker_of(self@),
    {
        match self {
            Token::OpeningParenthesis => Some('('),
            Token::ClosingParenthesis => Some(')'),
            Token::OpeningBrace => Some('['),
            Token::ClosingBrace => Some(']'),
            Token::OpeningBracket => Some('{'),
            Token::ClosingBracket => Some('}'),
            Token::Comma => Some(','),
            Token::Period => Some('.'),
            Token::Colon => Some(':'),
            Token::Semicolon => Some(';'),
            Token::Asterisk => Some('*'),
            Token::Number(_) => None,
            Token::Text(_) => None,
        }
    }

    /// Whether two tokens are the same: the same punctuation, the same
    /// number, or text runs of the same characters.
    pub fn same(&self, other: &Token<'_>) -> (same: bool)
        ensures
            same == (self@ == other@),
    {
        match (self, other) {
            (Token::Number(a), Token::Number(b)) => *a == *b,
            (Token::Text(a), Token::Text(b)) => same_text(a, b),
            (Token::Number(_), _) => false,
            (Token::Text(_), _) => false,
            (_, Token::Number(_)) => false,
            (_, Token::Text(_)) => false,
            (a, b) => {
                let x = a.marker();
                let y = b.marker();
                match (x, y) {
                    (Some(c), Some(d)) => c == d,
                    _ => false,
                }
            },
        }
    }
}

/// The tokens of a sequence, each taken by its view.
pub open spec fn views<'source>(tokens: Seq<Token<'source>>) -> Seq<TokenView> {
    tokens.map_values(|t: Token<'source>| t@)
}

/// The views of a sequence with one more token.
pub proof fn lemma_views_push<'source>(tokens: Seq<Token<'source>>, token: Token<'source>)
    ensures
        views(tokens.push(token)) == views(tokens).push(token@),
{
    assert(views(tokens.push(token)) =~= views(tokens).push(token@));
}

/// The views of a part of a sequence are that part of its views.
pub proof fn lemma_views_subrange<'source>(tokens: Seq<Token<'source>>, from: int, to: int)
    requires
        0 <= from <= to <= tokens.len(),
    ensures
        views(tokens.subrange(from, to)) == views(tokens).subrange(from, to),
{
    assert(views(tokens.subrange(from, to)) =~= views(tokens).subrange(from, to));
}

/// The index of the first token at or behind `from` that equals `target`,
/// or the length of `tokens` where there is none.
pub open spec fn index_from(tokens: Seq<TokenView>, target: TokenView, from: int) -> int
    decreases tokens.len() - from,
{
    if from < 0 || from >= tokens.len() {
        tokens.len() as int
    } else if tokens[from] == target {
        from
    } else {
        index_from(tokens, target, from + 1)
    }
}

/// The index of the first token that equals `target`, or the length of
/// `tokens` where there is none.
pub open spec fn index_of(tokens: Seq<TokenView>, target: TokenView) -> int {
    index_from(tokens, target, 0)
}

/// A search that has passed `to` without a find goes on from `to`; what it
/// finds lies within the tokens and equals the target, and nothing before it
/// does.
pub proof fn lemma_index_from(tokens: Seq<TokenView>, target: TokenView, from: int, to: int)
    requires
        0 <= from <= to <= tokens.len(),
        forall|k: int| from <= k < to ==> tokens[k] != target,
    ensures
        index_from(tokens, target, from) == index_from(tokens, target, to),
        to <= index_from(tokens, target, to) <= tokens.len(),
        index_from(tokens, target, to) < tokens.len() ==> tokens[index_from(tokens, target, to)]
            == target,
        forall|k: int| to <= k < index_from(tokens, target, to) ==> tokens[k] != target,
    decreases tokens.len() - from,
{
    if from < to {
        lemma_index_from(tokens, target, from + 1, to);
    } else if to < tokens.len() {
        lemma_index_from(tokens, target, to + 1, to + 1);
    }
}

/// Where `target` first stands in `tokens`: its index, or the length of
/// `tokens` if it stands nowhere.
pub fn position(tokens: &[Token<'_>], target: &Token<'_>) -> (index: usize)
    ensures
        index == index_of(views(tokens@), target@),
        index <= tokens@.len(),
        index < tokens@.len() ==> tokens@[index as int]@ == target@,
{
    let mut index: usize = 0;
    while index < tokens.len()
        invariant
            index <= tokens@.len(),
            forall|k: int| 0 <= k < index ==> views(tokens@)[k] != target@,
        decreases tokens@.len() - index,
    {
        proof {
            lemma_index_from(views(tokens@), target@, 0, index as int);
        }
        if tokens[index].same(target) {
            return index;
        }
        index = index + 1;
    }
    proof {
        lemma_index_from(views(tokens@), target@, 0, index as int);
    }
    index
}

} // verus!
