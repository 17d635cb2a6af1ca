//! Splitting at a separator, but only outside nested groups.
//!
//! A policy says which items open a group and which close one. The depth of
//! a position is the number of groups open there; a separator splits only
//! where the depth is zero. The same rules serve characters and tokens.
use crate::text::{byte_offset, char_width, lemma_offset_monotone, lemma_offset_step, slice_between};
use crate::token::{lemma_views_subrange, marker_of, views, Token, TokenView};
use vstd::slice::slice_subrange;
use core::marker::PhantomData;
use vstd::prelude::*;
use vstd::std_specs::iter::IteratorSpec;
use vstd::string::*;
use vstd::utf8::*;

verus! {

/// Which characters open a nested group and which close one.
pub trait IndentationInfo {
    /// Whether `marker` opens a group.
    spec fn opens(marker: char) -> bool;

    /// Whether `marker` closes a group.
    spec fn closes(marker: char) -> bool;

    /// Whether `marker` opens a group, computed.
    fn is_indent(marker: char) -> (indent: bool)
        ensures
            indent == Self::opens(marker),
    ;

    /// Whether `marker` closes a group, computed.
    fn is_dedent(marker: char) -> (dedent: bool)
        ensures
            dedent == Self::closes(marker),
    ;
}

/// The groups of an enumeration: `{` and `[` open one, `}` and `]` close one.
pub struct VariantIndentationInfo;

impl IndentationInfo for VariantIndentationInfo {
    open spec fn opens(marker: char) -> bool {
        marker == '{' || marker == '['
    }

    open spec fn closes(marker: char) -> bool {
        marker == '}' || marker == ']'
    }

    fn is_indent(marker: char) -> (indent: bool) {
        marker == '{' || marker == '['
    }

    fn is_dedent(marker: char) -> (dedent: bool) {
        marker == '}' || marker == ']'
    }
}

/// The groups of a parameter list: `(` opens one, `)` closes one.
pub struct ParenthesisIndentationInfo;

impl IndentationInfo for ParenthesisIndentationInfo {
    open spec fn opens(marker: char) -> bool {
        marker == '('
    }

    open spec fn closes(marker: char) -> bool {
        marker == ')'
    }

    fn is_indent(marker: char) -> (indent: bool) {
        marker == '('
    }

    fn is_dedent(marker: char) -> (dedent: bool) {
        marker == ')'
    }
}

/// How a sequence of items is split: by how much each item changes the
/// depth, and which items separate.
#[verifier::reject_recursive_types(T)]
pub struct Policy<T> {
    pub step: spec_fn(T) -> int,
    pub separates: spec_fn(T) -> bool,
}

/// By how much a character changes the depth under `I`.
pub open spec fn char_step<I: IndentationInfo>(c: char) -> int {
    (if I::opens(c) {
        1int
    } else {
        0int
    }) - (if I::closes(c) {
        1int
    } else {
        0int
    })
}

/// The policy that splits characters at `sep`, with the groups of `I`.
pub open spec fn text_policy<I: IndentationInfo>(sep: char) -> Policy<char> {
    Policy { step: |c: char| char_step::<I>(c), separates: |c: char| c == sep }
}

/// By how much a token changes the depth under `I`: as its character does.
pub open spec fn token_step<I: IndentationInfo>(token: TokenView) -> int {
    match marker_of(token) {
        Some(c) => char_step::<I>(c),
        None => 0,
    }
}

/// The policy that splits tokens at `sep`, with the groups of `I`.
pub open spec fn token_policy<I: IndentationInfo>(sep: TokenView) -> Policy<TokenView> {
    Policy { step: |t: TokenView| token_step::<I>(t), separates: |t: TokenView| t == sep }
}

/// The depth behind the last item: openers minus closers.
pub open spec fn depth<T>(items: Seq<T>, policy: Policy<T>) -> int
    decreases items.len(),
{
    if items.len() == 0 {
        0
    } else {
        depth(items.drop_last(), policy) + (policy.step)(items.last())
    }
}

/// Whether the item at `index` is a separator at depth zero.
pub open spec fn is_cut<T>(items: Seq<T>, policy: Policy<T>, index: int) -> bool {
    &&& 0 <= index < items.len()
    &&& (policy.separates)(items[index])
    &&& depth(items.take(index + 1), policy) == 0
}

/// The first cut at or behind `from`, or the length of `items` if there is
/// none.
pub open spec fn cut_from<T>(items: Seq<T>, policy: Policy<T>, from: int) -> int
    decreases items.len() - from,
{
    if from < 0 || from >= items.len() {
        items.len() as int
    } else if is_cut(items, policy, from) {
        from
    } else {
        cut_from(items, policy, from + 1)
    }
}

/// Where the first piece ends: at the first cut, or at the end.
pub open spec fn first_cut<T>(items: Seq<T>, policy: Policy<T>) -> int {
    cut_from(items, policy, 0)
}

/// What stands behind the item at `cut`: nothing, if `cut` is the end.
pub open spec fn behind<T>(items: Seq<T>, cut: int) -> Seq<T> {
    if 0 <= cut < items.len() {
        items.skip(cut + 1)
    } else {
        Seq::empty()
    }
}

/// Whether no more groups are closed than were opened, up to `upto` items.
pub open spec fn never_negative<T>(items: Seq<T>, policy: Policy<T>, upto: int) -> bool {
    forall|k: int| 0 <= k <= upto && k <= items.len() ==> depth(#[trigger] items.take(k), policy) >= 0
}

/// Whether every group is closed that was opened, and none closed that was
/// not.
pub open spec fn well_nested<T>(items: Seq<T>, policy: Policy<T>) -> bool {
    never_negative(items, policy, items.len() as int) && depth(items, policy) == 0
}

/// Whether the first piece can be taken: up to its cut no group is closed
/// that was not opened, and if there is no cut, none is left open.
pub open spec fn first_piece_nested<T>(items: Seq<T>, policy: Policy<T>) -> bool {
    let cut = first_cut(items, policy);
    never_negative(items, policy, cut + 1) && (cut < items.len() || depth(items, policy) == 0)
}

/// The pieces of `items`, or `None` where the nesting is unbalanced.
///
/// Nothing gives no piece; a separator at the very end starts no further
/// piece.
pub open spec fn split<T>(items: Seq<T>, policy: Policy<T>) -> Option<Seq<Seq<T>>>
    decreases items.len(),
{
    let cut = first_cut(items, policy);
    if items.len() == 0 {
        Some(Seq::empty())
    } else if !first_piece_nested(items, policy) {
        None
    } else {
        match split(behind(items, cut), policy) {
            Some(rest) => Some(seq![items.take(cut)] + rest),
            None => None,
        }
    }
}

/// A cut search that has passed `to` without a cut goes on from `to`; the
/// first cut lies within the items, and nothing before it is a cut.
pub proof fn lemma_cut_from<T>(items: Seq<T>, policy: Policy<T>, from: int, to: int)
    requires
        0 <= from <= to <= items.len(),
        forall|k: int| from <= k < to ==> !is_cut(items, policy, k),
    ensures
        cut_from(items, policy, from) == cut_from(items, policy, to),
        to <= cut_from(items, policy, to) <= items.len(),
        cut_from(items, policy, to) < items.len() ==> is_cut(
            items,
            policy,
            cut_from(items, policy, to),
        ),
        forall|k: int| to <= k < cut_from(items, policy, to) ==> !is_cut(items, policy, k),
    decreases items.len() - from,
{
    if from < to {
        lemma_cut_from(items, policy, from + 1, to);
    } else if to < items.len() {
        lemma_cut_from(items, policy, to + 1, to + 1);
    }
}

/// The depth behind one more item.
pub proof fn lemma_depth_step<T>(items: Seq<T>, policy: Policy<T>, index: int)
    requires
        0 <= index < items.len(),
    ensures
        depth(items.take(index + 1), policy) == depth(items.take(index), policy) + (policy.step)(
            items[index],
        ),
        depth(items.take(0), policy) == 0,
{
    assert(items.take(index + 1).drop_last() =~= items.take(index));
    assert(items.take(0) =~= Seq::<T>::empty());
}

/// The nesting does not balance: a group is closed that was not opened, or
/// is left open at the end.
#[derive(Debug, Clone, Copy, PartialEq, Eq, Hash)]
pub struct UnbalancedNesting;

/// The pieces of a text, one at a time.
pub struct SplitOnLevel<'a, I: IndentationInfo> {
    haystack: &'a str,
    sep: char,
    policy: PhantomData<I>,
}

impl<'a, I: IndentationInfo> SplitOnLevel<'a, I> {
    /// The characters that are still to be split.
    pub closed spec fn remaining(&self) -> Seq<char> {
        self.haystack@
    }

    /// The character at which the text is split.
    pub closed spec fn separator(&self) -> char {
        self.sep
    }

    /// The rules by which the text is split.
    pub open spec fn rules(&self) -> Policy<char> {
        text_policy::<I>(self.separator())
    }

    /// A splitter of `input` at `sep`.
    pub fn new(input: &'a str, sep: char) -> (splitter: Self)
        ensures
            splitter.remaining() == input@,
            splitter.separator() == sep,
    {
        SplitOnLevel { haystack: input, sep, policy: PhantomData }
    }

    /// The next piece.
    ///
    /// Returns `None` when nothing is left. Otherwise it returns what stands
    /// before the first separator at depth zero, and goes on behind that
    /// separator; without such a separator it returns all that is left. Where
    /// a group is closed that was not opened, or is left open at the end, it
    /// returns the error, and nothing is left.
    pub fn next(&mut self) -> (piece: Option<Result<&'a str, UnbalancedNesting>>)
        ensures
            final(self).separator() == old(self).separator(),
            match piece {
                None => old(self).remaining().len() == 0 && final(self).remaining().len() == 0,
                Some(Err(_)) => {
                    &&& old(self).remaining().len() > 0
                    &&& !first_piece_nested(old(self).remaining(), old(self).rules())
                    &&& final(self).remaining().len() == 0
                },
                Some(Ok(part)) => {
                    let cut = first_cut(old(self).remaining(), old(self).rules());
                    &&& old(self).remaining().len() > 0
                    &&& first_piece_nested(old(self).remaining(), old(self).rules())
                    &&& part@ == old(self).remaining().take(cut)
                    &&& final(self).remaining() == behind(old(self).remaining(), cut)
                },
            },
    {
        let source: &'a str = self.haystack;
        let sep: char = self.sep;
        if source.is_empty() {
            return None;
        }
        let ghost text = source@;
        let ghost policy = text_policy::<I>(sep);
        let total: usize = source.as_bytes().len();
        let mut chars = source.chars();
        let mut level: usize = 0;
        let mut offset: usize = 0;
        let ghost mut index: int = 0;
        proof {
            reveal_strlit("");
            lemma_offset_monotone(text, 0, 0);
            lemma_depth_step(text, policy, 0);
        }
        loop
            invariant
                text == source@,
                text == old(self).remaining(),
                sep == old(self).separator(),
                level <= index,
                text.len() > 0,
                policy == text_policy::<I>(sep),
                total == encode_utf8(text).len(),
                0 <= index <= text.len(),
                chars.remaining() == text.skip(index),
                offset == byte_offset(text, index),
                level == depth(text.take(index), policy),
                never_negative(text, policy, index),
                forall|k: int| 0 <= k < index ==> !is_cut(text, policy, k),
                self.sep == sep,
                ""@.len() == 0,
            decreases text.len() - index,
        {
            proof {
                lemma_cut_from(text, policy, 0, index);
                lemma_offset_monotone(text, index, text.len() as int);
                lemma_offset_monotone(text, 0, index);
            }
            match chars.next() {
                None => {
                    self.haystack = "";
                    proof {
                        assert(text.take(index) =~= text);
                    }
                    if level == 0 {
                        return Some(Ok(source));
                    } else {
                        return Some(Err(UnbalancedNesting));
                    }
                },
                Some(c) => {
                    proof {
                        assert(c == text.skip(index)[0]);
                        lemma_depth_step(text, policy, index);
                        lemma_offset_step(text, index);
                        lemma_offset_monotone(text, index + 1, text.len() as int);
                    }
                    let width = char_width(c);
                    if I::is_indent(c) {
                        level = level + 1;
                    }
                    if I::is_dedent(c) {
                        if level == 0 {
                            self.haystack = "";
                            proof {
                                assert(depth(text.take(index + 1), policy) < 0);
                                lemma_cut_from(text, policy, index, index);
                            }
                            return Some(Err(UnbalancedNesting));
                        }
                        level = level - 1;
                    }
                    proof {
                        assert forall|k: int| 0 <= k <= index + 1 && k <= text.len() implies depth(
                            #[trigger] text.take(k),
                            policy,
                        ) >= 0 by {
                            if k > index {
                                assert(k == index + 1);
                            }
                        }
                    }
                    if level == 0 && c == sep {
                        let part = slice_between(source, 0, offset, Ghost(0), Ghost(index));
                        let rest = slice_between(
                            source,
                            offset + width,
                            total,
                            Ghost(index + 1),
                            Ghost(text.len() as int),
                        );
                        self.haystack = rest;
                        proof {
                            assert(is_cut(text, policy, index));
                            assert(text.subrange(0, index) =~= text.take(index));
                            assert(text.subrange(index + 1, text.len() as int) =~= behind(
                                text,
                                index,
                            ));
                        }
                        return Some(Ok(part));
                    }
                    offset = offset + width;
                    proof {
                        assert(text.skip(index).drop_first() =~= text.skip(index + 1));
                        index = index + 1;
                    }
                },
            }
        }
    }
}

/// The depth behind two runs of items is the sum of their depths.
pub proof fn lemma_depth_concat<T>(a: Seq<T>, b: Seq<T>, policy: Policy<T>)
    ensures
        depth(a + b, policy) == depth(a, policy) + depth(b, policy),
    decreases b.len(),
{
    if b.len() == 0 {
        assert(a + b =~= a);
    } else {
        lemma_depth_concat(a, b.drop_last(), policy);
        assert((a + b).drop_last() =~= a + b.drop_last());
    }
}

/// Behind a cut the depth is counted as from the start.
pub proof fn lemma_depth_behind<T>(items: Seq<T>, policy: Policy<T>, cut: int, k: int)
    requires
        is_cut(items, policy, cut),
        0 <= k <= items.len() - cut - 1,
    ensures
        depth(behind(items, cut).take(k), policy) == depth(items.take(cut + 1 + k), policy),
{
    lemma_depth_concat(items.take(cut + 1), behind(items, cut).take(k), policy);
    assert(items.take(cut + 1) + behind(items, cut).take(k) =~= items.take(cut + 1 + k));
}

/// Splitting succeeds exactly on what is well nested.
pub proof fn lemma_split_iff_well_nested<T>(items: Seq<T>, policy: Policy<T>)
    ensures
        split(items, policy) is Some <==> well_nested(items, policy),
    decreases items.len(),
{
    let cut = first_cut(items, policy);
    lemma_cut_from(items, policy, 0, 0);
    assert(items.take(items.len() as int) =~= items);
    if items.len() == 0 {
        assert forall|k: int| 0 <= k <= 0 && k <= items.len() implies depth(
            #[trigger] items.take(k),
            policy,
        ) >= 0 by {
            assert(items.take(k) =~= items);
        }
    } else if cut < items.len() {
        let rest = behind(items, cut);
        lemma_split_iff_well_nested(rest, policy);
        assert(rest.take(rest.len() as int) =~= rest);
        lemma_depth_behind(items, policy, cut, rest.len() as int);
        if well_nested(items, policy) {
            assert forall|k: int| 0 <= k <= rest.len() implies depth(
                #[trigger] rest.take(k),
                policy,
            ) >= 0 by {
                lemma_depth_behind(items, policy, cut, k);
                assert(depth(items.take(cut + 1 + k), policy) >= 0);
            }
        }
        if first_piece_nested(items, policy) && well_nested(rest, policy) {
            assert forall|k: int| 0 <= k <= items.len() implies depth(
                #[trigger] items.take(k),
                policy,
            ) >= 0 by {
                if k > cut + 1 {
                    lemma_depth_behind(items, policy, cut, k - cut - 1);
                    assert(depth(rest.take(k - cut - 1), policy) >= 0);
                }
            }
        }
    } else {
        assert(behind(items, cut) =~= Seq::<T>::empty());
    }
}

/// Where the separator changes no depth, each piece of a well-nested
/// sequence is well nested, and so is what stands behind it.
pub proof fn lemma_first_piece<T>(items: Seq<T>, policy: Policy<T>)
    requires
        well_nested(items, policy),
        forall|t: T| (policy.separates)(t) ==> #[trigger] (policy.step)(t) == 0,
    ensures
        first_piece_nested(items, policy),
        0 <= first_cut(items, policy) <= items.len(),
        well_nested(items.take(first_cut(items, policy)), policy),
        well_nested(behind(items, first_cut(items, policy)), policy),
        first_cut(items, policy) < items.len() ==> is_cut(items, policy, first_cut(items, policy)),
{
    let cut = first_cut(items, policy);
    lemma_cut_from(items, policy, 0, 0);
    lemma_split_iff_well_nested(items, policy);
    let piece = items.take(cut);
    assert(items.take(items.len() as int) =~= items);
    assert forall|k: int| 0 <= k <= piece.len() implies depth(#[trigger] piece.take(k), policy)
        >= 0 by {
        assert(piece.take(k) =~= items.take(k));
    }
    assert(piece.take(piece.len() as int) =~= piece);
    if items.len() == 0 {
        assert(behind(items, cut) =~= items);
    } else if cut < items.len() {
        lemma_split_iff_well_nested(behind(items, cut), policy);
        lemma_depth_step(items, policy, cut);
    } else {
        lemma_split_iff_well_nested(behind(items, cut), policy);
    }
}

/// Where the separator changes no depth, no piece holds a part of a group
/// only: every piece of a split is well nested.
pub proof fn lemma_pieces_well_nested<T>(items: Seq<T>, policy: Policy<T>)
    requires
        split(items, policy) is Some,
        forall|t: T| (policy.separates)(t) ==> #[trigger] (policy.step)(t) == 0,
    ensures
        forall|i: int|
            0 <= i < split(items, policy)->0.len() ==> well_nested(
                #[trigger] split(items, policy)->0[i],
                policy,
            ),
    decreases items.len(),
{
    if items.len() > 0 {
        let cut = first_cut(items, policy);
        let rest = behind(items, cut);
        lemma_cut_from(items, policy, 0, 0);
        lemma_split_iff_well_nested(items, policy);
        lemma_first_piece(items, policy);
        lemma_pieces_well_nested(rest, policy);
        let pieces = split(items, policy)->0;
        assert(pieces =~= seq![items.take(cut)] + split(rest, policy)->0);
        assert forall|i: int| 0 <= i < pieces.len() implies well_nested(
            #[trigger] pieces[i],
            policy,
        ) by {
            if i > 0 {
                assert(pieces[i] == split(rest, policy)->0[i - 1]);
            }
        }
    }
}

/// Every separator at depth zero splits: no piece of a split holds one, so
/// none can be split further.
pub proof fn lemma_pieces_are_whole<T>(items: Seq<T>, policy: Policy<T>)
    requires
        split(items, policy) is Some,
    ensures
        forall|i: int|
            0 <= i < split(items, policy)->0.len() ==> first_cut(
                #[trigger] split(items, policy)->0[i],
                policy,
            ) == split(items, policy)->0[i].len(),
    decreases items.len(),
{
    if items.len() > 0 {
        let cut = first_cut(items, policy);
        let piece = items.take(cut);
        let rest = behind(items, cut);
        lemma_cut_from(items, policy, 0, 0);
        lemma_pieces_are_whole(rest, policy);
        assert forall|k: int| 0 <= k < piece.len() implies !is_cut(piece, policy, k) by {
            assert(piece.take(k + 1) =~= items.take(k + 1));
            assert(!is_cut(items, policy, k));
        }
        lemma_cut_from(piece, policy, 0, piece.len() as int);
        let pieces = split(items, policy)->0;
        assert(pieces =~= seq![piece] + split(rest, policy)->0);
        assert forall|i: int| 0 <= i < pieces.len() implies first_cut(#[trigger] pieces[i], policy)
            == pieces[i].len() by {
            if i > 0 {
                assert(pieces[i] == split(rest, policy)->0[i - 1]);
            }
        }
    }
}

/// The characters of each string slice of a sequence.
pub open spec fn texts<'a>(pieces: Seq<&'a str>) -> Seq<Seq<char>> {
    pieces.map_values(|piece: &'a str| piece@)
}

/// `pieces` in front of what the rest of a text splits into.
pub open spec fn and_then_split<T>(pieces: Seq<Seq<T>>, rest: Option<Seq<Seq<T>>>) -> Option<
    Seq<Seq<T>>,
> {
    match rest {
        Some(more) => Some(pieces + more),
        None => None,
    }
}

/// Splits `input` at every `sep` that stands outside all groups of `I`.
///
/// Returns the pieces in their order when `input` is well nested, and the
/// error when it is not.
pub fn split_on_level<'a, I: IndentationInfo>(input: &'a str, sep: char) -> (result: Result<
    Vec<&'a str>,
    UnbalancedNesting,
>)
    ensures
        result is Ok <==> well_nested(input@, text_policy::<I>(sep)),
        match result {
            Ok(pieces) => split(input@, text_policy::<I>(sep)) == Some(texts(pieces@)),
            Err(_) => split(input@, text_policy::<I>(sep)) is None,
        },
{
    let ghost policy = text_policy::<I>(sep);
    let mut splitter = SplitOnLevel::<'a, I>::new(input, sep);
    let mut pieces: Vec<&'a str> = Vec::new();
    proof {
        lemma_split_iff_well_nested(input@, policy);
        assert(texts(pieces@) + split(input@, policy)->0 =~= split(input@, policy)->0);
    }
    loop
        invariant
            policy == text_policy::<I>(sep),
            splitter.separator() == sep,
            split(input@, policy) is Some <==> well_nested(input@, policy),
            split(input@, policy) == and_then_split(
                texts(pieces@),
                split(splitter.remaining(), policy),
            ),
        decreases splitter.remaining().len(),
    {
        let ghost left = splitter.remaining();
        let ghost before = pieces@;
        proof {
            lemma_cut_from(left, policy, 0, 0);
        }
        match splitter.next() {
            None => {
                proof {
                    assert(texts(pieces@) + Seq::<Seq<char>>::empty() =~= texts(pieces@));
                }
                return Ok(pieces);
            },
            Some(Err(e)) => {
                return Err(e);
            },
            Some(Ok(part)) => {
                pieces.push(part);
                proof {
                    let rest = split(splitter.remaining(), policy);
                    assert(texts(before.push(part)) =~= texts(before).push(part@));
                    if let Some(more) = rest {
                        assert(texts(before) + (seq![part@] + more) =~= texts(before).push(part@)
                            + more);
                    }
                }
            },
        }
    }
}

/// Where the first piece of `tokens` ends, split at `sep` with the groups of
/// `I`: the index of the first separator at depth zero, or the length of
/// `tokens` where there is none. An error where a group is closed before
/// that which was not opened, or where, without a separator, one is left
/// open.
pub fn token_cut<I: IndentationInfo>(tokens: &[Token<'_>], sep: &Token<'_>) -> (cut: Result<
    usize,
    UnbalancedNesting,
>)
    ensures
        match cut {
            Ok(index) => {
                &&& first_piece_nested(views(tokens@), token_policy::<I>(sep@))
                &&& index == first_cut(views(tokens@), token_policy::<I>(sep@))
                &&& index <= tokens@.len()
            },
            Err(_) => !first_piece_nested(views(tokens@), token_policy::<I>(sep@)),
        },
{
    let ghost items = views(tokens@);
    let ghost policy = token_policy::<I>(sep@);
    let mut level: usize = 0;
    let mut index: usize = 0;
    proof {
        assert(items.take(0) =~= Seq::<TokenView>::empty());
    }
    while index < tokens.len()
        invariant
            items == views(tokens@),
            policy == token_policy::<I>(sep@),
            index <= tokens@.len(),
            level <= index,
            level == depth(items.take(index as int), policy),
            never_negative(items, policy, index as int),
            forall|k: int| 0 <= k < index ==> !is_cut(items, policy, k),
        decreases tokens@.len() - index,
    {
        proof {
            lemma_cut_from(items, policy, 0, index as int);
            lemma_depth_step(items, policy, index as int);
        }
        let token = &tokens[index];
        if let Some(c) = token.marker() {
            if I::is_indent(c) {
                level = level + 1;
            }
            if I::is_dedent(c) {
                if level == 0 {
                    proof {
                        assert(depth(items.take(index + 1), policy) < 0);
                        lemma_cut_from(items, policy, index as int, index as int);
                    }
                    return Err(UnbalancedNesting);
                }
                level = level - 1;
            }
        }
        proof {
            assert forall|k: int| 0 <= k <= index + 1 && k <= items.len() implies depth(
                #[trigger] items.take(k),
                policy,
            ) >= 0 by {
                if k <= index {
                } else {
                    assert(k == index + 1);
                }
            }
        }
        if level == 0 && token.same(sep) {
            proof {
                assert(is_cut(items, policy, index as int));
            }
            return Ok(index);
        }
        index = index + 1;
    }
    proof {
        lemma_cut_from(items, policy, 0, index as int);
        assert(items.take(index as int) =~= items);
    }
    if level == 0 {
        Ok(index)
    } else {
        Err(UnbalancedNesting)
    }
}

/// Whether `token` opens a group of `I`.
pub fn opens_group<I: IndentationInfo>(token: &Token<'_>) -> (opens: bool)
    ensures
        opens == (token_step::<I>(token@) > 0),
{
    match token.marker() {
        Some(c) => I::is_indent(c) && !I::is_dedent(c),
        None => false,
    }
}

/// Whether `token` closes a group of `I`.
pub fn closes_group<I: IndentationInfo>(token: &Token<'_>) -> (closes: bool)
    ensures
        closes == (token_step::<I>(token@) < 0),
{
    match token.marker() {
        Some(c) => I::is_dedent(c) && !I::is_indent(c),
        None => false,
    }
}

/// The index of the first item at or behind `from` behind which the depth is
/// zero, or the length of `items` where there is none.
pub open spec fn closing_from<T>(items: Seq<T>, policy: Policy<T>, from: int) -> int
    decreases items.len() - from,
{
    if from < 0 || from >= items.len() {
        items.len() as int
    } else if depth(items.take(from + 1), policy) == 0 {
        from
    } else {
        closing_from(items, policy, from + 1)
    }
}

/// Where the group ends that the first item opens: the index of the item
/// that closes it, or the length of `items` where it is left open.
pub open spec fn closing<T>(items: Seq<T>, policy: Policy<T>) -> int {
    closing_from(items, policy, 0)
}

/// A search for the end of a group that has passed `to` goes on from `to`.
pub proof fn lemma_closing_from<T>(items: Seq<T>, policy: Policy<T>, from: int, to: int)
    requires
        0 <= from <= to <= items.len(),
        forall|k: int| from <= k < to ==> depth(#[trigger] items.take(k + 1), policy) != 0,
    ensures
        closing_from(items, policy, from) == closing_from(items, policy, to),
        to <= closing_from(items, policy, to) <= items.len(),
    decreases items.len() - from,
{
    if from < to {
        lemma_closing_from(items, policy, from + 1, to);
    } else if to < items.len() {
        if depth(items.take(to + 1), policy) != 0 {
            lemma_closing_from(items, policy, to + 1, to + 1);
        }
    }
}

/// Where the depth is first back at zero: the index of the first token
/// behind which as many groups of `I` are closed as were opened, or the
/// length of `tokens` where there is none. Where the first token opens a
/// group, this is the token that closes that group.
pub fn group_end<I: IndentationInfo>(tokens: &[Token<'_>], sep: &Token<'_>) -> (end: usize)
    ensures
        end == closing(views(tokens@), token_policy::<I>(sep@)),
        end <= tokens@.len(),
{
    let ghost items = views(tokens@);
    let ghost policy = token_policy::<I>(sep@);
    let mut opened: usize = 0;
    let mut closed: usize = 0;
    let mut index: usize = 0;
    proof {
        assert(items.take(0) =~= Seq::<TokenView>::empty());
    }
    while index < tokens.len()
        invariant
            items == views(tokens@),
            policy == token_policy::<I>(sep@),
            index <= tokens@.len(),
            opened <= index,
            closed <= index,
            opened - closed == depth(items.take(index as int), policy),
            forall|k: int| 0 <= k < index ==> depth(#[trigger] items.take(k + 1), policy) != 0,
        decreases tokens@.len() - index,
    {
        proof {
            lemma_closing_from(items, policy, 0, index as int);
            lemma_depth_step(items, policy, index as int);
        }
        if let Some(c) = tokens[index].marker() {
            if I::is_indent(c) {
                opened = opened + 1;
            }
            if I::is_dedent(c) {
                closed = closed + 1;
            }
        }
        if opened == closed {
            return index;
        }
        index = index + 1;
    }
    proof {
        lemma_closing_from(items, policy, 0, index as int);
    }
    index
}

/// The index of the first item at or behind `from` behind which the depth is
/// below zero, or the length of `items` where there is none.
pub open spec fn below_from<T>(items: Seq<T>, policy: Policy<T>, from: int) -> int
    decreases items.len() - from,
{
    if from < 0 || from >= items.len() {
        items.len() as int
    } else if depth(items.take(from + 1), policy) < 0 {
        from
    } else {
        below_from(items, policy, from + 1)
    }
}

/// Where the group ends that `items` begin in the middle of: the index of
/// the first item that closes a group which none of `items` opened, or the
/// length of `items` where there is none.
pub open spec fn first_below<T>(items: Seq<T>, policy: Policy<T>) -> int {
    below_from(items, policy, 0)
}

/// A search for the end of the enclosing group that has passed `to` goes on
/// from `to`; it ends within the items, where the depth first falls below
/// zero.
pub proof fn lemma_below_from<T>(items: Seq<T>, policy: Policy<T>, from: int, to: int)
    requires
        0 <= from <= to <= items.len(),
        forall|k: int| from <= k < to ==> depth(#[trigger] items.take(k + 1), policy) >= 0,
    ensures
        below_from(items, policy, from) == below_from(items, policy, to),
        to <= below_from(items, policy, to) <= items.len(),
        below_from(items, policy, to) < items.len() ==> depth(
            items.take(below_from(items, policy, to) + 1),
            policy,
        ) < 0,
        forall|k: int|
            to <= k < below_from(items, policy, to) ==> depth(#[trigger] items.take(k + 1), policy)
                >= 0,
    decreases items.len() - from,
{
    if from < to {
        lemma_below_from(items, policy, from + 1, to);
    } else if to < items.len() {
        if depth(items.take(to + 1), policy) >= 0 {
            lemma_below_from(items, policy, to + 1, to + 1);
        }
    }
}

/// Where no item closes more than one group, what stands before the end of
/// the enclosing group is well nested.
pub proof fn lemma_enclosed_well_nested<T>(items: Seq<T>, policy: Policy<T>)
    requires
        first_below(items, policy) < items.len(),
        forall|t: T| #[trigger] (policy.step)(t) >= -1,
    ensures
        well_nested(items.take(first_below(items, policy)), policy),
{
    let end = first_below(items, policy);
    let list = items.take(end);
    lemma_below_from(items, policy, 0, 0);
    lemma_depth_step(items, policy, end);
    assert forall|k: int| 0 <= k <= list.len() implies depth(#[trigger] list.take(k), policy)
        >= 0 by {
        assert(list.take(k) =~= items.take(k));
        if k > 0 {
            assert(depth(items.take((k - 1) + 1), policy) >= 0);
        }
    }
    assert(list.take(end) =~= list);
}

/// The group that the first item opens ends one item behind the place where
/// the items behind the first leave the group that they stand in.
pub proof fn lemma_closing_of_enclosed<T>(items: Seq<T>, policy: Policy<T>)
    requires
        items.len() > 0,
        (policy.step)(items[0]) == 1,
        forall|t: T| #[trigger] (policy.step)(t) >= -1,
    ensures
        closing(items, policy) == 1 + first_below(items.skip(1), policy),
{
    lemma_depth_step(items, policy, 0);
    assert(items.skip(1).take(0) =~= Seq::<T>::empty());
    lemma_closing_shifted(items, policy, 0);
}

/// The same, for a search that starts `from` items behind the first.
proof fn lemma_closing_shifted<T>(items: Seq<T>, policy: Policy<T>, from: int)
    requires
        items.len() > 0,
        (policy.step)(items[0]) == 1,
        forall|t: T| #[trigger] (policy.step)(t) >= -1,
        0 <= from <= items.len() - 1,
        depth(items.skip(1).take(from), policy) >= 0,
    ensures
        closing_from(items, policy, from + 1) == 1 + below_from(items.skip(1), policy, from),
    decreases items.len() - from,
{
    let tail = items.skip(1);
    if from < tail.len() {
        lemma_depth_step(items, policy, 0);
        lemma_depth_step(tail, policy, from);
        lemma_depth_concat(items.take(1), tail.take(from + 1), policy);
        assert(items.take(1) + tail.take(from + 1) =~= items.take(from + 2));
        if depth(tail.take(from + 1), policy) >= 0 {
            lemma_closing_shifted(items, policy, from + 1);
        }
    }
}

/// Where the group ends that `tokens` begin in the middle of: the index of
/// the first token that closes a group of `I` which none of `tokens` opened,
/// or the length of `tokens` where there is none.
pub fn enclosing_end<I: IndentationInfo>(tokens: &[Token<'_>], sep: &Token<'_>) -> (end: usize)
    ensures
        end == first_below(views(tokens@), token_policy::<I>(sep@)),
        end <= tokens@.len(),
{
    let ghost items = views(tokens@);
    let ghost policy = token_policy::<I>(sep@);
    let mut level: usize = 0;
    let mut index: usize = 0;
    proof {
        assert(items.take(0) =~= Seq::<TokenView>::empty());
    }
    while index < tokens.len()
        invariant
            items == views(tokens@),
            policy == token_policy::<I>(sep@),
            index <= tokens@.len(),
            level <= index,
            level == depth(items.take(index as int), policy),
            forall|k: int| 0 <= k < index ==> depth(#[trigger] items.take(k + 1), policy) >= 0,
        decreases tokens@.len() - index,
    {
        proof {
            lemma_below_from(items, policy, 0, index as int);
            lemma_depth_step(items, policy, index as int);
        }
        if let Some(c) = tokens[index].marker() {
            if I::is_indent(c) {
                level = level + 1;
            }
            if I::is_dedent(c) {
                if level == 0 {
                    return index;
                }
                level = level - 1;
            }
        }
        index = index + 1;
    }
    proof {
        lemma_below_from(items, policy, 0, index as int);
    }
    index
}

/// Whether `tokens` are well nested under `I`.
pub fn is_well_nested<I: IndentationInfo>(tokens: &[Token<'_>], sep: &Token<'_>) -> (nested: bool)
    ensures
        nested == well_nested(views(tokens@), token_policy::<I>(sep@)),
{
    let ghost items = views(tokens@);
    let ghost policy = token_policy::<I>(sep@);
    let mut start: usize = 0;
    proof {
        lemma_split_iff_well_nested(items, policy);
        assert(items.skip(0) =~= items);
    }
    while start < tokens.len()
        invariant
            items == views(tokens@),
            policy == token_policy::<I>(sep@),
            start <= tokens@.len(),
            split(items, policy) is Some <==> split(items.skip(start as int), policy) is Some,
            split(items, policy) is Some <==> well_nested(items, policy),
        decreases tokens@.len() - start,
    {
        let left = slice_subrange(tokens, start, tokens.len());
        proof {
            lemma_views_subrange(tokens@, start as int, tokens@.len() as int);
            assert(views(left@) =~= items.skip(start as int));
            lemma_cut_from(views(left@), policy, 0, 0);
        }
        match token_cut::<I>(left, sep) {
            Err(_) => {
                return false;
            },
            Ok(cut) => {
                proof {
                    if cut < left@.len() {
                        assert(behind(views(left@), cut as int) =~= items.skip(start + cut + 1));
                    } else {
                        assert(items.skip(tokens@.len() as int) =~= Seq::<TokenView>::empty());
                    }
                }
                if cut >= left.len() {
                    start = tokens.len();
                } else {
                    start = start + cut + 1;
                }
            },
        }
    }
    proof {
        assert(items.skip(start as int) =~= Seq::<TokenView>::empty());
    }
    true
}

} // verus!
