//! Character positions and byte offsets in a string slice.
//!
//! Contracts in this crate speak of a text as its sequence of characters,
//! while a `&str` is cut at byte offsets. The lemmas here relate the two, so
//! that a slice can be taken in constant time and still be known by the
//! characters it holds.
use vstd::prelude::*;
use vstd::string::*;
use vstd::utf8::*;

verus! {

/// The number of bytes that the first `index` characters of `chars` occupy.
pub open spec fn byte_offset(chars: Seq<char>, index: int) -> int {
    encode_utf8(chars.take(index)).len() as int
}

/// Encoding distributes over concatenation.
pub proof fn lemma_encode_concat(a: Seq<char>, b: Seq<char>)
    ensures
        encode_utf8(a + b) == encode_utf8(a) + encode_utf8(b),
    decreases a.len(),
{
    if a.len() == 0 {
        assert(a + b =~= b);
        assert(encode_utf8(a) + encode_utf8(b) =~= encode_utf8(b));
    } else {
        lemma_encode_concat(a.drop_first(), b);
        assert((a + b).drop_first() =~= a.drop_first() + b);
        assert((a + b)[0] == a[0]);
        assert(encode_utf8(a + b) =~= encode_utf8(a) + encode_utf8(b));
    }
}

/// Two texts with the same encoding are the same text.
pub proof fn lemma_encode_injective(a: Seq<char>, b: Seq<char>)
    requires
        encode_utf8(a) == encode_utf8(b),
    ensures
        a == b,
{
    encode_utf8_decode_utf8(a);
    encode_utf8_decode_utf8(b);
}

/// Every character takes at least one byte and at most four.
pub proof fn lemma_scalar_width(c: char)
    ensures
        1 <= encode_scalar(c as u32).len() <= 4,
{
}

/// Byte offsets grow with character positions, and a later position lies at
/// least as many bytes further as there are characters in between.
pub proof fn lemma_offset_monotone(chars: Seq<char>, i: int, j: int)
    requires
        0 <= i <= j <= chars.len(),
    ensures
        byte_offset(chars, i) + (j - i) <= byte_offset(chars, j),
        byte_offset(chars, j) <= encode_utf8(chars).len(),
        encode_utf8(chars.subrange(i, j)).len() == byte_offset(chars, j) - byte_offset(chars, i),
        byte_offset(chars, 0) == 0,
        byte_offset(chars, chars.len() as int) == encode_utf8(chars).len(),
    decreases j - i,
{
    assert(chars.take(0) =~= Seq::<char>::empty());
    assert(chars.take(chars.len() as int) =~= chars);
    lemma_encode_concat(chars.take(j), chars.skip(j));
    assert(chars.take(j) + chars.skip(j) =~= chars);
    lemma_encode_concat(chars.take(i), chars.subrange(i, j));
    assert(chars.take(i) + chars.subrange(i, j) =~= chars.take(j));
    if i < j {
        lemma_offset_monotone(chars, i, j - 1);
        lemma_encode_concat(chars.take(j - 1), seq![chars[j - 1]]);
        assert(chars.take(j - 1) + seq![chars[j - 1]] =~= chars.take(j));
        lemma_scalar_width(chars[j - 1]);
        assert(seq![chars[j - 1]].drop_first() =~= Seq::<char>::empty());
        assert(encode_utf8(seq![chars[j - 1]]) =~= encode_scalar(chars[j - 1] as u32)) by {
            reveal_with_fuel(encode_utf8, 2);
        }
    }
}

/// One character further lies as many bytes further as the character takes.
pub proof fn lemma_offset_step(chars: Seq<char>, index: int)
    requires
        0 <= index < chars.len(),
    ensures
        byte_offset(chars, index + 1) == byte_offset(chars, index) + encode_scalar(
            chars[index] as u32,
        ).len(),
{
    lemma_encode_concat(chars.take(index), seq![chars[index]]);
    assert(chars.take(index) + seq![chars[index]] =~= chars.take(index + 1));
    assert(seq![chars[index]].drop_first() =~= Seq::<char>::empty());
    assert(encode_utf8(seq![chars[index]]) =~= encode_scalar(chars[index] as u32)) by {
        reveal_with_fuel(encode_utf8, 2);
    }
}

/// The bytes between two character positions encode the characters between
/// them.
pub proof fn lemma_encode_subrange(chars: Seq<char>, i: int, j: int)
    requires
        0 <= i <= j <= chars.len(),
    ensures
        encode_utf8(chars).subrange(byte_offset(chars, i), byte_offset(chars, j)) == encode_utf8(
            chars.subrange(i, j),
        ),
{
    lemma_offset_monotone(chars, i, j);
    lemma_encode_concat(chars.take(j), chars.skip(j));
    assert(chars.take(j) + chars.skip(j) =~= chars);
    lemma_encode_concat(chars.take(i), chars.subrange(i, j));
    assert(chars.take(i) + chars.subrange(i, j) =~= chars.take(j));
    assert(encode_utf8(chars).subrange(byte_offset(chars, i), byte_offset(chars, j))
        =~= encode_utf8(chars.subrange(i, j)));
}

/// The byte offset of a character position is a character boundary of the
/// encoded text.
pub proof fn lemma_offset_is_boundary(chars: Seq<char>, index: int)
    requires
        0 <= index <= chars.len(),
    ensures
        is_char_boundary(encode_utf8(chars), byte_offset(chars, index)),
    decreases chars.len(),
{
    let bytes = encode_utf8(chars);
    encode_utf8_valid_utf8(chars);
    lemma_offset_monotone(chars, 0, index);
    if index > 0 {
        let tail = chars.drop_first();
        encode_utf8_first_scalar(chars);
        assert(pop_first_scalar(bytes) =~= encode_utf8(tail));
        lemma_offset_is_boundary(tail, index - 1);
        lemma_encode_concat(seq![chars[0]], tail.take(index - 1));
        assert(seq![chars[0]] + tail.take(index - 1) =~= chars.take(index));
        assert(seq![chars[0]].drop_first() =~= Seq::<char>::empty());
        assert(encode_utf8(seq![chars[0]]) =~= encode_scalar(chars[0] as u32)) by {
            reveal_with_fuel(encode_utf8, 2);
        }
        lemma_scalar_width(chars[0]);
        assert(byte_offset(chars, index) - length_of_first_scalar(bytes) == byte_offset(
            tail,
            index - 1,
        ));
        lemma_offset_monotone(chars, index, chars.len() as int);
    }
}

/// In a text whose first `index` characters are ASCII, those characters take
/// one byte each. If a further byte follows, so does a further character; the
/// byte is below 128 exactly when that character is ASCII, and is then the
/// character itself.
pub proof fn lemma_ascii_prefix(chars: Seq<char>, index: int)
    requires
        0 <= index <= chars.len(),
        is_ascii_chars(chars.take(index)),
    ensures
        byte_offset(chars, index) == index,
        index <= encode_utf8(chars).len(),
        forall|k: int| 0 <= k < index ==> #[trigger] encode_utf8(chars)[k] == chars[k] as u8,
        index < chars.len() <==> index < encode_utf8(chars).len(),
        index < chars.len() ==> (encode_utf8(chars)[index] < 0x80 <==> chars[index] <= '\u{7f}'),
        index < chars.len() && chars[index] <= '\u{7f}' ==> encode_utf8(chars)[index]
            == chars[index] as u8,
{
    let head = chars.take(index);
    let tail = chars.skip(index);
    is_ascii_chars_encode_utf8(head);
    lemma_encode_concat(head, tail);
    assert(head + tail =~= chars);
    lemma_offset_monotone(chars, 0, index);
    assert forall|k: int| 0 <= k < index implies #[trigger] encode_utf8(chars)[k]
        == chars[k] as u8 by {
        assert(head[k] == chars[k]);
        assert(encode_utf8(head)[k] == head[k] as u8);
    }
    if index < chars.len() {
        let c = chars[index];
        assert(tail[0] == c);
        lemma_scalar_width(c);
        assert(encode_utf8(chars)[index] == encode_scalar(c as u32)[0]);
        lemma_leading_byte(c);
    } else {
        assert(tail =~= Seq::<char>::empty());
    }
}

/// The first byte of a character's encoding is below 128 exactly when the
/// character is ASCII, and is then the character's own code.
pub proof fn lemma_leading_byte(c: char)
    ensures
        encode_scalar(c as u32)[0] < 0x80 <==> c <= '\u{7f}',
        c <= '\u{7f}' ==> encode_scalar(c as u32)[0] == c as u8,
{
    let v = c as u32;
    assert(has_width_1_encoding(v) ==> leading_byte_width_1(v) == v as u8 && leading_byte_width_1(
        v,
    ) < 0x80) by (bit_vector);
    assert(leading_byte_width_2(v) >= 0x80) by (bit_vector);
    assert(leading_byte_width_3(v) >= 0x80) by (bit_vector);
    assert(leading_byte_width_4(v) >= 0x80) by (bit_vector);
}

/// A byte below 128 is the ASCII character that it encodes.
pub proof fn lemma_ascii_byte(c: char, b: u8)
    requires
        c <= '\u{7f}',
        b == c as u8,
    ensures
        b as char == c,
        b < 0x80,
{
    char_u32_cast(c, b as u32);
    char_u32_cast(b as char, b as u32);
}

/// The part of `source` between two character positions, given by their byte
/// offsets.
pub(crate) fn slice_between<'a>(
    source: &'a str,
    from: usize,
    to: usize,
    Ghost(first): Ghost<int>,
    Ghost(last): Ghost<int>,
) -> (part: &'a str)
    requires
        0 <= first <= last <= source@.len(),
        from == byte_offset(source@, first),
        to == byte_offset(source@, last),
    ensures
        part@ == source@.subrange(first, last),
{
    let ghost chars = source@;
    proof {
        lemma_offset_is_boundary(chars, last);
    }
    let (head, _) = source.split_at(to);
    proof {
        lemma_encode_subrange(chars, 0, last);
        lemma_offset_monotone(chars, 0, last);
        assert(chars.subrange(0, last) =~= chars.take(last));
        lemma_encode_injective(head@, chars.take(last));
        assert(chars.take(last).take(first) =~= chars.take(first));
        lemma_offset_is_boundary(head@, first);
    }
    let (_, part) = head.split_at(from);
    proof {
        lemma_encode_subrange(head@, first, last);
        lemma_offset_monotone(head@, first, last);
        assert(head@.take(last) =~= head@);
        assert(head@.subrange(first, last) =~= chars.subrange(first, last));
        lemma_encode_injective(part@, chars.subrange(first, last));
    }
    part
}

/// The number of bytes that `c` takes in a string slice.
pub fn char_width(c: char) -> (width: usize)
    ensures
        width == encode_scalar(c as u32).len(),
        1 <= width <= 4,
{
    let code: u32 = c as u32;
    if code < 0x80 {
        1
    } else if code < 0x800 {
        2
    } else if code < 0x10000 {
        3
    } else {
        4
    }
}

/// Whether two string slices hold the same characters.
pub fn same_text(a: &str, b: &str) -> (same: bool)
    ensures
        same == (a@ == b@),
{
    let x = a.as_bytes();
    let y = b.as_bytes();
    if x.len() != y.len() {
        return false;
    }
    let mut i: usize = 0;
    while i < x.len()
        invariant
            i <= x@.len(),
            x@.len() == y@.len(),
            x@ == encode_utf8(a@),
            y@ == encode_utf8(b@),
            forall|k: int| 0 <= k < i ==> x@[k] == y@[k],
        decreases x@.len() - i,
    {
        if x[i] != y[i] {
            return false;
        }
        i += 1;
    }
    proof {
        assert(x@ =~= y@);
        lemma_encode_injective(a@, b@);
    }
    true
}

} // verus!
