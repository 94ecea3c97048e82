//! Character positions and byte offsets in UTF-8 text.
//!
//! Contracts in this crate speak of text as a sequence of characters, while
//! string slices are cut at byte offsets. The lemmas here relate the two.

use vstd::prelude::*;
use vstd::string::*;
use vstd::utf8::*;

verus! {

/// The number of bytes that the first `k` characters of `text` take in UTF-8:
/// the byte offset at which character `k` starts.
pub open spec fn byte_offset(text: Seq<char>, k: int) -> int {
    encode_utf8(text.take(k)).len() as int
}

/// The number of characters of `text` whose encoding starts before byte `j`.
/// Where `j` is a character boundary, this is the index of the character that
/// starts at byte `j`.
pub open spec fn char_index(text: Seq<char>, j: int) -> int
    decreases text.len(),
{
    if j <= 0 || text.len() == 0 {
        0
    } else {
        1 + char_index(text.drop_first(), j - encode_scalar(text[0] as u32).len())
    }
}

/// Encoding distributes over concatenation.
pub proof fn lemma_encode_concat(a: Seq<char>, b: Seq<char>)
    ensures
        encode_utf8(a + b) == encode_utf8(a) + encode_utf8(b),
    decreases a.len(),
{
    if a.len() == 0 {
        assert(a + b =~= b);
        assert(encode_utf8(a) + encode_utf8(b) =~= encode_utf8(b));
    } else {
        assert((a + b).drop_first() =~= a.drop_first() + b);
        lemma_encode_concat(a.drop_first(), b);
        assert(encode_utf8(a + b) =~= encode_utf8(a) + encode_utf8(b));
    }
}

/// Every character takes at least one byte.
pub proof fn lemma_encode_len(a: Seq<char>)
    ensures
        encode_utf8(a).len() >= a.len(),
    decreases a.len(),
{
    if a.len() > 0 {
        lemma_encode_len(a.drop_first());
    }
}

/// The bytes between the offsets of two character positions encode the
/// characters between them.
pub proof fn lemma_encode_subrange(text: Seq<char>, a: int, b: int)
    requires
        0 <= a <= b <= text.len(),
    ensures
        byte_offset(text, a) + encode_utf8(text.subrange(a, b)).len() == byte_offset(text, b),
        byte_offset(text, b) <= encode_utf8(text).len(),
        encode_utf8(text).subrange(byte_offset(text, a), byte_offset(text, b)) == encode_utf8(
            text.subrange(a, b),
        ),
{
    let head = text.take(a);
    let mid = text.subrange(a, b);
    let tail = text.skip(b);
    assert(text.take(b) =~= head + mid);
    assert(text =~= text.take(b) + tail);
    lemma_encode_concat(head, mid);
    lemma_encode_concat(text.take(b), tail);
    assert(encode_utf8(text).subrange(byte_offset(text, a), byte_offset(text, b)) =~= encode_utf8(
        mid,
    ));
}

/// Byte offsets start at zero, end at the encoded length, and grow strictly
/// with the character position.
pub proof fn lemma_byte_offset_monotonic(text: Seq<char>, a: int, b: int)
    requires
        0 <= a <= b <= text.len(),
    ensures
        byte_offset(text, 0) == 0,
        byte_offset(text, text.len() as int) == encode_utf8(text).len(),
        0 <= byte_offset(text, a) <= byte_offset(text, b) <= encode_utf8(text).len(),
        a < b ==> byte_offset(text, a) < byte_offset(text, b),
        byte_offset(text, b) - byte_offset(text, a) >= b - a,
{
    assert(text.take(0) =~= Seq::<char>::empty());
    assert(text.take(text.len() as int) =~= text);
    lemma_encode_subrange(text, a, b);
    lemma_encode_len(text.subrange(a, b));
}

/// The shape of the encoding of the first character of a text.
pub proof fn lemma_first_char(text: Seq<char>)
    requires
        text.len() > 0,
    ensures
        ({
            let bytes = encode_utf8(text);
            let width = encode_scalar(text[0] as u32).len() as int;
            &&& 1 <= width <= 4
            &&& width <= bytes.len()
            &&& width == byte_offset(text, 1)
            &&& bytes.skip(width) == encode_utf8(text.drop_first())
            &&& !is_continuation_byte(bytes[0])
            &&& forall|i: int| 0 < i < width ==> is_continuation_byte(#[trigger] bytes[i])
            &&& (bytes[0] < 0x80 <==> width == 1)
            &&& (width == 1 ==> bytes[0] as u32 == text[0] as u32)
        }),
{
    let bytes = encode_utf8(text);
    let width = encode_scalar(text[0] as u32).len() as int;
    encode_utf8_first_scalar(text);
    assert(bytes.skip(width) =~= encode_utf8(text.drop_first()));
    assert(encode_utf8(text.take(1)) =~= encode_scalar(text[0] as u32)) by {
        reveal_with_fuel(encode_utf8, 2);
        assert(text.take(1).drop_first() =~= Seq::<char>::empty());
        assert(text.take(1)[0] == text[0]);
    }
    let first = bytes[0];
    if first < 0x80 {
        assert(first & 0x7f == first) by (bit_vector)
            requires
                first < 0x80,
        ;
    }
}

/// Stepping over the first character shifts every later offset by its width.
pub proof fn lemma_byte_offset_step(text: Seq<char>, k: int)
    requires
        0 <= k < text.len(),
    ensures
        byte_offset(text, k + 1) == encode_scalar(text[0] as u32).len() + byte_offset(
            text.drop_first(),
            k,
        ),
{
    assert(text.take(k + 1).drop_first() =~= text.drop_first().take(k));
}

/// A byte offset that does not point into the middle of a character is the
/// offset of the character that `char_index` names.
pub proof fn lemma_char_index(text: Seq<char>, j: int)
    requires
        0 <= j <= encode_utf8(text).len(),
        j < encode_utf8(text).len() ==> !is_continuation_byte(encode_utf8(text)[j]),
    ensures
        0 <= char_index(text, j) <= text.len(),
        byte_offset(text, char_index(text, j)) == j,
        j < encode_utf8(text).len() ==> char_index(text, j) < text.len(),
    decreases text.len(),
{
    let bytes = encode_utf8(text);
    if j == 0 || text.len() == 0 {
        assert(text.take(0) =~= Seq::<char>::empty());
    } else {
        let width = encode_scalar(text[0] as u32).len() as int;
        let rest = text.drop_first();
        lemma_first_char(text);
        if j < width {
            assert(is_continuation_byte(bytes[j]));
        }
        assert(forall|i: int| 0 <= i < bytes.skip(width).len() ==> bytes.skip(width)[i] == bytes[i + width]);
        lemma_char_index(rest, j - width);
        lemma_byte_offset_step(text, char_index(rest, j - width));
    }
}

/// The width of a character that starts with an ASCII byte is one, and the
/// byte is the character.
pub proof fn lemma_ascii_char(text: Seq<char>, k: int)
    requires
        0 <= k < text.len(),
        encode_utf8(text)[byte_offset(text, k)] < 0x80,
    ensures
        byte_offset(text, k + 1) == byte_offset(text, k) + 1,
        text[k] as u32 == encode_utf8(text)[byte_offset(text, k)] as u32,
{
    let one = text.subrange(k, k + 1);
    lemma_encode_subrange(text, k, k + 1);
    lemma_first_char(one);
    assert(encode_utf8(one)[0] == encode_utf8(text)[byte_offset(text, k)]);
}

/// The offset of every character position is a character boundary.
pub proof fn lemma_offset_is_boundary(text: Seq<char>, k: int)
    requires
        0 <= k <= text.len(),
    ensures
        is_char_boundary(encode_utf8(text), byte_offset(text, k)),
{
    let bytes = encode_utf8(text);
    encode_utf8_valid_utf8(text);
    lemma_byte_offset_monotonic(text, k, text.len() as int);
    if k == text.len() {
        is_char_boundary_start_end_of_seq(bytes);
    } else {
        lemma_encode_subrange(text, k, text.len() as int);
        lemma_first_char(text.skip(k));
        assert(text.subrange(k, text.len() as int) =~= text.skip(k));
        assert(encode_utf8(text.skip(k))[0] == bytes[byte_offset(text, k)]);
        is_char_boundary_iff_not_is_continuation_byte(bytes, byte_offset(text, k));
    }
}

/// Every character boundary is the offset of a character position.
pub proof fn lemma_boundary_is_offset(text: Seq<char>, j: int)
    requires
        0 <= j <= encode_utf8(text).len(),
        is_char_boundary(encode_utf8(text), j),
    ensures
        0 <= char_index(text, j) <= text.len(),
        byte_offset(text, char_index(text, j)) == j,
{
    encode_utf8_valid_utf8(text);
    if j < encode_utf8(text).len() {
        is_char_boundary_iff_not_is_continuation_byte(encode_utf8(text), j);
    }
    lemma_char_index(text, j);
}

/// A text is determined by its encoding.
pub proof fn lemma_encode_injective(a: Seq<char>, b: Seq<char>)
    requires
        encode_utf8(a) == encode_utf8(b),
    ensures
        a == b,
{
    encode_utf8_decode_utf8(a);
    encode_utf8_decode_utf8(b);
}

/// The part of `text` between two character positions, given by their byte
/// offsets.
pub(crate) fn substring<'a>(
    text: &'a str,
    from: usize,
    to: usize,
    Ghost(a): Ghost<int>,
    Ghost(b): Ghost<int>,
) -> (piece: &'a str)
    requires
        0 <= a <= b <= text@.len(),
        from == byte_offset(text@, a),
        to == byte_offset(text@, b),
    ensures
        piece@ == text@.subrange(a, b),
{
    proof {
        lemma_offset_is_boundary(text@, a);
        lemma_byte_offset_monotonic(text@, a, b);
        lemma_encode_subrange(text@, a, text@.len() as int);
        lemma_byte_offset_monotonic(text@, a, text@.len() as int);
    }
    let (_, rest) = text.split_at(from);
    proof {
        assert(text@.subrange(a, text@.len() as int) =~= text@.skip(a));
        lemma_encode_injective(rest@, text@.skip(a));
        lemma_offset_is_boundary(rest@, b - a);
        lemma_encode_subrange(text@, a, b);
        lemma_encode_subrange(rest@, 0, b - a);
        assert(rest@.take(0) =~= Seq::<char>::empty());
        assert(rest@.subrange(0, b - a) =~= text@.subrange(a, b));
        assert(rest@.take(b - a) =~= text@.subrange(a, b));
    }
    let (piece, _) = rest.split_at(to - from);
    proof {
        lemma_encode_injective(piece@, text@.subrange(a, b));
    }
    piece
}

} // verus!
