//! The mathematical model: text as a sequence of characters, addressed by
//! byte offsets into its UTF-8 encoding.

use vstd::prelude::*;
use vstd::utf8::*;

verus! {

/// Number of bytes in the UTF-8 encoding of `text`.
pub open spec fn byte_len(text: Seq<char>) -> int {
    encode_utf8(text).len() as int
}

/// True when byte offset `at` lies between two characters of `text`, at its
/// start or at its end; false inside a character and past the end.
pub open spec fn on_boundary(text: Seq<char>, at: int) -> bool {
    is_char_boundary(encode_utf8(text), at)
}

/// True when `start..end` is a byte range that cuts `text` between characters.
pub open spec fn is_slice(text: Seq<char>, start: int, end: int) -> bool {
    &&& start <= end
    &&& on_boundary(text, start)
    &&& on_boundary(text, end)
}

/// The characters of `text` whose encodings occupy the bytes `start..end`.
pub open spec fn byte_slice(text: Seq<char>, start: int, end: int) -> Seq<char>
    recommends
        is_slice(text, start, end),
{
    decode_utf8(encode_utf8(text).subrange(start, end))
}

/// The start and the end of a text are boundaries.
pub proof fn lemma_ends_are_boundaries(text: Seq<char>)
    ensures
        on_boundary(text, 0),
        on_boundary(text, byte_len(text)),
{
    broadcast use group_utf8_lib;

    assert(valid_utf8(encode_utf8(text)));
}

/// A boundary is never negative and never past the end.
pub proof fn lemma_boundary_in_range(text: Seq<char>, at: int)
    requires
        on_boundary(text, at),
    ensures
        0 <= at <= byte_len(text),
{
    broadcast use group_utf8_lib;

    let bytes = encode_utf8(text);
    assert(valid_utf8(bytes));
}

/// The bytes of a slice are exactly the selected bytes of the whole.
pub proof fn lemma_byte_slice_bytes(text: Seq<char>, start: int, end: int)
    requires
        is_slice(text, start, end),
    ensures
        encode_utf8(byte_slice(text, start, end)) == encode_utf8(text).subrange(start, end),
        valid_utf8(encode_utf8(text).subrange(start, end)),
        byte_len(byte_slice(text, start, end)) == end - start,
{
    broadcast use group_utf8_lib;

    let bytes = encode_utf8(text);
    lemma_boundary_in_range(text, start);
    lemma_boundary_in_range(text, end);
    let head = bytes.subrange(0, end);
    assert(valid_utf8(head));
    lemma_boundary_of_prefix(bytes, start, end);
    assert(valid_utf8(head.subrange(start, head.len() as int)));
    assert(head.subrange(start, head.len() as int) =~= bytes.subrange(start, end));
}

/// A boundary of a byte string that lies within a prefix cut at a boundary is
/// a boundary of that prefix too.
pub proof fn lemma_boundary_of_prefix(bytes: Seq<u8>, at: int, end: int)
    requires
        valid_utf8(bytes),
        is_char_boundary(bytes, at),
        is_char_boundary(bytes, end),
        at <= end,
    ensures
        is_char_boundary(bytes.subrange(0, end), at),
{
    broadcast use group_utf8_lib;

    let head = bytes.subrange(0, end);
    assert(valid_utf8(head));
    if at == 0 {
    } else if at == end {
        assert(is_char_boundary(head, head.len() as int));
    } else {
        assert(0 < at < end <= bytes.len());
        assert(head[at] == bytes[at]);
        is_char_boundary_iff_not_is_continuation_byte(bytes, at);
        is_char_boundary_iff_not_is_continuation_byte(head, at);
    }
}

/// Cutting a text at a boundary and joining the halves gives the text back.
pub proof fn lemma_split_rejoins(text: Seq<char>, at: int)
    requires
        on_boundary(text, at),
    ensures
        byte_slice(text, 0, at) + byte_slice(text, at, byte_len(text)) == text,
        encode_utf8(byte_slice(text, 0, at)) == encode_utf8(text).subrange(0, at),
        encode_utf8(byte_slice(text, at, byte_len(text))) == encode_utf8(text).subrange(
            at,
            byte_len(text),
        ),
{
    broadcast use group_utf8_lib;

    let bytes = encode_utf8(text);
    assert(valid_utf8(bytes));
    assert(decode_utf8(bytes) == text);
    assert(decode_utf8(bytes) =~= decode_utf8(bytes.subrange(0, at)) + decode_utf8(
        bytes.subrange(at, bytes.len() as int),
    ));
    assert(valid_utf8(bytes.subrange(0, at)));
    assert(valid_utf8(bytes.subrange(at, bytes.len() as int)));
}

/// A text with a character in it has bytes.
pub proof fn lemma_nonempty_has_bytes(text: Seq<char>)
    requires
        text.len() > 0,
    ensures
        byte_len(text) > 0,
{
    encode_utf8_first_scalar(text);
}

/// Where `at` is the last boundary before the end of a text, the bytes from
/// `at` on hold exactly its last character, and the bytes before `at` the
/// characters before that one.
pub proof fn lemma_last_scalar(text: Seq<char>, at: int)
    requires
        on_boundary(text, at),
        at < byte_len(text),
        forall|k: int| at < k < byte_len(text) ==> !on_boundary(text, k),
    ensures
        text.len() > 0,
        byte_slice(text, 0, at) == text.drop_last(),
        byte_slice(text, at, byte_len(text)) == seq![text.last()],
{
    broadcast use group_utf8_lib;

    let bytes = encode_utf8(text);
    lemma_boundary_in_range(text, at);
    lemma_split_rejoins(text, at);
    let tail = bytes.subrange(at, bytes.len() as int);
    let last = byte_slice(text, at, byte_len(text));
    assert(valid_utf8(tail));
    let width = length_of_first_scalar(tail);
    assert(is_char_boundary(tail, width)) by {
        reveal_with_fuel(is_char_boundary, 2);
    }
    if width < tail.len() {
        assert(tail[width] == bytes[at + width]);
        is_char_boundary_iff_not_is_continuation_byte(tail, width);
        is_char_boundary_iff_not_is_continuation_byte(bytes, at + width);
        assert(on_boundary(text, at + width));
    }
    assert(decode_utf8(pop_first_scalar(tail)) =~= Seq::<char>::empty());
    assert(last.len() == 1) by {
        reveal_with_fuel(decode_utf8, 2);
    }
    let front = byte_slice(text, 0, at);
    assert(front + last == text);
    assert(last =~= seq![text.last()]);
    assert(front =~= text.drop_last());
}

/// Encoding distributes over concatenation.
pub proof fn lemma_encode_concat(left: Seq<char>, right: Seq<char>)
    ensures
        encode_utf8(left + right) == encode_utf8(left) + encode_utf8(right),
    decreases left.len(),
{
    if left.len() == 0 {
        assert(left + right =~= right);
        assert(encode_utf8(left) + encode_utf8(right) =~= encode_utf8(right));
    } else {
        let whole = left + right;
        assert(whole[0] == left[0]);
        assert(whole.drop_first() =~= left.drop_first() + right);
        lemma_encode_concat(left.drop_first(), right);
        assert(encode_utf8(whole) =~= encode_utf8(left) + encode_utf8(right));
    }
}

} // verus!
