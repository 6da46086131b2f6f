//! Laws that relate the operations' contracts to plain facts about text.

use vstd::prelude::*;
use vstd::utf8::*;
use crate::range::ByteRange;
use crate::text::{
    byte_len, byte_slice, is_slice, lemma_boundary_in_range, lemma_boundary_of_prefix,
    lemma_byte_slice_bytes, lemma_encode_concat, lemma_ends_are_boundaries, lemma_split_rejoins,
    on_boundary,
};

verus! {

/// A range that runs from offset 0 to the length of the text always fits, and
/// selects the whole text: shrinking to it changes nothing.
pub proof fn lemma_whole_range_is_identity(range: ByteRange, text: Seq<char>)
    ensures
        range.lower() == 0 && range.upper(byte_len(text)) == byte_len(text) ==> range.fits(text)
            && range.select(text) == text,
{
    broadcast use group_utf8_lib;

    lemma_ends_are_boundaries(text);
    let bytes = encode_utf8(text);
    assert(bytes.subrange(0, bytes.len() as int) =~= bytes);
}

/// Selecting a range and then the whole of the result is selecting the range:
/// a second shrink to the full range is idle.
pub proof fn lemma_shrink_then_whole(range: ByteRange, text: Seq<char>)
    requires
        range.fits(text),
    ensures
        ByteRange::Full.fits(range.select(text)),
        ByteRange::Full.select(range.select(text)) == range.select(text),
{
    lemma_whole_range_is_identity(ByteRange::Full, range.select(text));
}

/// The two halves of a text cut at a boundary have `at` bytes and the rest of
/// the bytes, and joined they are the text again.
pub proof fn lemma_halves_cover_text(text: Seq<char>, at: int)
    requires
        on_boundary(text, at),
    ensures
        byte_slice(text, 0, at) + byte_slice(text, at, byte_len(text)) == text,
        encode_utf8(byte_slice(text, 0, at)) + encode_utf8(byte_slice(text, at, byte_len(text)))
            == encode_utf8(text),
        byte_len(byte_slice(text, 0, at)) == at,
        byte_len(byte_slice(text, at, byte_len(text))) == byte_len(text) - at,
{
    lemma_boundary_in_range(text, at);
    lemma_split_rejoins(text, at);
    let bytes = encode_utf8(text);
    assert(bytes.subrange(0, at) + bytes.subrange(at, bytes.len() as int) =~= bytes);
}

/// A slice by byte offsets is a run of whole characters of the text: the
/// characters from the `i`-th up to the `j`-th, where the first `i`
/// characters take `start` bytes and the first `j` take `end`.
pub proof fn lemma_slice_is_run_of_chars(text: Seq<char>, start: int, end: int) -> (run: (int, int))
    requires
        is_slice(text, start, end),
    ensures
        0 <= run.0 <= run.1 <= text.len(),
        byte_slice(text, start, end) == text.subrange(run.0, run.1),
        byte_len(text.take(run.0)) == start,
        byte_len(text.take(run.1)) == end,
{
    broadcast use group_utf8_lib;

    lemma_boundary_in_range(text, start);
    lemma_boundary_in_range(text, end);
    let bytes = encode_utf8(text);
    lemma_split_rejoins(text, end);
    let head = byte_slice(text, 0, end);
    let rest = byte_slice(text, end, byte_len(text));
    let j = head.len() as int;
    assert(head =~= text.take(j));
    lemma_boundary_of_prefix(bytes, start, end);
    lemma_split_rejoins(head, start);
    let front = byte_slice(head, 0, start);
    let mid = byte_slice(head, start, byte_len(head));
    let i = front.len() as int;
    assert(front =~= text.take(i));
    assert(encode_utf8(head).subrange(start, end) =~= bytes.subrange(start, end));
    assert(mid == byte_slice(text, start, end));
    assert(mid =~= text.subrange(i, j));
    assert(encode_utf8(head).subrange(0, start).len() == start);
    (i, j)
}

/// What a slice holds is settled by its bytes: they are the bytes
/// `start..end` of the text's encoding, and no other text has those bytes.
pub proof fn lemma_slice_matches_bytes(text: Seq<char>, start: int, end: int, other: Seq<char>)
    requires
        is_slice(text, start, end),
    ensures
        encode_utf8(byte_slice(text, start, end)) == encode_utf8(text).subrange(start, end),
        encode_utf8(other) == encode_utf8(text).subrange(start, end) ==> other == byte_slice(
            text,
            start,
            end,
        ),
{
    broadcast use group_utf8_lib;

    lemma_byte_slice_bytes(text, start, end);
    assert(decode_utf8(encode_utf8(other)) == other);
}

/// How the encoding of a non-empty text is built from its first character:
/// the first character takes the first bytes, the other characters the rest,
/// and a prefix of `n` characters is as long as the first character and the
/// `n - 1` that follow it.
proof fn lemma_first_char_bytes(text: Seq<char>, n: int)
    requires
        1 <= n <= text.len(),
    ensures
        valid_utf8(encode_utf8(text)),
        0 < length_of_first_scalar(encode_utf8(text)),
        pop_first_scalar(encode_utf8(text)) == encode_utf8(text.drop_first()),
        byte_len(text) == length_of_first_scalar(encode_utf8(text)) + byte_len(text.drop_first()),
        byte_len(text.take(n)) == length_of_first_scalar(encode_utf8(text)) + byte_len(
            text.drop_first().take(n - 1),
        ),
{
    broadcast use group_utf8_lib;

    let bytes = encode_utf8(text);
    encode_utf8_first_scalar(text);
    assert(pop_first_scalar(bytes) =~= encode_utf8(text.drop_first()));
    let prefix = text.take(n);
    assert(prefix[0] == text[0]);
    assert(prefix.drop_first() =~= text.drop_first().take(n - 1));
    encode_utf8_first_scalar(prefix);
}

/// The byte length of the first `n` characters of a text is a boundary of it.
pub proof fn lemma_prefix_len_is_boundary(text: Seq<char>, n: int)
    requires
        0 <= n <= text.len(),
    ensures
        on_boundary(text, byte_len(text.take(n))),
    decreases n,
{
    if n == 0 {
        assert(text.take(0) =~= Seq::<char>::empty());
        lemma_ends_are_boundaries(text);
    } else {
        let rest = text.drop_first();
        lemma_first_char_bytes(text, n);
        lemma_prefix_len_is_boundary(rest, n - 1);
        lemma_boundary_in_range(rest, byte_len(rest.take(n - 1)));
    }
}

/// An offset that falls inside the encoding of a character, after its first
/// byte, is no boundary, and no range with an end there fits the text.
pub proof fn lemma_inside_char_is_no_boundary(text: Seq<char>, n: int, at: int)
    requires
        0 <= n < text.len(),
        byte_len(text.take(n)) < at < byte_len(text.take(n + 1)),
    ensures
        !on_boundary(text, at),
        forall|range: ByteRange|
            (range.lower() == at || range.upper(byte_len(text)) == at) ==> !#[trigger] range.fits(
                text,
            ),
    decreases n,
{
    let rest = text.drop_first();
    let bytes = encode_utf8(text);
    lemma_first_char_bytes(text, n + 1);
    let width = byte_len(text) - byte_len(rest);
    assert(valid_utf8(encode_utf8(rest))) by {
        encode_utf8_valid_utf8(rest);
    }
    if n == 0 {
        assert(text.take(0) =~= Seq::<char>::empty());
        assert(rest.take(0) =~= Seq::<char>::empty());
        assert(!is_char_boundary(bytes, at)) by {
            reveal_with_fuel(is_char_boundary, 2);
        }
    } else {
        lemma_first_char_bytes(text, n);
        lemma_inside_char_is_no_boundary(rest, n - 1, at - width);
    }
    lemma_ends_are_boundaries(text);
}

/// The boundaries of a text are exactly the byte lengths of its prefixes.
pub proof fn lemma_boundary_iff_prefix_len(text: Seq<char>, at: int)
    ensures
        on_boundary(text, at) <==> exists|n: int|
            0 <= n <= text.len() && #[trigger] byte_len(text.take(n)) == at,
{
    if on_boundary(text, at) {
        let run = lemma_slice_is_run_of_chars(text, at, at);
        assert(byte_len(text.take(run.0)) == at);
    }
    if exists|n: int| 0 <= n <= text.len() && #[trigger] byte_len(text.take(n)) == at {
        let n = choose|n: int| 0 <= n <= text.len() && #[trigger] byte_len(text.take(n)) == at;
        lemma_prefix_len_is_boundary(text, n);
    }
}

/// Taking the last character off a text takes exactly that character's bytes
/// off the end of its encoding.
pub proof fn lemma_drop_last_removes_its_bytes(text: Seq<char>)
    requires
        text.len() > 0,
    ensures
        encode_utf8(text.drop_last()) + encode_scalar(text.last() as u32) == encode_utf8(text),
        byte_len(text.drop_last()) == byte_len(text) - encode_scalar(text.last() as u32).len(),
        1 <= encode_scalar(text.last() as u32).len() <= 4,
{
    let last = seq![text.last()];
    assert(text.drop_last() + last =~= text);
    lemma_encode_concat(text.drop_last(), last);
    assert(last.drop_first() =~= Seq::<char>::empty());
    assert(encode_utf8(last) =~= encode_scalar(text.last() as u32)) by {
        reveal_with_fuel(encode_utf8, 2);
    }
}

} // verus!
