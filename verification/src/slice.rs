//! Cutting a string slice by byte offsets.

use vstd::prelude::*;
use vstd::string::*;
use vstd::utf8::*;
use crate::laws::lemma_drop_last_removes_its_bytes;
use crate::text::{
    byte_len, byte_slice, is_slice, lemma_boundary_in_range, lemma_boundary_of_prefix,
    lemma_last_scalar, lemma_nonempty_has_bytes, lemma_split_rejoins, on_boundary,
};

verus! {

/// The part of `s` that occupies the bytes `start..end`, as a view into `s`.
pub fn slice_bytes<'a>(s: &'a str, start: usize, end: usize) -> (piece: &'a str)
    requires
        is_slice(s@, start as int, end as int),
    ensures
        piece@ == byte_slice(s@, start as int, end as int),
        encode_utf8(piece@) == encode_utf8(s@).subrange(start as int, end as int),
{
    broadcast use group_utf8_lib;

    proof {
        lemma_boundary_in_range(s@, start as int);
        lemma_boundary_in_range(s@, end as int);
        lemma_boundary_of_prefix(s.spec_bytes(), start as int, end as int);
    }
    let (head, _) = s.split_at(end);
    let (_, piece) = head.split_at(start);
    proof {
        let bytes = s.spec_bytes();
        assert(head.spec_bytes().subrange(start as int, head.spec_bytes().len() as int)
            =~= bytes.subrange(start as int, end as int));
        assert(decode_utf8(encode_utf8(piece@)) == piece@);
    }
    piece
}

/// Both halves of `s` around byte offset `at`, each a view into `s`.
pub fn split_bytes<'a>(s: &'a str, at: usize) -> (halves: (&'a str, &'a str))
    requires
        on_boundary(s@, at as int),
    ensures
        halves.0@ == byte_slice(s@, 0, at as int),
        halves.1@ == byte_slice(s@, at as int, byte_len(s@)),
        halves.0@ + halves.1@ == s@,
        byte_len(halves.0@) == at,
        byte_len(halves.1@) == byte_len(s@) - at,
{
    broadcast use group_utf8_lib;

    proof {
        lemma_boundary_in_range(s@, at as int);
        lemma_split_rejoins(s@, at as int);
    }
    let halves = s.split_at(at);
    proof {
        assert(decode_utf8(encode_utf8(halves.0@)) == halves.0@);
        assert(decode_utf8(encode_utf8(halves.1@)) == halves.1@);
    }
    halves
}

/// The byte offset at which the last character of a non-empty `s` begins.
pub fn last_boundary(s: &str) -> (at: usize)
    requires
        s@.len() > 0,
    ensures
        at == byte_len(s@.drop_last()),
        1 <= byte_len(s@) - at <= 4,
        on_boundary(s@, at as int),
        byte_slice(s@, 0, at as int) == s@.drop_last(),
        byte_slice(s@, at as int, byte_len(s@)) == seq![s@.last()],
{
    broadcast use group_utf8_lib;

    let len = s.as_bytes().len();
    proof {
        lemma_nonempty_has_bytes(s@);
    }
    let mut at: usize = len - 1;
    while !s.is_char_boundary(at)
        invariant
            at < len,
            len == byte_len(s@),
            forall|k: int| at < k < len ==> !on_boundary(s@, k),
        decreases at,
    {
        proof {
            encode_utf8_valid_utf8(s@);
            is_char_boundary_start_end_of_seq(s.spec_bytes());
        }
        at = at - 1;
    }
    proof {
        lemma_last_scalar(s@, at as int);
        lemma_split_rejoins(s@, at as int);
        lemma_drop_last_removes_its_bytes(s@);
    }
    at
}

} // verus!
