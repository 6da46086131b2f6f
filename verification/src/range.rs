//! Byte ranges: the four ways of naming a stretch of a string.

use vstd::prelude::*;
use vstd::string::*;
use crate::text::{
    byte_len, byte_slice, is_slice, lemma_boundary_in_range, lemma_ends_are_boundaries,
    on_boundary,
};

verus! {

/// A range of byte offsets into a string.
#[derive(Clone, Copy, Debug, PartialEq, Eq)]
pub enum ByteRange {
    /// The whole string.
    Full,
    /// From the given offset to the end.
    From(usize),
    /// From the start up to, not including, the given offset.
    To(usize),
    /// From the first offset up to, not including, the second.
    Between(usize, usize),
}

impl ByteRange {
    /// The offset at which the range begins.
    pub open spec fn lower(self) -> int {
        match self {
            ByteRange::Full => 0,
            ByteRange::From(start) => start as int,
            ByteRange::To(_) => 0,
            ByteRange::Between(start, _) => start as int,
        }
    }

    /// The offset at which the range ends in a string of `len` bytes.
    pub open spec fn upper(self, len: int) -> int {
        match self {
            ByteRange::Full => len,
            ByteRange::From(_) => len,
            ByteRange::To(end) => end as int,
            ByteRange::Between(_, end) => end as int,
        }
    }

    /// True when the range selects a well-formed piece of `text`: it does not
    /// run backwards, ends within the text, and both ends fall between
    /// characters.
    pub open spec fn fits(self, text: Seq<char>) -> bool {
        match self {
            ByteRange::Full => true,
            ByteRange::From(start) => on_boundary(text, start as int),
            ByteRange::To(end) => on_boundary(text, end as int),
            ByteRange::Between(start, end) => is_slice(text, start as int, end as int),
        }
    }

    /// The piece of `text` that the range selects.
    pub open spec fn select(self, text: Seq<char>) -> Seq<char>
        recommends
            self.fits(text),
    {
        byte_slice(text, self.lower(), self.upper(byte_len(text)))
    }

    /// A range that fits has both ends on boundaries of the text, in order.
    pub proof fn lemma_fits_is_slice(self, text: Seq<char>)
        requires
            self.fits(text),
        ensures
            is_slice(text, self.lower(), self.upper(byte_len(text))),
    {
        lemma_ends_are_boundaries(text);
        match self {
            ByteRange::Full => {},
            ByteRange::From(start) => lemma_boundary_in_range(text, start as int),
            ByteRange::To(end) => lemma_boundary_in_range(text, end as int),
            ByteRange::Between(_, _) => {},
        }
    }

    /// Tests whether the range fits `s`.
    pub fn fits_str(&self, s: &str) -> (ok: bool)
        ensures
            ok == self.fits(s@),
    {
        match *self {
            ByteRange::Full => true,
            ByteRange::From(start) => s.is_char_boundary(start),
            ByteRange::To(end) => s.is_char_boundary(end),
            ByteRange::Between(start, end) => start <= end && s.is_char_boundary(start)
                && s.is_char_boundary(end),
        }
    }

    /// The two ends of the range in a string of `len` bytes.
    pub fn bounds(&self, len: usize) -> (ends: (usize, usize))
        ensures
            ends.0 == self.lower(),
            ends.1 == self.upper(len as int),
    {
        match *self {
            ByteRange::Full => (0, len),
            ByteRange::From(start) => (start, len),
            ByteRange::To(end) => (0, end),
            ByteRange::Between(start, end) => (start, end),
        }
    }
}

} // verus!
