//! The operations themselves, as an extension trait of `Cow<'_, str>`.

use std::borrow::Cow;
use vstd::prelude::*;
use vstd::string::*;
use vstd::utf8::*;
use crate::buffer::take_last;
use crate::laws::lemma_whole_range_is_identity;
use crate::range::ByteRange;
use crate::slice::{last_boundary, slice_bytes, split_bytes};
use crate::text::{byte_len, byte_slice, on_boundary, lemma_split_rejoins};

verus! {

/// Extension methods for [`Cow<'_, str>`]-like types.
///
/// A value is described by its view, the sequence of its characters, and by
/// whether it owns its buffer. No operation changes the latter.
pub trait CowStrExt: Sized + View<V = Seq<char>> {
    /// True when the value owns its buffer, false when it borrows.
    spec fn is_owned(&self) -> bool;

    /// A view of the piece of the string that `range` selects.
    ///
    /// The range must fit the string: it must not run backwards and both of
    /// its ends must be character boundaries within the string.
    fn index(&self, range: ByteRange) -> (piece: &str)
        requires
            range.fits(self@),
        ensures
            piece@ == range.select(self@),
            encode_utf8(piece@) == encode_utf8(self@).subrange(
                range.lower(),
                range.upper(byte_len(self@)),
            ),
            range.lower() == 0 && range.upper(byte_len(self@)) == byte_len(self@) ==> piece@
                == self@,
    ;

    /// Slices the string in place.
    ///
    /// The range must fit the string, as for [`CowStrExt::index`].
    fn shrink(&mut self, range: ByteRange)
        requires
            range.fits(old(self)@),
        ensures
            final(self)@ == range.select(old(self)@),
            encode_utf8(final(self)@) == encode_utf8(old(self)@).subrange(
                range.lower(),
                range.upper(byte_len(old(self)@)),
            ),
            range.lower() == 0 && range.upper(byte_len(old(self)@)) == byte_len(old(self)@)
                ==> final(self)@ == old(self)@,
            final(self).is_owned() == old(self).is_owned(),
    ;

    /// Removes the last character from the string and returns it.
    ///
    /// Returns `None` if the string is empty.
    fn pop(&mut self) -> (last: Option<char>)
        ensures
            old(self)@.len() == 0 ==> last is None && final(self)@ == old(self)@,
            old(self)@.len() > 0 ==> last == Some(old(self)@.last()) && final(self)@ == old(
                self,
            )@.drop_last(),
            final(self).is_owned() == old(self).is_owned(),
    ;

    /// Divides the string into two at the given byte index.
    ///
    /// `at` must be a character boundary within the string.
    fn split_at(self, at: usize) -> (halves: (Self, Self))
        requires
            on_boundary(self@, at as int),
        ensures
            halves.0@ == byte_slice(self@, 0, at as int),
            halves.1@ == byte_slice(self@, at as int, byte_len(self@)),
            halves.0@ + halves.1@ == self@,
            byte_len(halves.0@) == at,
            byte_len(halves.1@) == byte_len(self@) - at,
            halves.0.is_owned() == self.is_owned(),
            halves.1.is_owned() == self.is_owned(),
    ;
}

impl<'a> CowStrExt for Cow<'a, str> {
    open spec fn is_owned(&self) -> bool {
        self is Owned
    }

    fn index(&self, range: ByteRange) -> (piece: &str) {
        let whole: &str = match self {
            Cow::Borrowed(s) => s,
            Cow::Owned(s) => s.as_str(),
        };
        let (start, end) = range.bounds(whole.as_bytes().len());
        proof {
            range.lemma_fits_is_slice(whole@);
            lemma_whole_range_is_identity(range, whole@);
        }
        slice_bytes(whole, start, end)
    }

    fn shrink(&mut self, range: ByteRange) {
        match self {
            Cow::Borrowed(s) => {
                let (start, end) = range.bounds(s.as_bytes().len());
                proof {
                    range.lemma_fits_is_slice(s@);
                    lemma_whole_range_is_identity(range, s@);
                }
                *s = slice_bytes(*s, start, end);
            },
            Cow::Owned(s) => {
                let (start, end) = range.bounds(s.as_str().as_bytes().len());
                proof {
                    range.lemma_fits_is_slice(s@);
                    lemma_whole_range_is_identity(range, s@);
                }
                *s = slice_bytes(s.as_str(), start, end).to_owned();
            },
        }
    }

    fn pop(&mut self) -> (last: Option<char>) {
        match self {
            Cow::Borrowed(s) => {
                if s.is_empty() {
                    None
                } else {
                    let at = last_boundary(*s);
                    let (front, back) = split_bytes(*s, at);
                    let last = back.get_char(0);
                    *s = front;
                    Some(last)
                }
            },
            Cow::Owned(s) => take_last(s),
        }
    }

    fn split_at(self, at: usize) -> (halves: (Self, Self)) {
        match self {
            Cow::Borrowed(s) => {
                let (left, right) = split_bytes(s, at);
                (Cow::Borrowed(left), Cow::Borrowed(right))
            },
            Cow::Owned(mut s) => {
                proof {
                    lemma_split_rejoins(s@, at as int);
                }
                let rest = s.split_off(at);
                proof {
                    broadcast use group_utf8_lib;

                    assert(decode_utf8(encode_utf8(s@)) == s@);
                    assert(decode_utf8(encode_utf8(rest@)) == rest@);
                }
                (Cow::Owned(s), Cow::Owned(rest))
            },
        }
    }
}

} // verus!
