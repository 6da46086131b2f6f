//! What is taken on trust about the standard library's `String`: the two
//! in-place edits of an owned buffer that the operations rely on.

use vstd::prelude::*;
use vstd::utf8::*;

verus! {

/// Calls `String::pop`, which takes the last character off the buffer and
/// returns it; an empty buffer is left alone and gives `None`. The contract
/// repeats that and is not proved.
#[verifier::external_body]
pub(crate) fn take_last(buffer: &mut String) -> (last: Option<char>)
    ensures
        old(buffer)@.len() == 0 ==> last is None && final(buffer)@ == old(buffer)@,
        old(buffer)@.len() > 0 ==> last == Some(old(buffer)@.last()) && final(buffer)@ == old(
            buffer,
        )@.drop_last(),
{
    buffer.pop()
}

/// `String::split_off` keeps the bytes before `at` in the buffer and returns
/// the bytes from `at` on as a new string. The standard library panics unless
/// `at` is a character boundary within the string, so that is required. The
/// contract is not proved.
pub assume_specification[ std::string::String::split_off ](
    s: &mut String,
    at: usize,
) -> (rest: String)
    requires
        is_char_boundary(encode_utf8(old(s)@), at as int),
    ensures
        encode_utf8(final(s)@) == encode_utf8(old(s)@).subrange(0, at as int),
        encode_utf8(rest@) == encode_utf8(old(s)@).subrange(
            at as int,
            encode_utf8(old(s)@).len() as int,
        ),
;

} // verus!
