//! Slicing and shrinking operations for copy-on-write strings.
//!
//! A `Cow<'_, str>` either borrows text that lives elsewhere or owns a buffer.
//! The operations here cut such a value by byte offsets without ever changing
//! which of the two it is: a borrowed value is narrowed to a sub-view, an owned
//! value is edited in its own buffer.
//!
//! Contracts speak of a value through its view, the sequence of its
//! characters, and of byte offsets through the UTF-8 encoding of that view.

pub mod text;
pub mod range;
pub mod buffer;
pub mod slice;
pub mod ext;
pub mod laws;

pub use ext::CowStrExt;
pub use range::ByteRange;
