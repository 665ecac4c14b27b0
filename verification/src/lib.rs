//! An in-memory document store speaking a length-prefixed, compressed,
//! variant-tagged wire protocol, with a verified core: the JSON value
//! model, the textual command grammar, the wire codec, the document-id
//! text form, and the store's command semantics.

pub mod codec;
pub mod doc_id;
pub mod json;
pub mod message;
pub mod store;

use vstd::prelude::*;

verus! {

/// True of the bytes the grammar treats as blank space.
pub open spec fn is_ws(b: u8) -> bool {
    b == 0x20 || b == 0x09 || b == 0x0a || b == 0x0d
}

/// Whether a byte is an ASCII decimal digit.
pub open spec fn is_digit(b: u8) -> bool {
    0x30 <= b <= 0x39
}

/// A byte is blank space exactly when `is_ws` says so.
pub fn byte_is_ws(b: u8) -> (r: bool)
    ensures
        r == is_ws(b),
{
    b == 0x20 || b == 0x09 || b == 0x0a || b == 0x0d
}

/// A byte is a digit exactly when `is_digit` says so.
pub fn byte_is_digit(b: u8) -> (r: bool)
    ensures
        r == is_digit(b),
{
    0x30 <= b && b <= 0x39
}

} // verus!
