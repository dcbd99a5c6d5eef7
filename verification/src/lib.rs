//! Shannon-Fano byte-stream compression.
//!
//! The crate assigns variable-length prefix codes to byte values by observed
//! frequency, builds a binary prefix tree from those codes, serializes the
//! tree into a compressed header, and re-encodes the input as a packed
//! bitstream.  Decoding reads the header back, rebuilds the tree, and walks
//! the bitstream bit by bit to recover the original bytes.

use vstd::prelude::*;

pub mod bits;
pub mod codes;
pub mod tree;
pub mod decode;
pub mod encode;

verus! {

/// A decode failure: the typed conditions on which a compressed stream is
/// rejected.
#[derive(Debug, PartialEq, Eq, Structural)]
pub enum DecodeError {
    /// The declared tree length exceeds the available bytes, the tree
    /// bitstream ends before every queued child slot is filled (a leaf's
    /// byte value cut short, or a rebuilt tree that is not a full binary
    /// tree), or a redundant-bit count exceeds the data it trims.
    MalformedHeader,
    /// The bitstream directs the tree walk into a child that does not exist.
    TreeWalkOutOfRange,
}

} // verus!
