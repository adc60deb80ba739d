//! Views of nested byte buffers: what a vector of slices or of vectors holds,
//! as a sequence of byte sequences.

use vstd::prelude::*;

verus! {

/// The views of a vector of byte slices.
pub open spec fn slice_views(chunks: Seq<&[u8]>) -> Seq<Seq<u8>> {
    chunks.map_values(|c: &[u8]| c@)
}

/// The views of a vector of byte vectors.
pub open spec fn vec_views(parts: Seq<Vec<u8>>) -> Seq<Seq<u8>> {
    parts.map_values(|p: Vec<u8>| p@)
}

} // verus!
