//! Chunked traversal over a shared collection: a reader that hands out the
//! items in slices, so that several workers can walk disjoint chunks.

use vstd::prelude::*;

verus! {

/// A resettable, chunk-at-a-time traversal. `process` is handed one slice
/// of items per call and says whether the walk should go on.
pub trait Traversal {
    type Item;

    fn reset(&self, chunk_size: u32);

    fn traversal<F: Fn(&[Self::Item]) -> bool>(&self, process: F);
}

} // verus!
