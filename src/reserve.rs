use vstd::prelude::*;

verus! {

/// Collections that can be created with room reserved for some number of items.
pub trait Reserve: Sized {
    /// An empty collection with room for `n` items.
    fn reserve(n: usize) -> (r: Self);
}

impl<T> Reserve for Vec<T> {
    fn reserve(n: usize) -> Vec<T> {
        Vec::with_capacity(n)
    }
}

} // verus!
