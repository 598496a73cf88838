//! Slab pages: one page cut into equal slots.
use vstd::prelude::*;

pub mod fixed;

verus! {

/// Slot sizes a slab page can be built for.
pub trait SlabSize {}

/// Names the slot size `N` so that the sizes a slab page accepts can be
/// listed.
pub struct SlabCheck<const N: usize>;

impl SlabSize for SlabCheck<128> {}

impl SlabSize for SlabCheck<256> {}

impl SlabSize for SlabCheck<512> {}

impl SlabSize for SlabCheck<1024> {}

impl SlabSize for SlabCheck<2048> {}

impl SlabSize for SlabCheck<4096> {}

/// The sizes that `SlabSize` lists.
pub open spec fn slab_size(n: int) -> bool {
    n == 128 || n == 256 || n == 512 || n == 1024 || n == 2048 || n == 4096
}

} // verus!
