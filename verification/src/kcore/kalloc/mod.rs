//! Allocators of the core library.
use vstd::prelude::*;

use std::sync::Arc;

pub mod slab;

verus! {

/// An allocator that several owners share.
pub struct SharedAllocator<A> {
    inner: Arc<A>,
}

impl<A> SharedAllocator<A> {
    /// The allocator shared.
    pub closed spec fn spec_inner(&self) -> A {
        *self.inner
    }

    pub fn new(alloc: A) -> (r: Self)
        ensures
            r.spec_inner() == alloc,
    {
        SharedAllocator { inner: Arc::new(alloc) }
    }

    /// The allocator shared.
    pub fn inner(&self) -> (r: &A)
        ensures
            *r == self.spec_inner(),
    {
        &*self.inner
    }
}

impl<A> Clone for SharedAllocator<A> {
    /// Another owner of the same allocator.
    fn clone(&self) -> (r: Self)
        ensures
            r.spec_inner() == self.spec_inner(),
    {
        SharedAllocator { inner: Arc::clone(&self.inner) }
    }
}

} // verus!
