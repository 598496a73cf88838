//! A resource together with the pages it lives in.
use vstd::prelude::*;

use crate::addr::PageRange;

verus! {

/// A resource, such as an allocator, and the pages it lives in.
pub struct MappedResource<T> {
    resource: T,
    page: PageRange,
}

impl<T> MappedResource<T> {
    pub closed spec fn resource_spec(&self) -> T {
        self.resource
    }

    pub closed spec fn pages_spec(&self) -> PageRange {
        self.page
    }

    pub fn new(resource: T, page: PageRange) -> (r: Self)
        ensures
            r.resource_spec() == resource,
            r.pages_spec() == page,
    {
        MappedResource { resource, page }
    }

    pub fn resource(&self) -> (r: &T)
        ensures
            *r == self.resource_spec(),
    {
        &self.resource
    }

    pub fn pages(&self) -> (r: PageRange)
        ensures
            r == self.pages_spec(),
    {
        self.page
    }
}

} // verus!
