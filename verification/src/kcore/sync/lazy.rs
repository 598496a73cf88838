//! A value computed on first use.
use vstd::prelude::*;

verus! {

/// A value that `f` computes the first time it is asked for.
pub struct Lazy<T, F> {
    f: Option<F>,
    data: Option<T>,
}

impl<T, F: FnOnce() -> T> Lazy<T, F> {
    /// The value, once it is computed.
    pub closed spec fn spec_data(&self) -> Option<T> {
        self.data
    }

    /// The function that computes the value.
    pub closed spec fn spec_init(&self) -> Option<F> {
        self.f
    }

    /// Exactly one of the value and the function that computes it is
    /// there, and the function can be called.
    pub closed spec fn wf(&self) -> bool {
        &&& self.f is Some <==> self.data is None
        &&& self.f matches Some(f) ==> f.requires(())
    }

    pub fn new(f: F) -> (r: Self)
        requires
            f.requires(()),
        ensures
            r.wf(),
            r.spec_data() is None,
            r.spec_init() == Some(f),
    {
        Lazy { f: Some(f), data: None }
    }

    /// The value: computed by the function on the first call, and the same
    /// one on every later call.
    pub fn get_or_init(&mut self) -> (r: &T)
        requires
            old(self).wf(),
        ensures
            final(self).wf(),
            final(self).spec_data() == Some(*r),
            old(self).spec_data() matches Some(v) ==> *r == v && final(self).spec_init() == old(self).spec_init(),
            old(self).spec_init() matches Some(f) ==> f.ensures((), *r),
    {
        if self.f.is_some() {
            let f = self.f.take().unwrap();
            let v = f();
            self.data = Some(v);
        }
        self.data.as_ref().unwrap()
    }
}

} // verus!
