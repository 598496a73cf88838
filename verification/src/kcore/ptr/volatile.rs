//! A value read and written as a whole.
use vstd::prelude::*;

verus! {

/// A value that is read and written only as a whole.
#[derive(Clone)]
pub struct Volatile<T> {
    value: T,
}

impl<T: Copy> Volatile<T> {
    /// The value held.
    pub closed spec fn spec_value(&self) -> T {
        self.value
    }

    pub fn new(value: T) -> (r: Self)
        ensures
            r.spec_value() == value,
    {
        Volatile { value }
    }

    pub fn read(&self) -> (r: T)
        ensures
            r == self.spec_value(),
    {
        self.value
    }

    pub fn write(&mut self, value: T)
        ensures
            final(self).spec_value() == value,
    {
        self.value = value;
    }

    /// Reads the value, changes it with `f` and writes it back.
    pub fn update<F: FnOnce(T) -> T>(&mut self, f: F)
        requires
            f.requires((old(self).spec_value(),)),
        ensures
            f.ensures((old(self).spec_value(),), final(self).spec_value()),
    {
        let value = self.read();
        let value = f(value);
        self.write(value);
    }
}

} // verus!
