//! Indices into the processor's descriptor tables.
use vstd::prelude::*;

verus! {

/// The entries of the interrupt stack table in use.
#[derive(Clone, Copy, PartialEq, Eq, Structural, Debug)]
pub enum IstEntry {
    DoubleFault,
}

impl From<IstEntry> for usize {
    fn from(e: IstEntry) -> (r: usize) {
        match e {
            IstEntry::DoubleFault => 0,
        }
    }
}

impl vstd::std_specs::convert::FromSpecImpl<IstEntry> for usize {
    open spec fn obeys_from_spec() -> bool {
        true
    }

    open spec fn from_spec(e: IstEntry) -> usize {
        match e {
            IstEntry::DoubleFault => 0,
        }
    }
}

} // verus!
