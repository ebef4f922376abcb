//! Interned-identifier handle.
//!
//! An `Id` is the symbol a string interner hands out: a plain index into the
//! interner's table. The interner itself lives outside this crate; here the
//! handle is only an index with total conversions to and from `usize`.

use vstd::prelude::*;

verus! {

/// Symbol handle for an interned identifier string: a bare table index.
#[derive(Clone, Copy, Debug, Hash, PartialEq, Eq, Structural)]
pub struct Id(pub usize);

impl Id {
    /// The index this handle wraps.
    pub fn to_usize(self) -> (r: usize)
        ensures
            r == self.0,
    {
        self.0
    }

    /// Handle for a raw index; every index is a valid handle, so this never fails.
    pub fn try_from_usize(index: usize) -> (r: Option<Id>)
        ensures
            r == Some(Id(index)),
    {
        Some(Id(index))
    }
}

impl From<usize> for Id {
    fn from(value: usize) -> (r: Id) {
        Id(value)
    }
}

impl vstd::std_specs::convert::FromSpecImpl<usize> for Id {
    open spec fn obeys_from_spec() -> bool {
        true
    }

    open spec fn from_spec(value: usize) -> Id {
        Id(value)
    }
}

impl From<Id> for usize {
    fn from(value: Id) -> (r: usize) {
        value.0
    }
}

impl vstd::std_specs::convert::FromSpecImpl<Id> for usize {
    open spec fn obeys_from_spec() -> bool {
        true
    }

    open spec fn from_spec(value: Id) -> usize {
        value.0
    }
}

} // verus!
