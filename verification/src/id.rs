//! Stable per-type identity used as the key for components, managers and
//! plugins.

use vstd::prelude::*;

verus! {

/// An opaque, totally-ordered value that uniquely identifies a concrete
/// type: two identities are equal iff they denote the same type.  The caller
/// assigns the numbers; the library only compares them.
#[derive(Clone, Copy, PartialEq, Eq, Structural, Hash, Debug)]
pub struct Id {
    /// The primary key.
    pub t: u64,
    /// The type tag.
    pub type_id: u64,
}

impl Id {
    /// Builds the identity with the given primary key and type tag.
    pub fn of(t: u64, type_id: u64) -> (r: Id)
        ensures
            r.t == t,
            r.type_id == type_id,
    {
        Id { t, type_id }
    }

    /// The primary key of this identity.
    pub fn get_id(&self) -> (r: u64)
        ensures
            r == self.t,
    {
        self.t
    }

    /// The type tag of this identity.
    pub fn get_type_id(&self) -> (r: u64)
        ensures
            r == self.type_id,
    {
        self.type_id
    }
}

} // verus!
