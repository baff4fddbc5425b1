//! One node in the forest of trees held by a [`crate::world::World`].

use vstd::prelude::*;
use crate::component::Component;
use crate::id::Id;

verus! {

/// An entity is a tree node: it caches its distance from its root (`depth`),
/// points at its parent and children by arena index, remembers the scene it
/// belongs to, and owns at most one component per component type.
pub struct Entity<P> {
    /// Cached distance from the root of this entity's tree.
    pub depth: usize,
    /// Arena index of the parent, `None` iff this entity is a root.
    pub parent: Option<usize>,
    /// Arena indices of the children, in insertion order, without
    /// duplicates.
    pub children: Vec<usize>,
    /// The scene this entity is a member of, if any.
    pub scene: Option<usize>,
    /// The attached components, at most one per component type.
    pub components: Vec<Component<P>>,
}

impl<P> Entity<P> {
    /// A fresh entity: a root of its own one-node tree, in no scene, with no
    /// components.
    pub fn new() -> (r: Entity<P>)
        ensures
            r.depth == 0,
            r.parent is None,
            r.children@.len() == 0,
            r.scene is None,
            r.components@.len() == 0,
    {
        Entity {
            depth: 0,
            parent: None,
            children: Vec::new(),
            scene: None,
            components: Vec::new(),
        }
    }

    /// True iff a component with type identity `t` is attached.
    pub open spec fn spec_has_component(self, t: Id) -> bool {
        exists|k: int| 0 <= k < self.components@.len() && self.components@[k].type_id == t
    }

    /// The position of the component with type identity `t`.
    pub open spec fn component_index(self, t: Id) -> int {
        choose|k: int| 0 <= k < self.components@.len() && self.components@[k].type_id == t
    }

    /// True iff a component with type identity `t` is attached and its
    /// manager type is `mt`.
    pub open spec fn has_component_with_manager(self, t: Id, mt: Id) -> bool {
        exists|k: int|
            0 <= k < self.components@.len() && self.components@[k].type_id == t
                && self.components@[k].manager_type_id == mt
    }

    /// The component list holds at most one component per type.
    pub open spec fn components_distinct(self) -> bool {
        forall|k1: int, k2: int|
            0 <= k1 < k2 < self.components@.len() ==> self.components@[k1].type_id
                != self.components@[k2].type_id
    }

    /// Every attached component points back at the owning entity `i`.
    pub open spec fn components_owned_by(self, i: usize) -> bool {
        forall|k: int|
            0 <= k < self.components@.len() ==> self.components@[k].entity == Some(i)
    }

    /// Finds the position of the component with type identity `t`.
    pub fn find_component(&self, t: Id) -> (r: Option<usize>)
        ensures
            match r {
                Some(k) => k < self.components@.len() && self.components@[k as int].type_id == t,
                None => !self.spec_has_component(t),
            },
    {
        let n = self.components.len();
        let mut k: usize = 0;
        while k < n
            invariant
                k <= n,
                n == self.components@.len(),
                forall|j: int| 0 <= j < k ==> self.components@[j].type_id != t,
            decreases n - k,
        {
            if self.components[k].type_id == t {
                return Some(k);
            }
            k = k + 1;
        }
        None
    }
}

} // verus!
