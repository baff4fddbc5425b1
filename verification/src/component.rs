//! A typed payload attached to at most one entity.

use vstd::prelude::*;
use crate::id::Id;

verus! {

/// A polymorphic component value.  `type_id` identifies the concrete
/// component type (at most one component per type per entity), and
/// `manager_type_id` / `manager_order` describe the manager that aggregates
/// components of this type inside a scene: looking a component up by its
/// identity is the checked downcast of this design, so a mismatched identity
/// yields `None` rather than a value of the wrong type.
pub struct Component<P> {
    /// Identity of the concrete component type.
    pub type_id: Id,
    /// Identity of the manager type that owns components of this type.
    pub manager_type_id: Id,
    /// Scheduling priority of that manager, ascending.
    pub manager_order: usize,
    /// Back-reference to the owning entity, if attached.
    pub entity: Option<usize>,
    /// The user payload carried by this component.
    pub payload: P,
}

impl<P> Component<P> {
    /// A fresh, unattached component.
    pub fn new(type_id: Id, manager_type_id: Id, manager_order: usize, payload: P) -> (r:
        Component<P>)
        ensures
            r.type_id == type_id,
            r.manager_type_id == manager_type_id,
            r.manager_order == manager_order,
            r.entity is None,
            r.payload == payload,
    {
        Component { type_id, manager_type_id, manager_order, entity: None, payload }
    }

    /// The entity this component is attached to, if any.
    pub fn entity(&self) -> (r: Option<usize>)
        ensures
            r == self.entity,
    {
        self.entity
    }

    /// Identity of the concrete component type.
    pub fn type_id(&self) -> (r: Id)
        ensures
            r == self.type_id,
    {
        self.type_id
    }

    /// Identity of the manager type for this component's type.
    pub fn component_manager_type_id(&self) -> (r: Id)
        ensures
            r == self.manager_type_id,
    {
        self.manager_type_id
    }
}

} // verus!
