//! Per-type aggregate of the live components of one type inside one scene.

use vstd::prelude::*;
use crate::id::Id;

verus! {

/// One manager exists per (scene, component type) pair, created lazily on
/// the first registration of a component of its type and destroyed when its
/// last member is unregistered.  A member is recorded as the pair of the
/// owning entity's index and the component's type identity.  Lifecycle
/// callbacks are modelled by counters: `init_calls` says how many times the
/// manager's `init` hook has run, `update_calls` the same for `update`.
pub struct ComponentManager {
    /// Identity of the manager type.
    pub type_id: Id,
    /// Scheduling priority, ascending.
    pub order: usize,
    /// Back-reference to the owning scene; set on creation.
    pub scene: Option<usize>,
    /// The components aggregated by this manager, as (entity, component
    /// type) pairs.
    pub members: Vec<(usize, Id)>,
    /// How many times the `init` lifecycle hook has run.
    pub init_calls: u64,
    /// How many times the `update` lifecycle hook has run.
    pub update_calls: u64,
}

impl ComponentManager {
    /// Scheduling priority of this manager.
    pub fn order(&self) -> (r: usize)
        ensures
            r == self.order,
    {
        self.order
    }

    /// Identity of the manager type.
    pub fn type_id(&self) -> (r: Id)
        ensures
            r == self.type_id,
    {
        self.type_id
    }

    /// The owning scene, if installed.
    pub fn scene(&self) -> (r: Option<usize>)
        ensures
            r == self.scene,
    {
        self.scene
    }

    /// True iff no component is currently registered with this manager.
    pub fn is_empty(&self) -> (r: bool)
        ensures
            r == (self.members@.len() == 0),
    {
        self.members.len() == 0
    }

    /// How many components are currently registered with this manager.
    pub fn member_count(&self) -> (r: usize)
        ensures
            r == self.members@.len(),
    {
        self.members.len()
    }

    /// How many times this manager's `init` hook has run.
    pub fn init_calls(&self) -> (r: u64)
        ensures
            r == self.init_calls,
    {
        self.init_calls
    }

    /// How many times this manager's `update` hook has run.
    pub fn update_calls(&self) -> (r: u64)
        ensures
            r == self.update_calls,
    {
        self.update_calls
    }
}

} // verus!
