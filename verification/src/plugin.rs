//! Order-scheduled hooks that wrap a scene tick.

use vstd::prelude::*;
use crate::id::Id;

verus! {

/// A plugin is registered against a scene much like a component manager, but
/// its callbacks wrap the whole tick instead of processing one component
/// type: `init` runs once when the scene initializes (or when the plugin
/// joins an already-initialized scene), `before` and `after` run around every
/// tick.  The callbacks are modelled by counters.
pub struct Plugin {
    /// Identity of the plugin.
    pub id: Id,
    /// Scheduling priority, ascending.
    pub order: usize,
    /// Back-reference to the owning scene; set on registration.
    pub scene: Option<usize>,
    /// How many times the `init` hook has run.
    pub init_calls: u64,
    /// How many times the `before` hook has run.
    pub before_calls: u64,
    /// How many times the `after` hook has run.
    pub after_calls: u64,
}

impl Plugin {
    /// A fresh, unregistered plugin.
    pub fn new(id: Id, order: usize) -> (r: Plugin)
        ensures
            r.id == id,
            r.order == order,
            r.scene is None,
            r.init_calls == 0,
            r.before_calls == 0,
            r.after_calls == 0,
    {
        Plugin { id, order, scene: None, init_calls: 0, before_calls: 0, after_calls: 0 }
    }

    /// Identity of this plugin.
    pub fn get_id(&self) -> (r: Id)
        ensures
            r == self.id,
    {
        self.id
    }

    /// Scheduling priority of this plugin.
    pub fn get_order(&self) -> (r: usize)
        ensures
            r == self.order,
    {
        self.order
    }

    /// The owning scene, if registered.
    pub fn get_scene(&self) -> (r: Option<usize>)
        ensures
            r == self.scene,
    {
        self.scene
    }
}

} // verus!
