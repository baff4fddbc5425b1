//! The per-scene registry: top-level roots, active component managers,
//! registered plugins, and the tick lifecycle state.

use vstd::prelude::*;
use crate::component_manager::ComponentManager;
use crate::id::Id;
use crate::plugin::Plugin;

verus! {

/// A scene owns the parentless entities explicitly added to it (descendants
/// are reachable only through their parent), the managers created for the
/// component types live inside it, and its plugins.  `initted` is monotonic
/// (false to true via `init`), reset only by a full `clear`; `ticks` counts
/// the completed `update` calls and stands for the external clock
/// collaborator, which is advanced exactly once per tick.
pub struct Scene {
    /// Whether `init` has run; one-way until `clear`.
    pub initted: bool,
    /// How many ticks have completed; the clock collaborator's counter.
    pub ticks: u64,
    /// Arena indices of the parentless entities added to this scene.
    pub roots: Vec<usize>,
    /// The active component managers, at most one per manager type.
    pub managers: Vec<ComponentManager>,
    /// The registered plugins, at most one per identity.
    pub plugins: Vec<Plugin>,
}

impl Scene {
    /// A fresh, uninitialized, empty scene.
    pub fn new() -> (r: Scene)
        ensures
            !r.initted,
            r.ticks == 0,
            r.roots@.len() == 0,
            r.managers@.len() == 0,
            r.plugins@.len() == 0,
    {
        Scene {
            initted: false,
            ticks: 0,
            roots: Vec::new(),
            managers: Vec::new(),
            plugins: Vec::new(),
        }
    }

    /// True iff a manager with type identity `mt` is active.
    pub open spec fn spec_has_manager(self, mt: Id) -> bool {
        exists|k: int| 0 <= k < self.managers@.len() && self.managers@[k].type_id == mt
    }

    /// The position of the manager with type identity `mt`.
    pub open spec fn manager_index(self, mt: Id) -> int {
        choose|k: int| 0 <= k < self.managers@.len() && self.managers@[k].type_id == mt
    }

    /// At most one manager per manager type.
    pub open spec fn managers_distinct(self) -> bool {
        forall|k1: int, k2: int|
            0 <= k1 < k2 < self.managers@.len() ==> self.managers@[k1].type_id
                != self.managers@[k2].type_id
    }

    /// True iff a plugin with identity `id` is registered.
    pub open spec fn spec_has_plugin(self, id: Id) -> bool {
        exists|k: int| 0 <= k < self.plugins@.len() && self.plugins@[k].id == id
    }

    /// The position of the plugin with identity `id`.
    pub open spec fn plugin_index(self, id: Id) -> int {
        choose|k: int| 0 <= k < self.plugins@.len() && self.plugins@[k].id == id
    }

    /// At most one plugin per identity.
    pub open spec fn plugins_distinct(self) -> bool {
        forall|k1: int, k2: int|
            0 <= k1 < k2 < self.plugins@.len() ==> self.plugins@[k1].id != self.plugins@[k2].id
    }

    /// Finds the position of the manager with type identity `mt`.
    pub fn find_manager(&self, mt: Id) -> (r: Option<usize>)
        ensures
            match r {
                Some(k) => k < self.managers@.len() && self.managers@[k as int].type_id == mt,
                None => !self.spec_has_manager(mt),
            },
    {
        let n = self.managers.len();
        let mut k: usize = 0;
        while k < n
            invariant
                k <= n,
                n == self.managers@.len(),
                forall|j: int| 0 <= j < k ==> self.managers@[j].type_id != mt,
            decreases n - k,
        {
            if self.managers[k].type_id == mt {
                return Some(k);
            }
            k = k + 1;
        }
        None
    }

    /// Whether `init` has run on this scene.
    pub fn initted(&self) -> (r: bool)
        ensures
            r == self.initted,
    {
        self.initted
    }

    /// How many ticks have completed.
    pub fn ticks(&self) -> (r: u64)
        ensures
            r == self.ticks,
    {
        self.ticks
    }
}

} // verus!
