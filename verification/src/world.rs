//! The arena that owns every entity and every scene, and the global
//! well-formedness predicate that all mutating operations preserve.

use vstd::prelude::*;
use crate::ancestry::{children_ok, parent_ok, wf_tree};
use crate::component::Component;
use crate::entity::Entity;
use crate::id::Id;
use crate::scene::Scene;

verus! {

/// The error of a structural violation that would corrupt the graph's
/// invariants: parenting an entity to itself or to one of its own
/// descendants.  Missing-entry operations are silent no-ops instead.
#[derive(Clone, Copy, PartialEq, Eq, Structural, Debug)]
pub enum GraphError {
    /// The requested mutation would make an entity its own ancestor.
    InvalidOperation,
}

/// The set of (entity index, component type) pairs that a manager of type
/// `mt` in scene `j` must aggregate: the components whose manager type is
/// `mt`, attached to entities that are members of `j`.
pub open spec fn mgr_pairs<P>(es: Seq<Entity<P>>, j: usize, mt: Id) -> Set<(usize, Id)> {
    Set::new(
        |pr: (usize, Id)|
            pr.0 < es.len() && es[pr.0 as int].scene == Some(j)
                && es[pr.0 as int].has_component_with_manager(pr.1, mt),
    )
}

/// The arena: entities and scenes live in slot arrays and refer to each
/// other by plain index.
pub struct World<P> {
    /// All entities ever created, in creation order.
    pub entities: Vec<Entity<P>>,
    /// All scenes ever created, in creation order.
    pub scenes: Vec<Scene>,
}

impl<P> World<P> {
    /// The entities as a sequence, for specification.
    pub open spec fn es(self) -> Seq<Entity<P>> {
        self.entities@
    }

    /// `e` is a valid entity index.
    pub open spec fn valid_entity(self, e: int) -> bool {
        0 <= e < self.es().len()
    }

    /// `j` is a valid scene index.
    pub open spec fn valid_scene(self, j: int) -> bool {
        0 <= j < self.scenes@.len()
    }

    /// Entity `e` is a member of scene `j`.
    pub open spec fn member_of(self, e: int, j: usize) -> bool {
        self.valid_entity(e) && self.es()[e].scene == Some(j)
    }

    /// Per-entity consistency apart from the tree links: the scene
    /// reference is valid, the component list holds at most one component
    /// per type, and each component points back at its owner.
    pub open spec fn entity_ok(self, i: int) -> bool {
        &&& match self.es()[i].scene {
            None => true,
            Some(s) => s < self.scenes@.len(),
        }
        &&& self.es()[i].components_distinct()
        &&& self.es()[i].components_owned_by(i as usize)
    }

    /// Scene membership is uniform along every parent/child edge.
    pub open spec fn scene_edge_ok(self, i: int) -> bool {
        match self.es()[i].parent {
            None => true,
            Some(p) => self.es()[i].scene == self.es()[p as int].scene,
        }
    }

    /// The root list of scene `j` holds parentless members of `j`, without
    /// duplicates.
    pub open spec fn roots_ok(self, j: int) -> bool {
        &&& self.scenes@[j].roots@.no_duplicates()
        &&& forall|k: int|
            0 <= k < self.scenes@[j].roots@.len() ==> (#[trigger] self.scenes@[j].roots@[k])
                < self.es().len() && self.es()[self.scenes@[j].roots@[k] as int].parent is None
                && self.es()[self.scenes@[j].roots@[k] as int].scene == Some(j as usize)
    }

    /// Every parentless member of scene `j` is listed as one of its roots.
    pub open spec fn root_coverage_ok(self, j: int) -> bool {
        forall|i: int|
            0 <= i < self.es().len() && (#[trigger] self.es()[i]).scene == Some(j as usize)
                && self.es()[i].parent is None ==> self.scenes@[j].roots@.contains(i as usize)
    }

    /// The manager at position `m` of scene `j` is installed there, is
    /// non-empty, and its member list is exactly the set of live components
    /// of its type inside `j`.
    pub open spec fn manager_ok(self, j: int, m: int) -> bool {
        &&& self.scenes@[j].managers@[m].scene == Some(j as usize)
        &&& self.scenes@[j].managers@[m].members@.no_duplicates()
        &&& self.scenes@[j].managers@[m].members@.to_set() == mgr_pairs(
            self.es(),
            j as usize,
            self.scenes@[j].managers@[m].type_id,
        )
        &&& self.scenes@[j].managers@[m].members@.len() > 0
    }

    /// Every component attached to a member of scene `j` has a manager of
    /// its manager type active in `j`.
    pub open spec fn manager_coverage_ok(self, j: int) -> bool {
        forall|i: int, k: int|
            0 <= i < self.es().len() && self.es()[i].scene == Some(j as usize) && 0 <= k
                < self.es()[i].components@.len() ==> self.scenes@[j].spec_has_manager(
                (#[trigger] self.es()[i].components@[k]).manager_type_id,
            )
    }

    /// Every plugin of scene `j` points back at `j`.
    pub open spec fn plugins_ok(self, j: int) -> bool {
        &&& self.scenes@[j].plugins_distinct()
        &&& forall|k: int|
            0 <= k < self.scenes@[j].plugins@.len() ==> (#[trigger] self.scenes@[j].plugins@[k]).scene
                == Some(j as usize)
    }

    /// Full consistency of scene `j`.
    pub open spec fn scene_ok(self, j: int) -> bool {
        &&& self.roots_ok(j)
        &&& self.root_coverage_ok(j)
        &&& self.scenes@[j].managers_distinct()
        &&& forall|m: int| 0 <= m < self.scenes@[j].managers@.len() ==> #[trigger] self.manager_ok(j, m)
        &&& self.manager_coverage_ok(j)
        &&& self.plugins_ok(j)
    }

    /// The global invariant: a consistent forest, consistent entities,
    /// uniform scene membership along edges, and every scene's root list
    /// and manager population synchronized with the entities.
    pub open spec fn wf(self) -> bool {
        &&& wf_tree(self.es())
        &&& forall|i: int| 0 <= i < self.es().len() ==> #[trigger] self.entity_ok(i)
        &&& forall|i: int| 0 <= i < self.es().len() ==> #[trigger] self.scene_edge_ok(i)
        &&& forall|j: int| 0 <= j < self.scenes@.len() ==> #[trigger] self.scene_ok(j)
    }

    /// An empty arena.
    pub fn new() -> (r: World<P>)
        ensures
            r.wf(),
            r.es().len() == 0,
            r.scenes@.len() == 0,
    {
        World { entities: Vec::new(), scenes: Vec::new() }
    }

    /// Entity `e` is fresh: parentless, sceneless, componentless, at depth
    /// zero.
    pub open spec fn entity_fresh(self, e: int) -> bool {
        &&& self.es()[e].depth == 0
        &&& self.es()[e].parent is None
        &&& self.es()[e].children@.len() == 0
        &&& self.es()[e].scene is None
        &&& self.es()[e].components@.len() == 0
    }

    /// Scene `j` is fresh: uninitialized, at tick zero, with no roots,
    /// managers or plugins.
    pub open spec fn scene_fresh(self, j: int) -> bool {
        &&& !self.scenes@[j].initted
        &&& self.scenes@[j].ticks == 0
        &&& self.scenes@[j].roots@.len() == 0
        &&& self.scenes@[j].managers@.len() == 0
        &&& self.scenes@[j].plugins@.len() == 0
    }

    /// Creates a fresh entity — parentless, sceneless, componentless — and
    /// returns its index.
    pub fn new_entity(&mut self) -> (e: usize)
        requires
            old(self).wf(),
        ensures
            final(self).wf(),
            e == old(self).es().len(),
            final(self).es().len() == old(self).es().len() + 1,
            forall|i: int|
                0 <= i < old(self).es().len() ==> final(self).es()[i] == old(self).es()[i],
            final(self).entity_fresh(e as int),
            final(self).scenes == old(self).scenes,
    {
        let e = self.entities.len();
        self.entities.push(Entity::new());
        proof {
            lemma_wf_push_entity(*old(self), *self);
        }
        e
    }

    /// Creates a fresh scene and returns its index.
    pub fn new_scene(&mut self) -> (j: usize)
        requires
            old(self).wf(),
        ensures
            final(self).wf(),
            j == old(self).scenes@.len(),
            final(self).entities == old(self).entities,
            final(self).scenes@.len() == old(self).scenes@.len() + 1,
            forall|i: int|
                0 <= i < old(self).scenes@.len() ==> final(self).scenes@[i] == old(
                    self,
                ).scenes@[i],
            final(self).scene_fresh(j as int),
    {
        let j = self.scenes.len();
        self.scenes.push(Scene::new());
        proof {
            lemma_wf_push_scene(*old(self), *self);
        }
        j
    }

    /// The cached depth of entity `e`: its distance from the root of its
    /// tree.
    pub fn depth(&self, e: usize) -> (r: usize)
        requires
            self.valid_entity(e as int),
        ensures
            r == self.es()[e as int].depth,
    {
        self.entities[e].depth
    }

    /// The parent of entity `e`, `None` iff `e` is a root of its tree.
    pub fn parent(&self, e: usize) -> (r: Option<usize>)
        requires
            self.valid_entity(e as int),
        ensures
            r == self.es()[e as int].parent,
    {
        self.entities[e].parent
    }

    /// The scene entity `e` is a member of, if any.
    pub fn scene(&self, e: usize) -> (r: Option<usize>)
        requires
            self.valid_entity(e as int),
        ensures
            r == self.es()[e as int].scene,
    {
        self.entities[e].scene
    }

    /// The children of entity `e`, in insertion order.
    pub fn children(&self, e: usize) -> (r: &Vec<usize>)
        requires
            self.valid_entity(e as int),
        ensures
            r@ == self.es()[e as int].children@,
    {
        &self.entities[e].children
    }
}

/// The manager member sets depend only on the scene and component fields of
/// the entities: mutations that keep both leave them unchanged.
pub proof fn lemma_mgr_pairs_frame<P>(es0: Seq<Entity<P>>, es: Seq<Entity<P>>)
    requires
        es.len() == es0.len(),
        forall|i: int|
            0 <= i < es0.len() ==> es[i].scene == es0[i].scene && es[i].components
                == es0[i].components,
    ensures
        forall|j: usize, mt: Id| #[trigger] mgr_pairs(es, j, mt) == mgr_pairs(es0, j, mt),
{
    assert forall|j: usize, mt: Id| #[trigger] mgr_pairs(es, j, mt) == mgr_pairs(es0, j, mt) by {
        assert forall|pr: (usize, Id)|
            mgr_pairs(es, j, mt).contains(pr) == mgr_pairs(es0, j, mt).contains(pr) by {
            if pr.0 < es0.len() {
                let i = pr.0 as int;
                assert(es[i].components@ == es0[i].components@);
                if es0[i].has_component_with_manager(pr.1, mt) {
                    let k = choose|k: int|
                        0 <= k < es0[i].components@.len() && es0[i].components@[k].type_id == pr.1
                            && es0[i].components@[k].manager_type_id == mt;
                    assert(es[i].components@[k].type_id == pr.1);
                    assert(es[i].components@[k].manager_type_id == mt);
                    assert(es[i].has_component_with_manager(pr.1, mt));
                }
                if es[i].has_component_with_manager(pr.1, mt) {
                    let k = choose|k: int|
                        0 <= k < es[i].components@.len() && es[i].components@[k].type_id == pr.1
                            && es[i].components@[k].manager_type_id == mt;
                    assert(es0[i].components@[k].type_id == pr.1);
                    assert(es0[i].components@[k].manager_type_id == mt);
                    assert(es0[i].has_component_with_manager(pr.1, mt));
                }
            }
        }
        assert(mgr_pairs(es, j, mt) =~= mgr_pairs(es0, j, mt));
    }
}

/// A mutation that keeps every entity's scene and component fields and every
/// scene's manager and plugin lists keeps the manager population and the
/// plugins consistent.
pub proof fn lemma_scene_sync_frame<P>(w0: World<P>, w: World<P>)
    requires
        w0.wf(),
        w.es().len() == w0.es().len(),
        forall|i: int|
            0 <= i < w0.es().len() ==> w.es()[i].scene == w0.es()[i].scene && w.es()[i].components
                == w0.es()[i].components,
        w.scenes@.len() == w0.scenes@.len(),
        forall|j: int|
            0 <= j < w0.scenes@.len() ==> w.scenes@[j].managers == w0.scenes@[j].managers
                && w.scenes@[j].plugins == w0.scenes@[j].plugins,
    ensures
        forall|j: int| 0 <= j < w.scenes@.len() ==> (#[trigger] w.scenes@[j]).managers_distinct(),
        forall|j: int| 0 <= j < w.scenes@.len() ==> #[trigger] w.manager_coverage_ok(j),
        forall|j: int| 0 <= j < w.scenes@.len() ==> #[trigger] w.plugins_ok(j),
        forall|j: int, m: int|
            0 <= j < w.scenes@.len() && 0 <= m < w.scenes@[j].managers@.len()
                ==> #[trigger] w.manager_ok(j, m),
{
    lemma_mgr_pairs_frame(w0.es(), w.es());
    assert forall|j: int| 0 <= j < w.scenes@.len() implies (
    #[trigger] w.scenes@[j]).managers_distinct() by {
        assert(w0.scene_ok(j));
        assert(w.scenes@[j].managers@ == w0.scenes@[j].managers@);
    }
    assert forall|j: int| 0 <= j < w.scenes@.len() implies #[trigger] w.plugins_ok(j) by {
        assert(w0.scene_ok(j));
        assert(w.scenes@[j].plugins@ == w0.scenes@[j].plugins@);
    }
    assert forall|j: int, m: int|
        0 <= j < w.scenes@.len() && 0 <= m
            < w.scenes@[j].managers@.len() implies #[trigger] w.manager_ok(j, m) by {
        assert(w0.scene_ok(j));
        assert(w.scenes@[j].managers@ == w0.scenes@[j].managers@);
        assert(w0.manager_ok(j, m));
        assert(w.scenes@[j].managers@[m] == w0.scenes@[j].managers@[m]);
    }
    assert forall|j: int| 0 <= j < w.scenes@.len() implies #[trigger] w.manager_coverage_ok(j) by {
        assert(w0.scene_ok(j));
        assert(w.scenes@[j].managers@ == w0.scenes@[j].managers@);
        assert forall|i: int, k: int|
            0 <= i < w.es().len() && w.es()[i].scene == Some(j as usize) && 0 <= k
                < w.es()[i].components@.len() implies w.scenes@[j].spec_has_manager(
            (#[trigger] w.es()[i].components@[k]).manager_type_id,
        ) by {
            assert(w.es()[i].components@ == w0.es()[i].components@);
            assert(w0.es()[i].components@[k].manager_type_id
                == w.es()[i].components@[k].manager_type_id);
            let mt = w.es()[i].components@[k].manager_type_id;
            assert(w0.scenes@[j].spec_has_manager(mt));
            let m = choose|m: int|
                0 <= m < w0.scenes@[j].managers@.len() && w0.scenes@[j].managers@[m].type_id == mt;
            assert(w.scenes@[j].managers@[m].type_id == mt);
        }
    }
}

/// Appending a fresh entity preserves the global invariant.
pub proof fn lemma_wf_push_entity<P>(w1: World<P>, w2: World<P>)
    requires
        w1.wf(),
        w2.es().len() == w1.es().len() + 1,
        forall|i: int| 0 <= i < w1.es().len() ==> w2.es()[i] == w1.es()[i],
        w2.entity_fresh(w1.es().len() as int),
        w2.scenes == w1.scenes,
    ensures
        w2.wf(),
{
    let n = w1.es().len() as int;
    assert forall|i: int| 0 <= i < w2.es().len() implies #[trigger] parent_ok(w2.es(), i) by {
        if i < n {
            assert(parent_ok(w1.es(), i));
            assert(w2.es()[i] == w1.es()[i]);
        } else {
            assert(w2.entity_fresh(i));
        }
    }
    assert forall|i: int| 0 <= i < w2.es().len() implies #[trigger] children_ok(w2.es(), i) by {
        if i >= n {
            assert(w2.entity_fresh(i));
        }
        if i < n {
            assert(children_ok(w1.es(), i));
            assert(w2.es()[i] == w1.es()[i]);
            assert forall|k: int| 0 <= k < w2.es()[i].children@.len() implies (
            #[trigger] w2.es()[i].children@[k]) < w2.es().len() && w2.es()[i].children@[k] != i
                && w2.es()[w2.es()[i].children@[k] as int].parent == Some(i as usize) by {
                assert(w1.es()[i].children@[k] < w1.es().len());
            }
        }
    }
    assert forall|i: int| 0 <= i < w2.es().len() implies #[trigger] w2.entity_ok(i) by {
        if i < n {
            assert(w1.entity_ok(i));
            assert(w2.es()[i] == w1.es()[i]);
        } else {
            assert(w2.entity_fresh(i));
        }
    }
    assert forall|i: int| 0 <= i < w2.es().len() implies #[trigger] w2.scene_edge_ok(i) by {
        if i < n {
            assert(w1.scene_edge_ok(i));
            assert(parent_ok(w1.es(), i));
            assert(w2.es()[i] == w1.es()[i]);
            match w1.es()[i].parent {
                None => {},
                Some(p) => {
                    assert(w2.es()[p as int] == w1.es()[p as int]);
                },
            }
        } else {
            assert(w2.entity_fresh(i));
            assert(w2.es()[i].parent is None);
        }
    }
    assert forall|j: int| 0 <= j < w2.scenes@.len() implies #[trigger] w2.scene_ok(j) by {
        assert(w1.scene_ok(j));
        assert forall|k: int| 0 <= k < w2.scenes@[j].roots@.len() implies (
        #[trigger] w2.scenes@[j].roots@[k]) < w2.es().len()
            && w2.es()[w2.scenes@[j].roots@[k] as int].parent is None
            && w2.es()[w2.scenes@[j].roots@[k] as int].scene == Some(j as usize) by {
            assert(w1.scenes@[j].roots@[k] < w1.es().len());
        }
        assert forall|m: int| 0 <= m < w2.scenes@[j].managers@.len() implies #[trigger] w2.manager_ok(
            j,
            m,
        ) by {
            assert(w1.manager_ok(j, m));
            let mt = w2.scenes@[j].managers@[m].type_id;
            assert(mgr_pairs(w2.es(), j as usize, mt) =~= mgr_pairs(w1.es(), j as usize, mt));
        }
        assert forall|i: int, k: int|
            0 <= i < w2.es().len() && w2.es()[i].scene == Some(j as usize) && 0 <= k
                < w2.es()[i].components@.len() implies w2.scenes@[j].spec_has_manager(
            (#[trigger] w2.es()[i].components@[k]).manager_type_id,
        ) by {
            assert(i < n);
            assert(w1.es()[i].components@[k].manager_type_id
                == w2.es()[i].components@[k].manager_type_id);
        }
    }
}

/// Appending a fresh scene preserves the global invariant.
pub proof fn lemma_wf_push_scene<P>(w1: World<P>, w2: World<P>)
    requires
        w1.wf(),
        w2.entities == w1.entities,
        w2.scenes@.len() == w1.scenes@.len() + 1,
        forall|i: int| 0 <= i < w1.scenes@.len() ==> w2.scenes@[i] == w1.scenes@[i],
        w2.scene_fresh(w1.scenes@.len() as int),
    ensures
        w2.wf(),
{
    let n = w1.scenes@.len() as int;
    vstd::std_specs::vec::axiom_spec_len(&w1.scenes);
    assert forall|i: int| 0 <= i < w2.es().len() implies #[trigger] w2.entity_ok(i) by {
        assert(w1.entity_ok(i));
    }
    assert forall|i: int| 0 <= i < w2.es().len() implies #[trigger] w2.scene_edge_ok(i) by {
        assert(w1.scene_edge_ok(i));
    }
    assert forall|j: int| 0 <= j < w2.scenes@.len() implies #[trigger] w2.scene_ok(j) by {
        if j < n {
            assert(w1.scene_ok(j));
            assert(w2.scenes@[j] == w1.scenes@[j]);
            assert forall|m: int| 0 <= m < w2.scenes@[j].managers@.len() implies
                #[trigger] w2.manager_ok(j, m) by {
                assert(w1.manager_ok(j, m));
            }
        } else {
            assert(w2.scene_fresh(j));
            assert forall|i: int|
                0 <= i < w2.es().len() implies (#[trigger] w2.es()[i]).scene != Some(
                j as usize,
            ) by {
                assert(w1.entity_ok(i));
            }
            assert(w2.root_coverage_ok(j));
            assert(w2.manager_coverage_ok(j));
        }
    }
}

} // verus!
