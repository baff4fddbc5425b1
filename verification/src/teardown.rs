//! Bulk teardown: resetting a whole scene, and resetting a single entity.

use vstd::prelude::*;
use crate::ancestry::{chain, in_subtree, lemma_chain_props, lemma_childless_subtree,
    lemma_in_own_subtree, lemma_subtree_same_scene};
use crate::id::Id;
use crate::world::World;

verus! {

impl<P> World<P> {
    /// Resets scene `s` fully back to uninitialized: every member entity is
    /// removed from the scene (all components deregistered, all managers
    /// destroyed), the root, manager and plugin lists are emptied, and the
    /// tick count and the initialization flag are cleared.  The parent/child
    /// structure of the entities and their components survive.
    pub fn clear(&mut self, s: usize)
        requires
            old(self).wf(),
            old(self).valid_scene(s as int),
        ensures
            final(self).wf(),
            final(self).es().len() == old(self).es().len(),
            final(self).scenes@.len() == old(self).scenes@.len(),
            forall|i: int|
                0 <= i < old(self).es().len() ==> final(self).es()[i].parent == old(
                    self,
                ).es()[i].parent && final(self).es()[i].depth == old(self).es()[i].depth && final(self).es()[i].children == old(self).es()[i].children && final(self).es()[i].components
                    == old(self).es()[i].components,
            forall|i: int|
                0 <= i < old(self).es().len() ==> final(self).es()[i].scene == if old(
                    self,
                ).es()[i].scene == Some(s) {
                    None
                } else {
                    old(self).es()[i].scene
                },
            forall|j: int|
                0 <= j < old(self).scenes@.len() && j != s ==> final(self).scenes@[j] == old(
                    self,
                ).scenes@[j],
            final(self).scene_fresh(s as int),
    {
        let ghost w0 = *self;
        while self.scenes[s].roots.len() > 0
            invariant
                self.wf(),
                (s as int) < w0.scenes@.len(),
                self.es().len() == w0.es().len(),
                self.scenes@.len() == w0.scenes@.len(),
                forall|i: int|
                    0 <= i < w0.es().len() ==> self.es()[i].parent == w0.es()[i].parent
                        && self.es()[i].depth == w0.es()[i].depth && self.es()[i].children
                        == w0.es()[i].children && self.es()[i].components == w0.es()[i].components,
                forall|i: int|
                    0 <= i < w0.es().len() ==> self.es()[i].scene == w0.es()[i].scene
                        || (w0.es()[i].scene == Some(s) && self.es()[i].scene is None),
                forall|j: int|
                    0 <= j < w0.scenes@.len() && j != s ==> self.scenes@[j] == w0.scenes@[j],
                self.scenes@[s as int].initted == w0.scenes@[s as int].initted,
                self.scenes@[s as int].ticks == w0.scenes@[s as int].ticks,
                self.scenes@[s as int].plugins == w0.scenes@[s as int].plugins,
            decreases self.scenes@[s as int].roots@.len(),
        {
            let r = self.scenes[s].roots[0];
            let ghost pre = *self;
            proof {
                assert(pre.wf());
                assert(pre.scene_ok(s as int));
                assert(pre.roots_ok(s as int));
                assert(pre.scenes@[s as int].roots@[0] < pre.es().len());
                assert(pre.es()[r as int].parent is None);
                assert(pre.es()[r as int].scene == Some(s));
            }
            self.remove_root_from_scene(r);
            proof {
                // the first root was removed, so the root list shrank
                assert(pre.scenes@[s as int].roots@.contains(r));
                pre.scenes@[s as int].roots@.index_of_first_ensures(r);
                let ri = pre.scenes@[s as int].roots@.index_of_first(r).unwrap();
                assert(self.scenes@[s as int].roots@ == pre.scenes@[s as int].roots@.remove(ri));
                // membership only shrank, and only inside scene `s`
                assert forall|i: int|
                    0 <= i < w0.es().len() implies self.es()[i].scene == w0.es()[i].scene || (
                w0.es()[i].scene == Some(s) && self.es()[i].scene is None) by {
                    if in_subtree(pre.es(), i, r as int) {
                        lemma_subtree_same_scene(pre, i, r as int);
                    }
                }
            }
        }
        proof {
            assert(self.scene_ok(s as int));
            // with no roots left the scene has no members and hence no managers
            assert forall|i: int|
                0 <= i < self.es().len() implies (#[trigger] self.es()[i]).scene != Some(s) by {
                assert(self.scene_ok(s as int));
                if self.es()[i].scene == Some(s) {
                    crate::ancestry::lemma_chain_props(self.es(), i);
                    let c = chain(self.es(), i)[0];
                    assert(chain(self.es(), i).contains(c)) by {
                        assert(chain(self.es(), i)[0] == c);
                    }
                    assert(in_subtree(self.es(), i, c));
                    lemma_subtree_same_scene(*self, i, c);
                    assert(self.es()[c].scene == Some(s));
                    assert(self.root_coverage_ok(s as int));
                    assert(self.scenes@[s as int].roots@.contains(c as usize));
                }
            }
            assert(self.scenes@[s as int].managers@.len() == 0) by {
                if self.scenes@[s as int].managers@.len() > 0 {
                    assert(self.manager_ok(s as int, 0));
                    let mgr = self.scenes@[s as int].managers@[0];
                    assert(mgr.members@.len() > 0);
                    assert(mgr.members@.contains(mgr.members@[0]));
                    assert(mgr.members@.to_set().contains(mgr.members@[0]));
                    assert(crate::world::mgr_pairs(self.es(), s, mgr.type_id).contains(
                        mgr.members@[0],
                    ));
                    let pr = mgr.members@[0];
                    assert(self.es()[pr.0 as int].scene == Some(s));
                }
            }
        }
        let ghost wx = *self;
        self.scenes[s].plugins = Vec::new();
        self.scenes[s].initted = false;
        self.scenes[s].ticks = 0;
        proof {
            lemma_scene_reset_wf(wx, *self, s);
        }
    }
}

/// Emptying the plugin list and resetting the lifecycle flags of a scene
/// with no members, no roots and no managers preserves the global invariant.
proof fn lemma_scene_reset_wf<P>(w0: World<P>, w: World<P>, s: usize)
    requires
        w0.wf(),
        (s as int) < w0.scenes@.len(),
        w.entities == w0.entities,
        w.scenes@.len() == w0.scenes@.len(),
        forall|j: int| 0 <= j < w0.scenes@.len() && j != s ==> w.scenes@[j] == w0.scenes@[j],
        w.scenes@[s as int].roots == w0.scenes@[s as int].roots,
        w.scenes@[s as int].managers == w0.scenes@[s as int].managers,
        w.scenes@[s as int].plugins@.len() == 0,
    ensures
        w.wf(),
{
    assert forall|k: int| 0 <= k < w.scenes@[s as int].plugins@.len() implies (
    #[trigger] w.scenes@[s as int].plugins@[k]).scene == Some(s) by {}
    assert(w.scenes@[s as int].plugins_distinct());
    crate::lifecycle::lemma_plugins_only_wf(w0, w, s);
}

impl<P> World<P> {
    /// Resets entity `e` to a fresh state: it is detached from its parent,
    /// each of its children becomes the root of its own tree (keeping its
    /// scene membership), `e` leaves its scene, and all of its components
    /// are removed (deregistered from their managers first).
    pub fn clear_entity(&mut self, e: usize)
        requires
            old(self).wf(),
            old(self).valid_entity(e as int),
        ensures
            final(self).wf(),
            final(self).es().len() == old(self).es().len(),
            final(self).scenes@.len() == old(self).scenes@.len(),
            final(self).entity_fresh(e as int),
            forall|i: int|
                0 <= i < old(self).es().len() && i != e ==> final(self).es()[i].scene == old(
                    self,
                ).es()[i].scene && final(self).es()[i].components == old(self).es()[i].components,
            forall|i: int|
                0 <= i < old(self).es().len() && i != e && old(self).es()[i].parent != Some(e)
                    ==> final(self).es()[i].parent == old(self).es()[i].parent,
            forall|i: int|
                0 <= i < old(self).es().len() && old(self).es()[i].parent == Some(e) ==> final(self).es()[i].parent is None,
            forall|j: int|
                0 <= j < old(self).scenes@.len() ==> final(self).scenes@[j].initted == old(
                    self,
                ).scenes@[j].initted && final(self).scenes@[j].ticks == old(self).scenes@[j].ticks
                    && final(self).scenes@[j].plugins == old(self).scenes@[j].plugins,
    {
        let ghost w0 = *self;
        self.detach(e);
        let ghost w1 = *self;
        proof {
            assert(crate::ancestry::parent_ok(w0.es(), e as int));
        }
        while self.entities[e].children.len() > 0
            invariant
                self.wf(),
                w0.wf(),
                e < w0.es().len(),
                self.es().len() == w0.es().len(),
                self.scenes@.len() == w0.scenes@.len(),
                self.es()[e as int].parent is None,
                self.es()[e as int].depth == 0,
                forall|i: int|
                    0 <= i < w0.es().len() && i != e ==> self.es()[i].scene == w0.es()[i].scene,
                self.es()[e as int].scene == w0.es()[e as int].scene,
                forall|i: int|
                    0 <= i < w0.es().len() ==> self.es()[i].components == w0.es()[i].components,
                forall|i: int|
                    0 <= i < w0.es().len() && i != e && w0.es()[i].parent != Some(e) && Some(
                        i as usize,
                    ) != w0.es()[e as int].parent ==> self.es()[i].parent == w0.es()[i].parent
                        && self.es()[i].children == w0.es()[i].children,
                match w0.es()[e as int].parent {
                    None => true,
                    Some(p0) => self.es()[p0 as int].parent == w0.es()[p0 as int].parent,
                },
                forall|i: int|
                    0 <= i < w0.es().len() && w0.es()[i].parent == Some(e) ==> self.es()[i].parent
                        == Some(e) || self.es()[i].parent is None,
                forall|i: int|
                    0 <= i < w0.es().len() && i != e && self.es()[i].parent == Some(e)
                        ==> w0.es()[i].parent == Some(e),
                forall|j: int|
                    0 <= j < w0.scenes@.len() ==> self.scenes@[j].initted == w0.scenes@[j].initted
                        && self.scenes@[j].ticks == w0.scenes@[j].ticks && self.scenes@[j].plugins
                        == w0.scenes@[j].plugins && self.scenes@[j].managers
                        == w0.scenes@[j].managers,
            decreases self.es()[e as int].children@.len(),
        {
            let c = self.entities[e].children[0];
            let ghost pre = *self;
            proof {
                assert(crate::ancestry::children_ok(pre.es(), e as int));
                assert(pre.es()[e as int].children@[0] == c);
                assert(c < pre.es().len());
                assert(pre.es()[c as int].parent == Some(e));
                // the old parent of `e` is not a child of `e`
                match w0.es()[e as int].parent {
                    None => {},
                    Some(p0) => {
                        assert(crate::ancestry::parent_ok(w0.es(), e as int));
                        if c == p0 {
                            assert(pre.es()[p0 as int].parent == w0.es()[p0 as int].parent);
                            assert(crate::ancestry::parent_ok(pre.es(), c as int));
                            assert(pre.es()[c as int].depth == pre.es()[e as int].depth + 1);
                            assert(crate::ancestry::parent_ok(w0.es(), p0 as int));
                            assert(w0.es()[p0 as int].parent == Some(e));
                            assert(pre.es()[c as int].parent == Some(e));
                        }
                    },
                }
            }
            self.detach(c);
            proof {
                let idx = choose|idx: int| pre.detach_rel(*self, c as int, e as int, idx);
                assert(pre.es()[e as int].children@[idx] == c);
                assert(self.es()[e as int].children@ == pre.es()[e as int].children@.remove(idx));
            }
        }
        proof {
            // with no children left, nothing points at `e` any more
            assert forall|i: int|
                0 <= i < w0.es().len() && w0.es()[i].parent == Some(e) implies self.es()[i].parent
                is None by {
                if self.es()[i].parent == Some(e) {
                    assert(crate::ancestry::parent_ok(self.es(), i));
                    assert(self.es()[e as int].children@.contains(i as usize));
                }
            }
        }
        let ghost w2 = *self;
        proof {
            assert forall|i: int|
                0 <= i < w0.es().len() && i != e && w0.es()[i].parent != Some(e) implies w2.es()[i].parent
                == w0.es()[i].parent by {
                vstd::std_specs::vec::axiom_spec_len(&w0.entities);
                match w0.es()[e as int].parent {
                    None => {},
                    Some(p0) => {
                        if i == p0 as int {
                        }
                    },
                }
            }
        }
        let s_opt = self.entities[e].scene;
        match s_opt {
            Some(_) => {
                proof {
                    lemma_in_own_subtree(w2.es(), e as int);
                }
                self.remove_root_from_scene(e);
                proof {
                    assert forall|i: int|
                        0 <= i < w0.es().len() && i != e implies self.es()[i].scene
                        == w2.es()[i].scene by {
                        if in_subtree(w2.es(), i, e as int) {
                            vstd::std_specs::vec::axiom_spec_len(&w2.entities);
                            assert(w2.es().len() <= usize::MAX);
                            lemma_childless_subtree(w2.es(), e as int, i);
                        }
                    }
                }
            },
            None => {},
        }
        let ghost w3 = *self;
        proof {
            assert forall|i: int|
                0 <= i < w0.es().len() && i != e && w0.es()[i].parent != Some(e) implies w3.es()[i].parent
                == w0.es()[i].parent by {
                vstd::std_specs::vec::axiom_spec_len(&w0.entities);
                assert(w3.es()[i].parent == w2.es()[i].parent);
                match w0.es()[e as int].parent {
                    None => {},
                    Some(p0) => {
                        if i == p0 as int {
                            assert(w2.es()[p0 as int].parent == w0.es()[p0 as int].parent);
                        }
                    },
                }
            }
            assert forall|i: int|
                0 <= i < w0.es().len() && w0.es()[i].parent == Some(e) implies w3.es()[i].parent
                is None by {
                assert(w3.es()[i].parent == w2.es()[i].parent);
            }
        }
        while self.entities[e].components.len() > 0
            invariant
                self.wf(),
                e < w0.es().len(),
                self.es().len() == w0.es().len(),
                self.scenes@.len() == w0.scenes@.len(),
                self.es()[e as int].parent is None,
                self.es()[e as int].depth == 0,
                self.es()[e as int].children@.len() == 0,
                self.es()[e as int].scene is None,
                forall|i: int|
                    0 <= i < w0.es().len() && i != e ==> self.es()[i] == w3.es()[i],
                self.es()[e as int].parent == w3.es()[e as int].parent,
                self.es()[e as int].depth == w3.es()[e as int].depth,
                self.es()[e as int].children == w3.es()[e as int].children,
                self.scenes@.len() == w3.scenes@.len(),
                forall|j: int| 0 <= j < w3.scenes@.len() ==> self.scenes@[j] == w3.scenes@[j],
                w3.es().len() == w0.es().len(),
                forall|i: int|
                    0 <= i < w0.es().len() && i != e && w0.es()[i].parent != Some(e)
                        ==> w3.es()[i].parent == w0.es()[i].parent,
                forall|i: int|
                    0 <= i < w0.es().len() && w0.es()[i].parent == Some(e) ==> w3.es()[i].parent
                        is None,
                forall|i: int|
                    0 <= i < w0.es().len() && i != e ==> w3.es()[i].scene == w0.es()[i].scene
                        && w3.es()[i].components == w0.es()[i].components,
                forall|j: int|
                    0 <= j < w0.scenes@.len() ==> w3.scenes@[j].initted == w0.scenes@[j].initted
                        && w3.scenes@[j].ticks == w0.scenes@[j].ticks && w3.scenes@[j].plugins
                        == w0.scenes@[j].plugins,
            decreases self.es()[e as int].components@.len(),
        {
            let n = self.entities[e].components.len();
            let t = self.entities[e].components[n - 1].type_id;
            let ghost pre = *self;
            proof {
                assert(pre.es()[e as int].components@[n - 1].type_id == t);
                assert(pre.es()[e as int].spec_has_component(t));
            }
            let r = self.remove_component_by_type_id(e, t);
            proof {
                let k0 = pre.es()[e as int].component_index(t);
                assert(self.es()[e as int].components@
                    == pre.es()[e as int].components@.remove(k0));
            }
        }
        proof {
            assert forall|i: int|
                0 <= i < w0.es().len() && i != e && w0.es()[i].parent != Some(e) implies self.es()[i].parent
                == w0.es()[i].parent by {
                assert(self.es()[i] == w3.es()[i]);
            }
            assert forall|i: int|
                0 <= i < w0.es().len() && w0.es()[i].parent == Some(e) implies self.es()[i].parent
                is None by {
                assert(i != e) by {
                    if i == e {
                        assert(crate::ancestry::parent_ok(w0.es(), e as int));
                    }
                }
                assert(self.es()[i] == w3.es()[i]);
            }
            assert forall|i: int|
                0 <= i < w0.es().len() && i != e implies self.es()[i].scene == w0.es()[i].scene
                && self.es()[i].components == w0.es()[i].components by {
                assert(self.es()[i] == w3.es()[i]);
            }
        }
    }

    /// Replaces the payload of the component of type identity `t` on entity
    /// `e`, returning the previous payload; `None` — with the new payload
    /// discarded and nothing changed — if no such component is attached.
    pub fn set_payload(&mut self, e: usize, t: Id, payload: P) -> (r: Option<P>)
        requires
            old(self).wf(),
            old(self).valid_entity(e as int),
        ensures
            final(self).wf(),
            r is Some <==> old(self).es()[e as int].spec_has_component(t),
            r is None ==> *final(self) == *old(self),
            r matches Some(prev) ==> {
                let k0 = old(self).es()[e as int].component_index(t);
                &&& prev == old(self).es()[e as int].components@[k0].payload
                &&& final(self).scenes == old(self).scenes
                &&& final(self).es().len() == old(self).es().len()
                &&& (forall|i: int|
                    0 <= i < old(self).es().len() && i != e ==> final(self).es()[i] == old(
                        self,
                    ).es()[i])
                &&& final(self).es()[e as int].parent == old(self).es()[e as int].parent
                &&& final(self).es()[e as int].depth == old(self).es()[e as int].depth
                &&& final(self).es()[e as int].children == old(self).es()[e as int].children
                &&& final(self).es()[e as int].scene == old(self).es()[e as int].scene
                &&& final(self).es()[e as int].components@.len() == old(
                    self,
                ).es()[e as int].components@.len()
                &&& (forall|k: int|
                    0 <= k < old(self).es()[e as int].components@.len() && k != k0 ==> final(self).es()[e as int].components@[k] == old(self).es()[e as int].components@[k])
                &&& final(self).es()[e as int].components@[k0].payload == payload
                &&& final(self).es()[e as int].components@[k0].type_id == t
                &&& final(self).es()[e as int].components@[k0].manager_type_id == old(
                    self,
                ).es()[e as int].components@[k0].manager_type_id
                &&& final(self).es()[e as int].components@[k0].manager_order == old(
                    self,
                ).es()[e as int].components@[k0].manager_order
                &&& final(self).es()[e as int].components@[k0].entity == old(
                    self,
                ).es()[e as int].components@[k0].entity
            },
    {
        let ghost w0 = *self;
        let k = match self.entities[e].find_component(t) {
            None => {
                return None;
            },
            Some(k) => k,
        };
        proof {
            assert(w0.entity_ok(e as int));
            let k0 = w0.es()[e as int].component_index(t);
            assert(0 <= k0 < w0.es()[e as int].components@.len()
                && w0.es()[e as int].components@[k0].type_id == t);
            assert(k0 == k as int);
        }
        let mut comp = self.entities[e].components.remove(k);
        let mut newp = payload;
        core::mem::swap(&mut comp.payload, &mut newp);
        self.entities[e].components.insert(k, comp);
        proof {
            w0.es()[e as int].components@.remove_ensures(k as int);
            w0.es()[e as int].components@.remove(k as int).insert_ensures(k as int, comp);
            assert forall|k2: int|
                0 <= k2 < w0.es()[e as int].components@.len() && k2 != k implies self.es()[e as int].components@[k2]
                == w0.es()[e as int].components@[k2] by {
                if k2 < k {
                    assert(self.es()[e as int].components@[k2]
                        == w0.es()[e as int].components@.remove(k as int)[k2]);
                } else {
                    assert(self.es()[e as int].components@[k2]
                        == w0.es()[e as int].components@.remove(k as int)[k2 - 1]);
                }
            }
            lemma_same_shape_wf(w0, *self, e);
        }
        Some(newp)
    }
}

/// Replacing an entity's component list by one of the same length with the
/// same type identities, manager types and back-references preserves the
/// global invariant.
proof fn lemma_same_shape_wf<P>(w0: World<P>, w: World<P>, e: usize)
    requires
        w0.wf(),
        (e as int) < w0.es().len(),
        w.scenes == w0.scenes,
        w.es().len() == w0.es().len(),
        forall|i: int| 0 <= i < w0.es().len() && i != e ==> w.es()[i] == w0.es()[i],
        w.es()[e as int].parent == w0.es()[e as int].parent,
        w.es()[e as int].depth == w0.es()[e as int].depth,
        w.es()[e as int].children == w0.es()[e as int].children,
        w.es()[e as int].scene == w0.es()[e as int].scene,
        w.es()[e as int].components@.len() == w0.es()[e as int].components@.len(),
        forall|k: int|
            0 <= k < w0.es()[e as int].components@.len() ==> (
            #[trigger] w.es()[e as int].components@[k]).type_id
                == w0.es()[e as int].components@[k].type_id
                && w.es()[e as int].components@[k].manager_type_id
                == w0.es()[e as int].components@[k].manager_type_id
                && w.es()[e as int].components@[k].entity
                == w0.es()[e as int].components@[k].entity,
    ensures
        w.wf(),
{
    let es0 = w0.es();
    let es = w.es();
    vstd::std_specs::vec::axiom_spec_len(&w0.entities);
    vstd::std_specs::vec::axiom_spec_len(&w0.scenes);
    assert forall|i: int| 0 <= i < es.len() implies #[trigger] crate::ancestry::parent_ok(es, i) by {
        assert(crate::ancestry::parent_ok(es0, i));
        match es0[i].parent {
            None => {},
            Some(q) => {
                assert(es[q as int].depth == es0[q as int].depth);
                assert(es[q as int].children == es0[q as int].children);
            },
        }
    }
    assert forall|i: int| 0 <= i < es.len() implies #[trigger] crate::ancestry::children_ok(es, i)
        by {
        assert(crate::ancestry::children_ok(es0, i));
        assert(es[i].children == es0[i].children);
        assert forall|k: int| 0 <= k < es[i].children@.len() implies (
        #[trigger] es[i].children@[k]) < es.len() && es[i].children@[k] != i && es[es[
            i
        ].children@[k] as int].parent == Some(i as usize) by {
            let x = es0[i].children@[k];
            assert(x < es0.len() && x != i && es0[x as int].parent == Some(i as usize));
            assert(es[x as int].parent == es0[x as int].parent);
        }
    }
    assert forall|i: int| 0 <= i < es.len() implies #[trigger] w.entity_ok(i) by {
        assert(w0.entity_ok(i));
        if i == e as int {
            assert forall|k1: int, k2: int|
                0 <= k1 < k2 < es[i].components@.len() implies es[i].components@[k1].type_id
                != es[i].components@[k2].type_id by {
                assert(es0[i].components@[k1].type_id != es0[i].components@[k2].type_id);
            }
        } else {
            assert(es[i].components@ == es0[i].components@);
        }
    }
    assert forall|i: int| 0 <= i < es.len() implies #[trigger] w.scene_edge_ok(i) by {
        assert(w0.scene_edge_ok(i));
        match es0[i].parent {
            None => {},
            Some(q) => {
                assert(crate::ancestry::parent_ok(es0, i));
                assert(es[q as int].scene == es0[q as int].scene);
            },
        }
    }
    assert forall|j: int| 0 <= j < w.scenes@.len() implies #[trigger] w.scene_ok(j) by {
        assert(w0.scene_ok(j));
        assert(w.scenes@[j] == w0.scenes@[j]);
        assert forall|k: int| 0 <= k < w.scenes@[j].roots@.len() implies (
        #[trigger] w.scenes@[j].roots@[k]) < es.len()
            && es[w.scenes@[j].roots@[k] as int].parent is None
            && es[w.scenes@[j].roots@[k] as int].scene == Some(j as usize) by {
            let x = w0.scenes@[j].roots@[k] as int;
            assert(x < es0.len() && es0[x].parent is None && es0[x].scene == Some(j as usize));
        }
        assert forall|i: int|
            0 <= i < es.len() && (#[trigger] es[i]).scene == Some(j as usize) && es[i].parent
                is None implies w.scenes@[j].roots@.contains(i as usize) by {
            assert(es0[i].scene == Some(j as usize));
        }
        assert forall|m: int| 0 <= m < w.scenes@[j].managers@.len() implies #[trigger] w.manager_ok(
            j,
            m,
        ) by {
            assert(w0.manager_ok(j, m));
            let mt = w.scenes@[j].managers@[m].type_id;
            assert(crate::world::mgr_pairs(es, j as usize, mt) =~= crate::world::mgr_pairs(
                es0,
                j as usize,
                mt,
            )) by {
                assert forall|pr: (usize, Id)| #[trigger]
                    crate::world::mgr_pairs(es, j as usize, mt).contains(pr)
                        == crate::world::mgr_pairs(es0, j as usize, mt).contains(pr) by {
                    if pr.0 < es0.len() {
                        let i = pr.0 as int;
                        if es0[i].has_component_with_manager(pr.1, mt) {
                            let k = choose|k: int|
                                0 <= k < es0[i].components@.len() && es0[i].components@[k].type_id
                                    == pr.1 && es0[i].components@[k].manager_type_id == mt;
                            assert(es[i].components@[k].type_id == pr.1);
                            assert(es[i].components@[k].manager_type_id == mt);
                            assert(es[i].has_component_with_manager(pr.1, mt));
                        }
                        if es[i].has_component_with_manager(pr.1, mt) {
                            let k = choose|k: int|
                                0 <= k < es[i].components@.len() && es[i].components@[k].type_id
                                    == pr.1 && es[i].components@[k].manager_type_id == mt;
                            assert(es0[i].components@[k].type_id == pr.1);
                            assert(es0[i].components@[k].manager_type_id == mt);
                            assert(es0[i].has_component_with_manager(pr.1, mt));
                        }
                    }
                }
            }
        }
        assert forall|i: int, k: int|
            0 <= i < es.len() && es[i].scene == Some(j as usize) && 0 <= k
                < es[i].components@.len() implies w.scenes@[j].spec_has_manager(
            (#[trigger] es[i].components@[k]).manager_type_id,
        ) by {
            assert(w0.manager_coverage_ok(j));
            assert(es[i].components@[k].manager_type_id
                == es0[i].components@[k].manager_type_id);
            assert(w0.scenes@[j].spec_has_manager(es0[i].components@[k].manager_type_id));
        }
    }
}

} // verus!
