//! Attaching and detaching single components, with the per-type manager
//! population kept synchronized.

use vstd::prelude::*;
use crate::component::Component;
use crate::id::Id;
use crate::managers::mgr_same_meta;
use crate::world::{mgr_pairs, World};

verus! {

/// Pushing onto a scened entity a component of a type it did not yet have
/// adds exactly that pair to the registered set of its manager type in its
/// scene, and changes no other registered set.
proof fn lemma_mgr_pairs_push_comp<P>(
    es0: Seq<crate::entity::Entity<P>>,
    es1: Seq<crate::entity::Entity<P>>,
    x: usize,
    j: usize,
    tid: Id,
    mtc: Id,
)
    requires
        es1.len() == es0.len(),
        (x as int) < es0.len(),
        forall|i: int|
            0 <= i < es0.len() && i != x ==> es1[i].scene == es0[i].scene && es1[i].components
                == es0[i].components,
        es1[x as int].scene == es0[x as int].scene,
        es0[x as int].scene == Some(j),
        es1[x as int].components@.len() == es0[x as int].components@.len() + 1,
        forall|k: int|
            0 <= k < es0[x as int].components@.len() ==> es1[x as int].components@[k]
                == es0[x as int].components@[k],
        es1[x as int].components@.last().type_id == tid,
        es1[x as int].components@.last().manager_type_id == mtc,
        !es0[x as int].spec_has_component(tid),
    ensures
        forall|mt: Id| #[trigger]
            mgr_pairs(es1, j, mt) == if mt == mtc {
                mgr_pairs(es0, j, mt).insert((x, tid))
            } else {
                mgr_pairs(es0, j, mt)
            },
        !mgr_pairs(es0, j, mtc).contains((x, tid)),
        forall|j2: usize, mt: Id|
            j2 != j ==> #[trigger] mgr_pairs(es1, j2, mt) == mgr_pairs(es0, j2, mt),
{
    let n0 = es0[x as int].components@.len() as int;
    assert(!mgr_pairs(es0, j, mtc).contains((x, tid)));
    assert forall|mt: Id| #[trigger]
        mgr_pairs(es1, j, mt) == (if mt == mtc {
            mgr_pairs(es0, j, mt).insert((x, tid))
        } else {
            mgr_pairs(es0, j, mt)
        }) by {
        assert forall|pr: (usize, Id)| #[trigger]
            mgr_pairs(es1, j, mt).contains(pr) == (if mt == mtc {
                mgr_pairs(es0, j, mt).insert((x, tid)).contains(pr)
            } else {
                mgr_pairs(es0, j, mt).contains(pr)
            }) by {
            if pr.0 < es0.len() {
                let i = pr.0 as int;
                if pr.0 == x {
                    if es1[i].has_component_with_manager(pr.1, mt) {
                        let k = choose|k: int|
                            0 <= k < es1[i].components@.len() && es1[i].components@[k].type_id
                                == pr.1 && es1[i].components@[k].manager_type_id == mt;
                        if k < n0 {
                            assert(es0[i].components@[k].type_id == pr.1);
                            assert(es0[i].components@[k].manager_type_id == mt);
                            assert(es0[i].has_component_with_manager(pr.1, mt));
                        } else {
                            assert(pr.1 == tid && mt == mtc);
                        }
                    }
                    if es0[i].has_component_with_manager(pr.1, mt) {
                        let k = choose|k: int|
                            0 <= k < es0[i].components@.len() && es0[i].components@[k].type_id
                                == pr.1 && es0[i].components@[k].manager_type_id == mt;
                        assert(es1[i].components@[k].type_id == pr.1);
                        assert(es1[i].components@[k].manager_type_id == mt);
                        assert(es1[i].has_component_with_manager(pr.1, mt));
                    }
                    if mt == mtc && pr == (x, tid) {
                        assert(es1[i].components@.last().type_id == tid);
                        assert(es1[i].has_component_with_manager(tid, mtc));
                    }
                    if mt == mtc && pr.0 == x && pr.1 != tid {
                        // the new component contributes only its own type
                        if es1[i].has_component_with_manager(pr.1, mt)
                            && !es0[i].has_component_with_manager(pr.1, mt) {
                            let k = choose|k: int|
                                0 <= k < es1[i].components@.len() && es1[i].components@[k].type_id
                                    == pr.1 && es1[i].components@[k].manager_type_id == mt;
                            assert(k == n0);
                            assert(pr.1 == tid);
                        }
                    }
                } else {
                    assert(es1[i].components@ == es0[i].components@);
                    if es1[i].has_component_with_manager(pr.1, mt) {
                        let k = choose|k: int|
                            0 <= k < es1[i].components@.len() && es1[i].components@[k].type_id
                                == pr.1 && es1[i].components@[k].manager_type_id == mt;
                        assert(es0[i].has_component_with_manager(pr.1, mt));
                    }
                    if es0[i].has_component_with_manager(pr.1, mt) {
                        let k = choose|k: int|
                            0 <= k < es0[i].components@.len() && es0[i].components@[k].type_id
                                == pr.1 && es0[i].components@[k].manager_type_id == mt;
                        assert(es1[i].has_component_with_manager(pr.1, mt));
                    }
                }
            }
        }
        if mt == mtc {
            assert(mgr_pairs(es1, j, mt) =~= mgr_pairs(es0, j, mt).insert((x, tid)));
        } else {
            assert(mgr_pairs(es1, j, mt) =~= mgr_pairs(es0, j, mt));
        }
    }
    assert forall|j2: usize, mt: Id| j2 != j implies #[trigger] mgr_pairs(es1, j2, mt)
        == mgr_pairs(es0, j2, mt) by {
        assert forall|pr: (usize, Id)| #[trigger]
            mgr_pairs(es1, j2, mt).contains(pr) == mgr_pairs(es0, j2, mt).contains(pr) by {
            if pr.0 < es0.len() && pr.0 != x {
                let i = pr.0 as int;
                assert(es1[i].components@ == es0[i].components@);
                if es1[i].has_component_with_manager(pr.1, mt) {
                    let k = choose|k: int|
                        0 <= k < es1[i].components@.len() && es1[i].components@[k].type_id == pr.1
                            && es1[i].components@[k].manager_type_id == mt;
                    assert(es0[i].has_component_with_manager(pr.1, mt));
                }
                if es0[i].has_component_with_manager(pr.1, mt) {
                    let k = choose|k: int|
                        0 <= k < es0[i].components@.len() && es0[i].components@[k].type_id == pr.1
                            && es0[i].components@[k].manager_type_id == mt;
                    assert(es1[i].has_component_with_manager(pr.1, mt));
                }
            }
        }
        assert(mgr_pairs(es1, j2, mt) =~= mgr_pairs(es0, j2, mt));
    }
}

impl<P> World<P> {
    /// What a successful `add_component(e, component)` does: the component —
    /// its entity back-reference set to `e` — becomes the last component of
    /// `e`, is registered with the manager of its manager type in `e`'s
    /// scene if `e` is scened (creating that manager if its type is new),
    /// and nothing else changes.
    pub open spec fn add_component_rel(self, w: World<P>, e: int, component: Component<P>) -> bool {
        let es0 = self.es();
        let es = w.es();
        &&& es.len() == es0.len()
        &&& w.scenes@.len() == self.scenes@.len()
        &&& (forall|i: int| 0 <= i < es0.len() && i != e ==> es[i] == es0[i])
        &&& es[e].parent == es0[e].parent
        &&& es[e].depth == es0[e].depth
        &&& es[e].children == es0[e].children
        &&& es[e].scene == es0[e].scene
        &&& es[e].components@.len() == es0[e].components@.len() + 1
        &&& (forall|k: int|
            0 <= k < es0[e].components@.len() ==> es[e].components@[k] == es0[e].components@[k])
        &&& es[e].components@.last().type_id == component.type_id
        &&& es[e].components@.last().manager_type_id == component.manager_type_id
        &&& es[e].components@.last().manager_order == component.manager_order
        &&& es[e].components@.last().payload == component.payload
        &&& es[e].components@.last().entity == Some(e as usize)
        &&& (forall|j: int|
            0 <= j < self.scenes@.len() ==> w.scenes@[j].initted == self.scenes@[j].initted
                && w.scenes@[j].ticks == self.scenes@[j].ticks && w.scenes@[j].roots
                == self.scenes@[j].roots && w.scenes@[j].plugins == self.scenes@[j].plugins)
        &&& match es0[e].scene {
            None => (forall|j: int|
                0 <= j < self.scenes@.len() ==> w.scenes@[j].managers == self.scenes@[j].managers),
            Some(s) => (forall|j: int|
                0 <= j < self.scenes@.len() && j != s ==> w.scenes@[j].managers
                    == self.scenes@[j].managers) && w.mgrs_from_or_fresh(
                self.scenes@[s as int],
                s,
            ) && w.scenes@[s as int].spec_has_manager(component.manager_type_id) && (
            self.scenes@[s as int].initted && !self.scenes@[s as int].spec_has_manager(
                component.manager_type_id,
            ) ==> crate::managers::sorted_by_order(w.scenes@[s as int].managers@)),
        }
    }

    /// Attaches `component` to entity `e`.  If `e` already holds a
    /// component of the same type identity the call is a no-op that
    /// discards `component` and returns false — the first component of a
    /// type wins.  Otherwise the component's entity back-reference is set,
    /// it is registered with its manager if `e` is in a scene (creating the
    /// manager on the first component of its type, with an immediate `init`
    /// call if the scene is already initialized), and it is appended to
    /// `e`'s components.
    pub fn add_component(&mut self, e: usize, component: Component<P>) -> (r: bool)
        requires
            old(self).wf(),
            old(self).valid_entity(e as int),
        ensures
            final(self).wf(),
            r == !old(self).es()[e as int].spec_has_component(component.type_id),
            !r ==> *final(self) == *old(self),
            r ==> old(self).add_component_rel(*final(self), e as int, component),
    {
        let ghost w0 = *self;
        let tid = component.type_id;
        let mt = component.manager_type_id;
        let ord = component.manager_order;
        match self.entities[e].find_component(tid) {
            Some(_) => {
                return false;
            },
            None => {},
        }
        let mut comp = component;
        comp.entity = Some(e);
        let s_opt = self.entities[e].scene;
        match s_opt {
            Some(s) => {
                proof {
                    assert(w0.entity_ok(e as int));
                    assert(w0.scene_ok(s as int));
                    assert forall|m: int|
                        0 <= m < w0.scenes@[s as int].managers@.len() implies {
                        let mgr = #[trigger] w0.scenes@[s as int].managers@[m];
                        mgr.scene == Some(s) && mgr.members@.no_duplicates() && mgr.members@.len()
                            > 0 && !mgr.members@.contains((e, tid))
                    } by {
                        assert(w0.manager_ok(s as int, m));
                        let mgr = w0.scenes@[s as int].managers@[m];
                        if mgr.members@.contains((e, tid)) {
                            assert(mgr.members@.to_set().contains((e, tid)));
                            assert(mgr_pairs(w0.es(), s, mgr.type_id).contains((e, tid)));
                            let k = choose|k: int|
                                0 <= k < w0.es()[e as int].components@.len()
                                    && w0.es()[e as int].components@[k].type_id == tid
                                    && w0.es()[e as int].components@[k].manager_type_id
                                    == mgr.type_id;
                            assert(w0.es()[e as int].spec_has_component(tid));
                        }
                    }
                }
                let created = self.register_pair(s, e, tid, mt, ord);
                let ghost w1 = *self;
                self.entities[e].components.push(comp);
                proof {
                    lemma_add_component_scened_wf(w0, w1, *self, e, s, comp, created);
                    assert(self.manager_coverage_ok(s as int)) by {
                        assert(self.scene_ok(s as int));
                    }
                    let nk = w0.es()[e as int].components@.len() as int;
                    assert(self.es()[e as int].components@[nk].manager_type_id == mt);
                    assert(self.scenes@[s as int].spec_has_manager(mt));
                }
                // a manager created in an already-initialized scene re-sorts
                // the collection
                let initted = self.scenes[s].initted;
                if created && initted {
                    let ghost w2 = *self;
                    self.sort_managers(s);
                    proof {
                        crate::transfer::lemma_or_fresh_then_from(
                            w2,
                            *self,
                            w0.scenes@[s as int],
                            s,
                        );
                        let mi2 = choose|mi2: int|
                            0 <= mi2 < w2.scenes@[s as int].managers@.len()
                                && w2.scenes@[s as int].managers@[mi2].type_id == mt;
                        assert(self.scenes@[s as int].spec_has_manager(
                            w2.scenes@[s as int].managers@[mi2].type_id,
                        ));
                    }
                }
            },
            None => {
                self.entities[e].components.push(comp);
                proof {
                    lemma_add_component_unscened_wf(w0, *self, e, comp);
                }
            },
        }
        true
    }

    /// What a successful `remove_component_by_type_id(e, t)` does: the
    /// component of type `t` leaves `e`'s component list, is deregistered
    /// from its manager if `e` is scened (a manager emptied this way is
    /// destroyed), and nothing else changes.
    pub open spec fn remove_component_rel(self, w: World<P>, e: int, t: Id) -> bool {
        let es0 = self.es();
        let es = w.es();
        let k0 = es0[e].component_index(t);
        &&& es.len() == es0.len()
        &&& w.scenes@.len() == self.scenes@.len()
        &&& (forall|i: int| 0 <= i < es0.len() && i != e ==> es[i] == es0[i])
        &&& es[e].parent == es0[e].parent
        &&& es[e].depth == es0[e].depth
        &&& es[e].children == es0[e].children
        &&& es[e].scene == es0[e].scene
        &&& es[e].components@ == es0[e].components@.remove(k0)
        &&& (forall|j: int|
            0 <= j < self.scenes@.len() ==> w.scenes@[j].initted == self.scenes@[j].initted
                && w.scenes@[j].ticks == self.scenes@[j].ticks && w.scenes@[j].roots
                == self.scenes@[j].roots && w.scenes@[j].plugins == self.scenes@[j].plugins)
        &&& match es0[e].scene {
            None => (forall|j: int|
                0 <= j < self.scenes@.len() ==> w.scenes@[j].managers == self.scenes@[j].managers),
            Some(s) => (forall|j: int|
                0 <= j < self.scenes@.len() && j != s ==> w.scenes@[j].managers
                    == self.scenes@[j].managers) && w.mgrs_from(self.scenes@[s as int], s),
        }
    }

    /// Detaches the component of type identity `t` from entity `e` and
    /// returns it with its entity back-reference cleared.  A no-op — that
    /// returns `None` — if no such component is attached.  If `e` is in a
    /// scene the component is first deregistered from its manager, which is
    /// destroyed if this was its last member.
    pub fn remove_component_by_type_id(&mut self, e: usize, t: Id) -> (r: Option<Component<P>>)
        requires
            old(self).wf(),
            old(self).valid_entity(e as int),
        ensures
            final(self).wf(),
            r is Some <==> old(self).es()[e as int].spec_has_component(t),
            r is None ==> *final(self) == *old(self),
            r matches Some(c) ==> {
                let k0 = old(self).es()[e as int].component_index(t);
                &&& old(self).remove_component_rel(*final(self), e as int, t)
                &&& c.type_id == t
                &&& c.entity is None
                &&& c.payload == old(self).es()[e as int].components@[k0].payload
                &&& c.manager_type_id == old(self).es()[e as int].components@[k0].manager_type_id
                &&& c.manager_order == old(self).es()[e as int].components@[k0].manager_order
            },
    {
        let ghost w0 = *self;
        let k = match self.entities[e].find_component(t) {
            None => {
                return None;
            },
            Some(k) => k,
        };
        proof {
            assert(w0.entity_ok(e as int));
            assert(w0.es()[e as int].spec_has_component(t));
            let k0 = w0.es()[e as int].component_index(t);
            assert(0 <= k0 < w0.es()[e as int].components@.len()
                && w0.es()[e as int].components@[k0].type_id == t);
            assert(k0 == k as int);
        }
        let mt = self.entities[e].components[k].manager_type_id;
        let s_opt = self.entities[e].scene;
        let ghost w1 = *self;
        match s_opt {
            Some(s) => {
                proof {
                    assert(w0.scene_ok(s as int));
                    assert(w0.manager_coverage_ok(s as int));
                    assert(w0.scenes@[s as int].spec_has_manager(mt));
                    assert forall|m: int|
                        0 <= m < w0.scenes@[s as int].managers@.len() implies {
                        let mgr = #[trigger] w0.scenes@[s as int].managers@[m];
                        mgr.scene == Some(s) && mgr.members@.no_duplicates() && mgr.members@.len()
                            > 0
                    } by {
                        assert(w0.manager_ok(s as int, m));
                    }
                    let mi = w0.scenes@[s as int].manager_index(mt);
                    assert(w0.manager_ok(s as int, mi));
                    assert(mgr_pairs(w0.es(), s, mt).contains((e, t))) by {
                        assert(w0.es()[e as int].has_component_with_manager(t, mt));
                    }
                    assert(w0.scenes@[s as int].managers@[mi].members@.to_set().contains((e, t)));
                }
                self.unregister_pair(s, e, t, mt);
            },
            None => {},
        }
        let ghost w2 = *self;
        let mut comp = self.entities[e].components.remove(k);
        comp.entity = None;
        proof {
            lemma_remove_component_wf(w0, w2, *self, e, t, mt, k as int);
        }
        Some(comp)
    }

    /// Detaches the component with type identity `t` from entity `e`; see
    /// `remove_component_by_type_id`.
    pub fn remove_component(&mut self, e: usize, t: Id) -> (r: Option<Component<P>>)
        requires
            old(self).wf(),
            old(self).valid_entity(e as int),
        ensures
            final(self).wf(),
            r is Some <==> old(self).es()[e as int].spec_has_component(t),
            r is None ==> *final(self) == *old(self),
            r is Some ==> old(self).remove_component_rel(*final(self), e as int, t),
    {
        self.remove_component_by_type_id(e, t)
    }

    /// True iff entity `e` holds a component with type identity `t`.
    pub fn has_component(&self, e: usize, t: Id) -> (r: bool)
        requires
            self.valid_entity(e as int),
        ensures
            r == self.es()[e as int].spec_has_component(t),
    {
        match self.entities[e].find_component(t) {
            Some(_) => true,
            None => false,
        }
    }

    /// The component of type identity `t` on entity `e`, if any: looking a
    /// component up by identity is the checked downcast of this design, so
    /// asking for a type that is not attached yields `None`.
    pub fn component(&self, e: usize, t: Id) -> (r: Option<&Component<P>>)
        requires
            self.wf(),
            self.valid_entity(e as int),
        ensures
            match r {
                Some(c) => self.es()[e as int].spec_has_component(t) && *c
                    == self.es()[e as int].components@[self.es()[e as int].component_index(t)]
                    && c.type_id == t,
                None => !self.es()[e as int].spec_has_component(t),
            },
    {
        match self.entities[e].find_component(t) {
            Some(k) => {
                proof {
                    assert(self.entity_ok(e as int));
                    let k0 = self.es()[e as int].component_index(t);
                    assert(0 <= k0 < self.es()[e as int].components@.len()
                        && self.es()[e as int].components@[k0].type_id == t);
                    assert(k0 == k as int);
                }
                let c = &self.entities[e].components[k];
                Some(c)
            },
            None => None,
        }
    }
}

/// Removing from a scened entity its component at position `k0` removes
/// exactly that pair from the registered set of its manager type in its
/// scene, and changes no other registered set.
proof fn lemma_mgr_pairs_remove_comp<P>(
    es0: Seq<crate::entity::Entity<P>>,
    es1: Seq<crate::entity::Entity<P>>,
    x: usize,
    j: usize,
    k0: int,
)
    requires
        es1.len() == es0.len(),
        (x as int) < es0.len(),
        forall|i: int|
            0 <= i < es0.len() && i != x ==> es1[i].scene == es0[i].scene && es1[i].components
                == es0[i].components,
        es1[x as int].scene == es0[x as int].scene,
        es0[x as int].scene == Some(j),
        0 <= k0 < es0[x as int].components@.len(),
        es0[x as int].components_distinct(),
        es1[x as int].components@ == es0[x as int].components@.remove(k0),
    ensures
        forall|mt: Id| #[trigger]
            mgr_pairs(es1, j, mt) == if mt == es0[x as int].components@[k0].manager_type_id {
                mgr_pairs(es0, j, mt).remove((x, es0[x as int].components@[k0].type_id))
            } else {
                mgr_pairs(es0, j, mt)
            },
        forall|j2: usize, mt: Id|
            j2 != j ==> #[trigger] mgr_pairs(es1, j2, mt) == mgr_pairs(es0, j2, mt),
{
    let tid = es0[x as int].components@[k0].type_id;
    let mtc = es0[x as int].components@[k0].manager_type_id;
    let cs0 = es0[x as int].components@;
    let cs1 = es1[x as int].components@;
    cs0.remove_ensures(k0);
    assert forall|mt: Id| #[trigger]
        mgr_pairs(es1, j, mt) == (if mt == mtc {
            mgr_pairs(es0, j, mt).remove((x, tid))
        } else {
            mgr_pairs(es0, j, mt)
        }) by {
        assert forall|pr: (usize, Id)| #[trigger]
            mgr_pairs(es1, j, mt).contains(pr) == (if mt == mtc {
                mgr_pairs(es0, j, mt).remove((x, tid)).contains(pr)
            } else {
                mgr_pairs(es0, j, mt).contains(pr)
            }) by {
            if pr.0 < es0.len() {
                let i = pr.0 as int;
                if pr.0 == x {
                    if es1[i].has_component_with_manager(pr.1, mt) {
                        let k = choose|k: int|
                            0 <= k < cs1.len() && cs1[k].type_id == pr.1 && cs1[k].manager_type_id
                                == mt;
                        let kk: int = if k < k0 {
                            k
                        } else {
                            k + 1
                        };
                        assert(cs1[k] == cs0[kk]);
                        assert(es0[i].has_component_with_manager(pr.1, mt));
                        assert(pr != (x, tid)) by {
                            if pr.1 == tid {
                                assert(cs0[kk].type_id == tid);
                                assert(kk != k0);
                                assert(cs0[kk].type_id != cs0[k0].type_id);
                            }
                        }
                    }
                    if es0[i].has_component_with_manager(pr.1, mt) && pr != (x, tid) {
                        let k = choose|k: int|
                            0 <= k < cs0.len() && cs0[k].type_id == pr.1 && cs0[k].manager_type_id
                                == mt;
                        assert(k != k0) by {
                            if k == k0 {
                                assert(pr.1 == tid);
                            }
                        }
                        let kk: int = if k < k0 {
                            k
                        } else {
                            k - 1
                        };
                        assert(cs1[kk] == cs0[k]);
                        assert(es1[i].has_component_with_manager(pr.1, mt));
                    }
                    if pr == (x, tid) {
                        assert(!es1[i].has_component_with_manager(pr.1, mt)) by {
                            if es1[i].has_component_with_manager(tid, mt) {
                                let k = choose|k: int|
                                    0 <= k < cs1.len() && cs1[k].type_id == tid
                                        && cs1[k].manager_type_id == mt;
                                let kk: int = if k < k0 {
                                    k
                                } else {
                                    k + 1
                                };
                                assert(cs1[k] == cs0[kk]);
                                assert(kk != k0);
                                assert(cs0[kk].type_id != cs0[k0].type_id);
                            }
                        }
                        if mt != mtc {
                            assert(!es0[i].has_component_with_manager(tid, mt)) by {
                                if es0[i].has_component_with_manager(tid, mt) {
                                    let k = choose|k: int|
                                        0 <= k < cs0.len() && cs0[k].type_id == tid
                                            && cs0[k].manager_type_id == mt;
                                    assert(k != k0);
                                    assert(cs0[k].type_id != cs0[k0].type_id);
                                }
                            }
                        }
                    }
                } else {
                    assert(es1[i].components@ == es0[i].components@);
                    if es1[i].has_component_with_manager(pr.1, mt) {
                        let k = choose|k: int|
                            0 <= k < es1[i].components@.len() && es1[i].components@[k].type_id
                                == pr.1 && es1[i].components@[k].manager_type_id == mt;
                        assert(es0[i].has_component_with_manager(pr.1, mt));
                    }
                    if es0[i].has_component_with_manager(pr.1, mt) {
                        let k = choose|k: int|
                            0 <= k < es0[i].components@.len() && es0[i].components@[k].type_id
                                == pr.1 && es0[i].components@[k].manager_type_id == mt;
                        assert(es1[i].has_component_with_manager(pr.1, mt));
                    }
                }
            }
        }
        if mt == mtc {
            assert(mgr_pairs(es1, j, mt) =~= mgr_pairs(es0, j, mt).remove((x, tid)));
        } else {
            assert(mgr_pairs(es1, j, mt) =~= mgr_pairs(es0, j, mt));
        }
    }
    assert forall|j2: usize, mt: Id| j2 != j implies #[trigger] mgr_pairs(es1, j2, mt)
        == mgr_pairs(es0, j2, mt) by {
        assert forall|pr: (usize, Id)| #[trigger]
            mgr_pairs(es1, j2, mt).contains(pr) == mgr_pairs(es0, j2, mt).contains(pr) by {
            if pr.0 < es0.len() && pr.0 != x {
                let i = pr.0 as int;
                assert(es1[i].components@ == es0[i].components@);
                if es1[i].has_component_with_manager(pr.1, mt) {
                    let k = choose|k: int|
                        0 <= k < es1[i].components@.len() && es1[i].components@[k].type_id == pr.1
                            && es1[i].components@[k].manager_type_id == mt;
                    assert(es0[i].has_component_with_manager(pr.1, mt));
                }
                if es0[i].has_component_with_manager(pr.1, mt) {
                    let k = choose|k: int|
                        0 <= k < es0[i].components@.len() && es0[i].components@[k].type_id == pr.1
                            && es0[i].components@[k].manager_type_id == mt;
                    assert(es1[i].has_component_with_manager(pr.1, mt));
                }
            }
        }
        assert(mgr_pairs(es1, j2, mt) =~= mgr_pairs(es0, j2, mt));
    }
}

/// `add_component` on an unscened entity preserves the global invariant.
proof fn lemma_add_component_unscened_wf<P>(
    w0: World<P>,
    w: World<P>,
    e: usize,
    comp: Component<P>,
)
    requires
        w0.wf(),
        (e as int) < w0.es().len(),
        w0.es()[e as int].scene is None,
        !w0.es()[e as int].spec_has_component(comp.type_id),
        comp.entity == Some(e),
        w.scenes == w0.scenes,
        w.es().len() == w0.es().len(),
        forall|i: int| 0 <= i < w0.es().len() && i != e ==> w.es()[i] == w0.es()[i],
        w.es()[e as int].parent == w0.es()[e as int].parent,
        w.es()[e as int].depth == w0.es()[e as int].depth,
        w.es()[e as int].children == w0.es()[e as int].children,
        w.es()[e as int].scene == w0.es()[e as int].scene,
        w.es()[e as int].components@ == w0.es()[e as int].components@.push(comp),
    ensures
        w.wf(),
{
    let es0 = w0.es();
    let es = w.es();
    vstd::std_specs::vec::axiom_spec_len(&w0.entities);
    vstd::std_specs::vec::axiom_spec_len(&w0.scenes);
    assert forall|i: int| 0 <= i < es.len() implies #[trigger] crate::ancestry::parent_ok(es, i) by {
        assert(crate::ancestry::parent_ok(es0, i));
        match es0[i].parent {
            None => {},
            Some(q) => {
                assert(es[q as int].depth == es0[q as int].depth);
                assert(es[q as int].children == es0[q as int].children);
            },
        }
    }
    assert forall|i: int| 0 <= i < es.len() implies #[trigger] crate::ancestry::children_ok(es, i)
        by {
        assert(crate::ancestry::children_ok(es0, i));
        assert(es[i].children == es0[i].children);
        assert forall|k: int| 0 <= k < es[i].children@.len() implies (
        #[trigger] es[i].children@[k]) < es.len() && es[i].children@[k] != i && es[es[
            i
        ].children@[k] as int].parent == Some(i as usize) by {
            let x = es0[i].children@[k];
            assert(x < es0.len() && x != i && es0[x as int].parent == Some(i as usize));
            assert(es[x as int].parent == es0[x as int].parent);
        }
    }
    assert forall|i: int| 0 <= i < es.len() implies #[trigger] w.entity_ok(i) by {
        assert(w0.entity_ok(i));
        if i == e as int {
            assert forall|k1: int, k2: int|
                0 <= k1 < k2 < es[i].components@.len() implies es[i].components@[k1].type_id
                != es[i].components@[k2].type_id by {
                if k2 == es0[i].components@.len() {
                    if es[i].components@[k1].type_id == comp.type_id {
                        assert(es0[i].components@[k1].type_id == comp.type_id);
                        assert(es0[i].spec_has_component(comp.type_id));
                    }
                } else {
                    assert(es0[i].components@[k1].type_id != es0[i].components@[k2].type_id);
                }
            }
        } else {
            assert(es[i].components@ == es0[i].components@);
        }
    }
    assert forall|i: int| 0 <= i < es.len() implies #[trigger] w.scene_edge_ok(i) by {
        assert(w0.scene_edge_ok(i));
        match es0[i].parent {
            None => {},
            Some(q) => {
                assert(crate::ancestry::parent_ok(es0, i));
                assert(es[q as int].scene == es0[q as int].scene);
            },
        }
    }
    assert forall|j: int| 0 <= j < w.scenes@.len() implies #[trigger] w.scene_ok(j) by {
        assert(w0.scene_ok(j));
        assert(w.scenes@[j] == w0.scenes@[j]);
        assert forall|k: int| 0 <= k < w.scenes@[j].roots@.len() implies (
        #[trigger] w.scenes@[j].roots@[k]) < es.len()
            && es[w.scenes@[j].roots@[k] as int].parent is None
            && es[w.scenes@[j].roots@[k] as int].scene == Some(j as usize) by {
            let x = w0.scenes@[j].roots@[k] as int;
            assert(x < es0.len() && es0[x].parent is None && es0[x].scene == Some(j as usize));
            assert(x != e as int);
        }
        assert forall|i: int|
            0 <= i < es.len() && (#[trigger] es[i]).scene == Some(j as usize) && es[i].parent
                is None implies w.scenes@[j].roots@.contains(i as usize) by {
            assert(i != e as int);
            assert(es0[i].scene == Some(j as usize));
        }
        assert forall|m: int| 0 <= m < w.scenes@[j].managers@.len() implies #[trigger] w.manager_ok(
            j,
            m,
        ) by {
            assert(w0.manager_ok(j, m));
            let mt = w.scenes@[j].managers@[m].type_id;
            assert(mgr_pairs(es, j as usize, mt) =~= mgr_pairs(es0, j as usize, mt)) by {
                assert forall|pr: (usize, Id)| #[trigger]
                    mgr_pairs(es, j as usize, mt).contains(pr) == mgr_pairs(
                        es0,
                        j as usize,
                        mt,
                    ).contains(pr) by {
                    if pr.0 < es0.len() && pr.0 != e {
                        let i = pr.0 as int;
                        assert(es[i].components@ == es0[i].components@);
                        if es0[i].has_component_with_manager(pr.1, mt) {
                            let k = choose|k: int|
                                0 <= k < es0[i].components@.len() && es0[i].components@[k].type_id
                                    == pr.1 && es0[i].components@[k].manager_type_id == mt;
                            assert(es[i].has_component_with_manager(pr.1, mt));
                        }
                        if es[i].has_component_with_manager(pr.1, mt) {
                            let k = choose|k: int|
                                0 <= k < es[i].components@.len() && es[i].components@[k].type_id
                                    == pr.1 && es[i].components@[k].manager_type_id == mt;
                            assert(es0[i].has_component_with_manager(pr.1, mt));
                        }
                    }
                }
            }
        }
        assert forall|i: int, k: int|
            0 <= i < es.len() && es[i].scene == Some(j as usize) && 0 <= k
                < es[i].components@.len() implies w.scenes@[j].spec_has_manager(
            (#[trigger] es[i].components@[k]).manager_type_id,
        ) by {
            assert(i != e as int);
            assert(es[i].components@ == es0[i].components@);
            assert(w0.manager_coverage_ok(j));
            assert(w0.scenes@[j].spec_has_manager(es0[i].components@[k].manager_type_id));
        }
    }
}

/// `add_component` on a scened entity preserves the global invariant.
proof fn lemma_add_component_scened_wf<P>(
    w0: World<P>,
    w1: World<P>,
    w: World<P>,
    e: usize,
    s: usize,
    comp: Component<P>,
    created: bool,
)
    requires
        w0.wf(),
        (e as int) < w0.es().len(),
        w0.es()[e as int].scene == Some(s),
        !w0.es()[e as int].spec_has_component(comp.type_id),
        comp.entity == Some(e),
        // the pair was registered first
        w1.entities == w0.entities,
        w1.scenes@.len() == w0.scenes@.len(),
        forall|j: int| 0 <= j < w0.scenes@.len() && j != s ==> w1.scenes@[j] == w0.scenes@[j],
        w1.scenes@[s as int].initted == w0.scenes@[s as int].initted,
        w1.scenes@[s as int].ticks == w0.scenes@[s as int].ticks,
        w1.scenes@[s as int].roots == w0.scenes@[s as int].roots,
        w1.scenes@[s as int].plugins == w0.scenes@[s as int].plugins,
        created == !w0.scenes@[s as int].spec_has_manager(comp.manager_type_id),
        !created ==> {
            let ms0 = w0.scenes@[s as int].managers@;
            let ms = w1.scenes@[s as int].managers@;
            let mi = w0.scenes@[s as int].manager_index(comp.manager_type_id);
            &&& ms.len() == ms0.len()
            &&& (forall|m: int| 0 <= m < ms0.len() && m != mi ==> ms[m] == ms0[m])
            &&& mgr_same_meta(ms0[mi], ms[mi])
            &&& ms[mi].members@ == ms0[mi].members@.push((e, comp.type_id))
        },
        created ==> {
            let ms0 = w0.scenes@[s as int].managers@;
            let ms = w1.scenes@[s as int].managers@;
            &&& ms.len() == ms0.len() + 1
            &&& (forall|m: int| 0 <= m < ms0.len() ==> ms[m] == ms0[m])
            &&& ms[ms0.len() as int].type_id == comp.manager_type_id
            &&& ms[ms0.len() as int].order == comp.manager_order
            &&& ms[ms0.len() as int].scene == Some(s)
            &&& ms[ms0.len() as int].members@ == seq![(e, comp.type_id)]
            &&& ms[ms0.len() as int].init_calls == if w0.scenes@[s as int].initted {
                1u64
            } else {
                0u64
            }
            &&& ms[ms0.len() as int].update_calls == 0
        },
        // then the component was appended
        w.scenes == w1.scenes,
        w.es().len() == w0.es().len(),
        forall|i: int| 0 <= i < w0.es().len() && i != e ==> w.es()[i] == w0.es()[i],
        w.es()[e as int].parent == w0.es()[e as int].parent,
        w.es()[e as int].depth == w0.es()[e as int].depth,
        w.es()[e as int].children == w0.es()[e as int].children,
        w.es()[e as int].scene == w0.es()[e as int].scene,
        w.es()[e as int].components@ == w0.es()[e as int].components@.push(comp),
    ensures
        w.wf(),
        w.mgrs_from_or_fresh(w0.scenes@[s as int], s),
{
    let es0 = w0.es();
    let es = w.es();
    let tid = comp.type_id;
    let mtc = comp.manager_type_id;
    vstd::std_specs::vec::axiom_spec_len(&w0.entities);
    vstd::std_specs::vec::axiom_spec_len(&w0.scenes);
    assert(w0.entity_ok(e as int));
    assert(w0.scene_ok(s as int));
    lemma_mgr_pairs_push_comp(es0, es, e, s, tid, mtc);
    let ms0 = w0.scenes@[s as int].managers@;
    let ms = w.scenes@[s as int].managers@;
    // structural parts, identical to the unscened case
    assert forall|i: int| 0 <= i < es.len() implies #[trigger] crate::ancestry::parent_ok(es, i) by {
        assert(crate::ancestry::parent_ok(es0, i));
        match es0[i].parent {
            None => {},
            Some(q) => {
                assert(es[q as int].depth == es0[q as int].depth);
                assert(es[q as int].children == es0[q as int].children);
            },
        }
    }
    assert forall|i: int| 0 <= i < es.len() implies #[trigger] crate::ancestry::children_ok(es, i)
        by {
        assert(crate::ancestry::children_ok(es0, i));
        assert(es[i].children == es0[i].children);
        assert forall|k: int| 0 <= k < es[i].children@.len() implies (
        #[trigger] es[i].children@[k]) < es.len() && es[i].children@[k] != i && es[es[
            i
        ].children@[k] as int].parent == Some(i as usize) by {
            let x = es0[i].children@[k];
            assert(x < es0.len() && x != i && es0[x as int].parent == Some(i as usize));
            assert(es[x as int].parent == es0[x as int].parent);
        }
    }
    assert forall|i: int| 0 <= i < es.len() implies #[trigger] w.entity_ok(i) by {
        assert(w0.entity_ok(i));
        if i == e as int {
            assert forall|k1: int, k2: int|
                0 <= k1 < k2 < es[i].components@.len() implies es[i].components@[k1].type_id
                != es[i].components@[k2].type_id by {
                if k2 == es0[i].components@.len() {
                    if es[i].components@[k1].type_id == tid {
                        assert(es0[i].components@[k1].type_id == tid);
                        assert(es0[i].spec_has_component(tid));
                    }
                } else {
                    assert(es0[i].components@[k1].type_id != es0[i].components@[k2].type_id);
                }
            }
        } else {
            assert(es[i].components@ == es0[i].components@);
        }
    }
    assert forall|i: int| 0 <= i < es.len() implies #[trigger] w.scene_edge_ok(i) by {
        assert(w0.scene_edge_ok(i));
        match es0[i].parent {
            None => {},
            Some(q) => {
                assert(crate::ancestry::parent_ok(es0, i));
                assert(es[q as int].scene == es0[q as int].scene);
            },
        }
    }
    // scenes
    assert forall|j: int| 0 <= j < w.scenes@.len() implies #[trigger] w.scene_ok(j) by {
        assert(w0.scene_ok(j));
        assert forall|k: int| 0 <= k < w.scenes@[j].roots@.len() implies (
        #[trigger] w.scenes@[j].roots@[k]) < es.len()
            && es[w.scenes@[j].roots@[k] as int].parent is None
            && es[w.scenes@[j].roots@[k] as int].scene == Some(j as usize) by {
            assert(w.scenes@[j].roots == w0.scenes@[j].roots);
            let x = w0.scenes@[j].roots@[k] as int;
            assert(x < es0.len() && es0[x].parent is None && es0[x].scene == Some(j as usize));
            assert(es[x].parent == es0[x].parent && es[x].scene == es0[x].scene);
        }
        assert forall|i: int|
            0 <= i < es.len() && (#[trigger] es[i]).scene == Some(j as usize) && es[i].parent
                is None implies w.scenes@[j].roots@.contains(i as usize) by {
            assert(es0[i].scene == Some(j as usize));
            assert(es0[i].parent == es[i].parent);
            assert(w.scenes@[j].roots == w0.scenes@[j].roots);
        }
        if j == s as int {
            assert forall|m1: int, m2: int|
                0 <= m1 < m2 < ms.len() implies ms[m1].type_id != ms[m2].type_id by {
                assert(w0.scenes@[j].managers_distinct());
                if created {
                    if m2 < ms0.len() {
                        assert(ms[m1] == ms0[m1] && ms[m2] == ms0[m2]);
                    } else {
                        assert(ms[m1] == ms0[m1]);
                        if ms0[m1].type_id == mtc {
                            assert(w0.scenes@[s as int].spec_has_manager(mtc));
                        }
                    }
                } else {
                    let mi = w0.scenes@[s as int].manager_index(mtc);
                    assert(ms[m1].type_id == ms0[m1].type_id);
                    assert(ms[m2].type_id == ms0[m2].type_id);
                }
            }
            assert forall|m: int| 0 <= m < ms.len() implies #[trigger] w.manager_ok(j, m) by {
                if created {
                    if m < ms0.len() {
                        assert(w0.manager_ok(j, m));
                        assert(ms[m] == ms0[m]);
                        assert(ms[m].type_id != mtc) by {
                            if ms0[m].type_id == mtc {
                                assert(w0.scenes@[s as int].spec_has_manager(mtc));
                            }
                        }
                        assert(mgr_pairs(es, s, ms[m].type_id) == mgr_pairs(es0, s, ms[m].type_id));
                    } else {
                        assert(ms[m].members@ == seq![(e, tid)]);
                        assert(ms[m].members@.to_set() =~= set![(e, tid)]) by {
                            crate::seqs::lemma_push_to_set(Seq::<(usize, Id)>::empty(), (e, tid));
                            assert(Seq::<(usize, Id)>::empty().push((e, tid)) == seq![(e, tid)]);
                        }
                        assert(mgr_pairs(es0, s, mtc) =~= Set::<(usize, Id)>::empty()) by {
                            assert forall|pr: (usize, Id)|
                                !(#[trigger] mgr_pairs(es0, s, mtc).contains(pr)) by {
                                if mgr_pairs(es0, s, mtc).contains(pr) {
                                    let i = pr.0 as int;
                                    let k = choose|k: int|
                                        0 <= k < es0[i].components@.len()
                                            && es0[i].components@[k].type_id == pr.1
                                            && es0[i].components@[k].manager_type_id == mtc;
                                    assert(w0.manager_coverage_ok(s as int));
                                    assert(w0.scenes@[s as int].spec_has_manager(mtc));
                                }
                            }
                        }
                        assert(mgr_pairs(es, s, mtc) == mgr_pairs(es0, s, mtc).insert((e, tid)));
                        assert(ms[m].members@.to_set() =~= mgr_pairs(es, s, mtc));
                    }
                } else {
                    let mi = w0.scenes@[s as int].manager_index(mtc);
                    assert(0 <= mi < ms0.len() && ms0[mi].type_id == mtc) by {
                        assert(w0.scenes@[s as int].spec_has_manager(mtc));
                    }
                    assert(w0.manager_ok(j, mi));
                    if m != mi {
                        assert(w0.manager_ok(j, m));
                        assert(ms[m] == ms0[m]);
                        assert(ms[m].type_id != mtc) by {
                            assert(w0.scenes@[j].managers_distinct());
                        }
                        assert(mgr_pairs(es, s, ms[m].type_id) == mgr_pairs(es0, s, ms[m].type_id));
                    } else {
                        assert(!ms0[mi].members@.contains((e, tid))) by {
                            if ms0[mi].members@.contains((e, tid)) {
                                assert(ms0[mi].members@.to_set().contains((e, tid)));
                                assert(mgr_pairs(es0, s, mtc).contains((e, tid)));
                                let k = choose|k: int|
                                    0 <= k < es0[e as int].components@.len()
                                        && es0[e as int].components@[k].type_id == tid
                                        && es0[e as int].components@[k].manager_type_id == mtc;
                                assert(es0[e as int].spec_has_component(tid));
                            }
                        }
                        crate::seqs::lemma_push_to_set(ms0[mi].members@, (e, tid));
                        crate::seqs::lemma_push_no_dup(ms0[mi].members@, (e, tid));
                        assert(ms[mi].members@.to_set() =~= mgr_pairs(es, s, mtc));
                    }
                }
            }
            assert forall|i: int, k: int|
                0 <= i < es.len() && es[i].scene == Some(j as usize) && 0 <= k
                    < es[i].components@.len() implies w.scenes@[j].spec_has_manager(
                (#[trigger] es[i].components@[k]).manager_type_id,
            ) by {
                let mt2 = es[i].components@[k].manager_type_id;
                if i == e as int && k == es0[i].components@.len() {
                    assert(mt2 == mtc);
                    if created {
                        assert(ms[ms0.len() as int].type_id == mtc);
                    } else {
                        let mi = w0.scenes@[s as int].manager_index(mtc);
                        assert(w0.scenes@[s as int].spec_has_manager(mtc));
                        assert(ms[mi].type_id == mtc);
                    }
                } else {
                    assert(es0[i].components@[k] == es[i].components@[k]);
                    assert(w0.manager_coverage_ok(j));
                    assert(w0.scenes@[j].spec_has_manager(mt2));
                    let m0 = choose|m0: int| 0 <= m0 < ms0.len() && ms0[m0].type_id == mt2;
                    assert(ms[m0].type_id == mt2);
                }
            }
        } else {
            assert(w.scenes@[j] == w0.scenes@[j]);
            assert forall|m: int| 0 <= m < w.scenes@[j].managers@.len() implies
                #[trigger] w.manager_ok(j, m) by {
                assert(w0.manager_ok(j, m));
                let mt = w.scenes@[j].managers@[m].type_id;
                assert(mgr_pairs(es, j as usize, mt) == mgr_pairs(es0, j as usize, mt));
            }
            assert forall|i: int, k: int|
                0 <= i < es.len() && es[i].scene == Some(j as usize) && 0 <= k
                    < es[i].components@.len() implies w.scenes@[j].spec_has_manager(
                (#[trigger] es[i].components@[k]).manager_type_id,
            ) by {
                assert(i != e as int);
                assert(es[i].components@ == es0[i].components@);
                assert(w0.manager_coverage_ok(j));
                assert(w0.scenes@[j].spec_has_manager(es0[i].components@[k].manager_type_id));
            }
        }
    }
    // manager provenance
    assert(w.mgrs_from_or_fresh(w0.scenes@[s as int], s)) by {
        let s0 = w0.scenes@[s as int];
        assert forall|m: int| 0 <= m < ms.len() implies {
            let mgr = #[trigger] w.scenes@[s as int].managers@[m];
            if s0.spec_has_manager(mgr.type_id) {
                mgr_same_meta(s0.managers@[s0.manager_index(mgr.type_id)], mgr)
            } else {
                &&& mgr.update_calls == 0
                &&& mgr.init_calls == if s0.initted {
                    1u64
                } else {
                    0u64
                }
            }
        } by {
            if created {
                if m < ms0.len() {
                    assert(ms[m] == ms0[m]);
                    assert(s0.spec_has_manager(ms0[m].type_id));
                    let mi0 = s0.manager_index(ms0[m].type_id);
                    assert(s0.managers@[mi0].type_id == ms0[m].type_id);
                    assert(s0.managers_distinct());
                    assert(mi0 == m);
                } else {
                    assert(ms[m].type_id == mtc);
                    assert(!s0.spec_has_manager(mtc));
                }
            } else {
                let mi = s0.manager_index(mtc);
                if m == mi {
                    assert(s0.spec_has_manager(mtc));
                    assert(mgr_same_meta(ms0[mi], ms[mi]));
                } else {
                    assert(ms[m] == ms0[m]);
                    assert(s0.spec_has_manager(ms0[m].type_id));
                    let mi0 = s0.manager_index(ms0[m].type_id);
                    assert(s0.managers@[mi0].type_id == ms0[m].type_id);
                    assert(s0.managers_distinct());
                    assert(mi0 == m);
                }
            }
        }
    }
}

/// `remove_component_by_type_id` preserves the global invariant.
proof fn lemma_remove_component_wf<P>(
    w0: World<P>,
    w2: World<P>,
    w: World<P>,
    e: usize,
    t: Id,
    mt: Id,
    k0: int,
)
    requires
        w0.wf(),
        (e as int) < w0.es().len(),
        0 <= k0 < w0.es()[e as int].components@.len(),
        w0.es()[e as int].components@[k0].type_id == t,
        w0.es()[e as int].components@[k0].manager_type_id == mt,
        // deregistration phase
        w0.es()[e as int].scene is None ==> w2 == w0,
        w0.es()[e as int].scene matches Some(s) ==> {
            &&& w2.entities == w0.entities
            &&& w2.scenes@.len() == w0.scenes@.len()
            &&& (forall|j: int|
                0 <= j < w0.scenes@.len() && j != s ==> w2.scenes@[j] == w0.scenes@[j])
            &&& w2.scenes@[s as int].initted == w0.scenes@[s as int].initted
            &&& w2.scenes@[s as int].ticks == w0.scenes@[s as int].ticks
            &&& w2.scenes@[s as int].roots == w0.scenes@[s as int].roots
            &&& w2.scenes@[s as int].plugins == w0.scenes@[s as int].plugins
            &&& {
                let ms0 = w0.scenes@[s as int].managers@;
                let ms = w2.scenes@[s as int].managers@;
                let mi = w0.scenes@[s as int].manager_index(mt);
                if ms0[mi].members@.len() == 1 {
                    ms == ms0.remove(mi)
                } else {
                    &&& ms.len() == ms0.len()
                    &&& (forall|m: int| 0 <= m < ms0.len() && m != mi ==> ms[m] == ms0[m])
                    &&& mgr_same_meta(ms0[mi], ms[mi])
                    &&& exists|pos: int|
                        0 <= pos < ms0[mi].members@.len() && ms0[mi].members@[pos] == (e, t)
                            && ms[mi].members@ == ms0[mi].members@.remove(pos)
                }
            }
        },
        // removal phase
        w.scenes == w2.scenes,
        w.es().len() == w0.es().len(),
        forall|i: int| 0 <= i < w0.es().len() && i != e ==> w.es()[i] == w0.es()[i],
        w.es()[e as int].parent == w0.es()[e as int].parent,
        w.es()[e as int].depth == w0.es()[e as int].depth,
        w.es()[e as int].children == w0.es()[e as int].children,
        w.es()[e as int].scene == w0.es()[e as int].scene,
        w.es()[e as int].components@ == w0.es()[e as int].components@.remove(k0),
    ensures
        w.wf(),
        w0.es()[e as int].scene matches Some(s) ==> w.mgrs_from(w0.scenes@[s as int], s),
{
    let es0 = w0.es();
    let es = w.es();
    vstd::std_specs::vec::axiom_spec_len(&w0.entities);
    vstd::std_specs::vec::axiom_spec_len(&w0.scenes);
    assert(w0.entity_ok(e as int));
    es0[e as int].components@.remove_ensures(k0);
    // structural parts
    assert forall|i: int| 0 <= i < es.len() implies #[trigger] crate::ancestry::parent_ok(es, i) by {
        assert(crate::ancestry::parent_ok(es0, i));
        match es0[i].parent {
            None => {},
            Some(q) => {
                assert(es[q as int].depth == es0[q as int].depth);
                assert(es[q as int].children == es0[q as int].children);
            },
        }
    }
    assert forall|i: int| 0 <= i < es.len() implies #[trigger] crate::ancestry::children_ok(es, i)
        by {
        assert(crate::ancestry::children_ok(es0, i));
        assert(es[i].children == es0[i].children);
        assert forall|k: int| 0 <= k < es[i].children@.len() implies (
        #[trigger] es[i].children@[k]) < es.len() && es[i].children@[k] != i && es[es[
            i
        ].children@[k] as int].parent == Some(i as usize) by {
            let x = es0[i].children@[k];
            assert(x < es0.len() && x != i && es0[x as int].parent == Some(i as usize));
            assert(es[x as int].parent == es0[x as int].parent);
        }
    }
    assert forall|i: int| 0 <= i < es.len() implies #[trigger] w.entity_ok(i) by {
        assert(w0.entity_ok(i));
        if i == e as int {
            assert forall|k1: int, k2: int|
                0 <= k1 < k2 < es[i].components@.len() implies es[i].components@[k1].type_id
                != es[i].components@[k2].type_id by {
                let j1: int = if k1 < k0 {
                    k1
                } else {
                    k1 + 1
                };
                let j2: int = if k2 < k0 {
                    k2
                } else {
                    k2 + 1
                };
                assert(es[i].components@[k1] == es0[i].components@[j1]);
                assert(es[i].components@[k2] == es0[i].components@[j2]);
            }
            assert forall|k: int|
                0 <= k < es[i].components@.len() implies (#[trigger] es[i].components@[k]).entity
                == Some(e) by {
                let j1: int = if k < k0 {
                    k
                } else {
                    k + 1
                };
                assert(es[i].components@[k] == es0[i].components@[j1]);
            }
        } else {
            assert(es[i].components@ == es0[i].components@);
        }
    }
    assert forall|i: int| 0 <= i < es.len() implies #[trigger] w.scene_edge_ok(i) by {
        assert(w0.scene_edge_ok(i));
        match es0[i].parent {
            None => {},
            Some(q) => {
                assert(crate::ancestry::parent_ok(es0, i));
                assert(es[q as int].scene == es0[q as int].scene);
            },
        }
    }
    // scenes
    match es0[e as int].scene {
        None => {
            assert forall|j: int| 0 <= j < w.scenes@.len() implies #[trigger] w.scene_ok(j) by {
                assert(w0.scene_ok(j));
                assert(w.scenes@[j] == w0.scenes@[j]);
                lemma_roots_and_edges_carry(w0, w, j, e);
                assert forall|m: int|
                    0 <= m < w.scenes@[j].managers@.len() implies #[trigger] w.manager_ok(j, m) by {
                    assert(w0.manager_ok(j, m));
                    let mt2 = w.scenes@[j].managers@[m].type_id;
                    assert(mgr_pairs(es, j as usize, mt2) =~= mgr_pairs(es0, j as usize, mt2)) by {
                        assert forall|pr: (usize, Id)| #[trigger]
                            mgr_pairs(es, j as usize, mt2).contains(pr) == mgr_pairs(
                                es0,
                                j as usize,
                                mt2,
                            ).contains(pr) by {
                            if pr.0 < es0.len() && pr.0 != e {
                                let i = pr.0 as int;
                                assert(es[i].components@ == es0[i].components@);
                                if es0[i].has_component_with_manager(pr.1, mt2) {
                                    let k = choose|k: int|
                                        0 <= k < es0[i].components@.len()
                                            && es0[i].components@[k].type_id == pr.1
                                            && es0[i].components@[k].manager_type_id == mt2;
                                    assert(es[i].has_component_with_manager(pr.1, mt2));
                                }
                                if es[i].has_component_with_manager(pr.1, mt2) {
                                    let k = choose|k: int|
                                        0 <= k < es[i].components@.len()
                                            && es[i].components@[k].type_id == pr.1
                                            && es[i].components@[k].manager_type_id == mt2;
                                    assert(es0[i].has_component_with_manager(pr.1, mt2));
                                }
                            }
                        }
                    }
                }
                assert forall|i: int, k: int|
                    0 <= i < es.len() && es[i].scene == Some(j as usize) && 0 <= k
                        < es[i].components@.len() implies w.scenes@[j].spec_has_manager(
                    (#[trigger] es[i].components@[k]).manager_type_id,
                ) by {
                    assert(i != e as int);
                    assert(es[i].components@ == es0[i].components@);
                    assert(w0.manager_coverage_ok(j));
                    assert(w0.scenes@[j].spec_has_manager(es0[i].components@[k].manager_type_id));
                }
            }
        },
        Some(s) => {
            lemma_mgr_pairs_remove_comp(es0, es, e, s, k0);
            assert(w0.scene_ok(s as int));
            let ms0 = w0.scenes@[s as int].managers@;
            let ms = w.scenes@[s as int].managers@;
            let mi = w0.scenes@[s as int].manager_index(mt);
            assert(w0.scenes@[s as int].spec_has_manager(mt)) by {
                assert(w0.manager_coverage_ok(s as int));
                assert(w0.scenes@[s as int].spec_has_manager(
                    es0[e as int].components@[k0].manager_type_id,
                ));
            }
            assert(0 <= mi < ms0.len() && ms0[mi].type_id == mt);
            assert(w0.manager_ok(s as int, mi));
            let destroyed = ms0[mi].members@.len() == 1;
            if destroyed {
                assert(ms == ms0.remove(mi));
                ms0.remove_ensures(mi);
                assert(ms0[mi].members@.to_set() =~= set![(e, t)]) by {
                    assert(ms0[mi].members@.to_set() == mgr_pairs(es0, s, mt));
                    assert(mgr_pairs(es0, s, mt).contains((e, t))) by {
                        assert(es0[e as int].has_component_with_manager(t, mt));
                    }
                    assert(ms0[mi].members@.contains(ms0[mi].members@[0]));
                    assert forall|pr: (usize, Id)|
                        ms0[mi].members@.to_set().contains(pr) implies pr == (e, t) by {
                        let k3 = choose|k3: int|
                            0 <= k3 < ms0[mi].members@.len() && ms0[mi].members@[k3] == pr;
                        assert(ms0[mi].members@[0] == pr);
                        assert(ms0[mi].members@.to_set().contains((e, t)));
                        let k4 = choose|k4: int|
                            0 <= k4 < ms0[mi].members@.len() && ms0[mi].members@[k4] == (e, t);
                        assert(ms0[mi].members@[0] == (e, t));
                    }
                }
                assert(mgr_pairs(es0, s, mt) =~= set![(e, t)]);
                assert(mgr_pairs(es, s, mt) =~= Set::<(usize, Id)>::empty()) by {
                    assert(mgr_pairs(es, s, mt) == mgr_pairs(es0, s, mt).remove((e, t)));
                }
            }
            assert forall|j: int| 0 <= j < w.scenes@.len() implies #[trigger] w.scene_ok(j) by {
                assert(w0.scene_ok(j));
                lemma_roots_and_edges_carry(w0, w, j, e);
                if j != s as int {
                    assert(w.scenes@[j] == w0.scenes@[j]);
                    assert forall|m: int|
                        0 <= m < w.scenes@[j].managers@.len() implies #[trigger] w.manager_ok(
                        j,
                        m,
                    ) by {
                        assert(w0.manager_ok(j, m));
                        let mt2 = w.scenes@[j].managers@[m].type_id;
                        assert(mgr_pairs(es, j as usize, mt2) == mgr_pairs(es0, j as usize, mt2));
                    }
                    assert forall|i: int, k: int|
                        0 <= i < es.len() && es[i].scene == Some(j as usize) && 0 <= k
                            < es[i].components@.len() implies w.scenes@[j].spec_has_manager(
                        (#[trigger] es[i].components@[k]).manager_type_id,
                    ) by {
                        assert(i != e as int) by {
                            if i == e as int {
                                assert(es[i].scene == Some(s));
                            }
                        }
                        assert(es[i].components@ == es0[i].components@);
                        assert(w0.manager_coverage_ok(j));
                        assert(w0.scenes@[j].spec_has_manager(
                            es0[i].components@[k].manager_type_id,
                        ));
                    }
                } else {
                    // distinctness
                    assert forall|m1: int, m2: int|
                        0 <= m1 < m2 < ms.len() implies ms[m1].type_id != ms[m2].type_id by {
                        assert(w0.scenes@[j].managers_distinct());
                        if destroyed {
                            let n1: int = if m1 < mi {
                                m1
                            } else {
                                m1 + 1
                            };
                            let n2: int = if m2 < mi {
                                m2
                            } else {
                                m2 + 1
                            };
                            assert(ms[m1] == ms0[n1]);
                            assert(ms[m2] == ms0[n2]);
                        } else {
                            assert(ms[m1].type_id == ms0[m1].type_id);
                            assert(ms[m2].type_id == ms0[m2].type_id);
                        }
                    }
                    // member synchronization
                    assert forall|m: int| 0 <= m < ms.len() implies #[trigger] w.manager_ok(j, m)
                        by {
                        if destroyed {
                            let n: int = if m < mi {
                                m
                            } else {
                                m + 1
                            };
                            assert(ms[m] == ms0[n]);
                            assert(w0.manager_ok(j, n));
                            assert(ms0[n].type_id != mt);
                            assert(mgr_pairs(es, s, ms0[n].type_id) == mgr_pairs(
                                es0,
                                s,
                                ms0[n].type_id,
                            ));
                        } else {
                            if m == mi {
                                let pos = choose|pos: int|
                                    0 <= pos < ms0[mi].members@.len() && ms0[mi].members@[pos] == (
                                    e,
                                    t,
                                ) && ms[mi].members@ == ms0[mi].members@.remove(pos);
                                crate::seqs::lemma_remove_to_set(ms0[mi].members@, pos);
                                crate::seqs::lemma_remove_no_dup(ms0[mi].members@, pos);
                                assert(ms[mi].members@.to_set() == ms0[mi].members@.to_set().remove(
                                    (e, t),
                                ));
                                assert(ms[mi].members@.to_set() =~= mgr_pairs(es, s, mt));
                                assert(ms[mi].members@.len() == ms0[mi].members@.len() - 1);
                            } else {
                                assert(ms[m] == ms0[m]);
                                assert(w0.manager_ok(j, m));
                                assert(ms0[m].type_id != mt) by {
                                    assert(w0.scenes@[j].managers_distinct());
                                }
                                assert(mgr_pairs(es, s, ms0[m].type_id) == mgr_pairs(
                                    es0,
                                    s,
                                    ms0[m].type_id,
                                ));
                            }
                        }
                    }
                    // coverage
                    assert forall|i: int, k: int|
                        0 <= i < es.len() && es[i].scene == Some(j as usize) && 0 <= k
                            < es[i].components@.len() implies w.scenes@[j].spec_has_manager(
                        (#[trigger] es[i].components@[k]).manager_type_id,
                    ) by {
                        let mt2 = es[i].components@[k].manager_type_id;
                        let okk: int = if i == e as int {
                            if k < k0 {
                                k
                            } else {
                                k + 1
                            }
                        } else {
                            k
                        };
                        assert(es[i].components@[k] == es0[i].components@[okk]);
                        assert(w0.manager_coverage_ok(j));
                        assert(w0.scenes@[j].spec_has_manager(mt2));
                        let m0 = choose|m0: int| 0 <= m0 < ms0.len() && ms0[m0].type_id == mt2;
                        if destroyed {
                            if mt2 == mt {
                                // the destroyed manager had only the removed pair
                                let tid2 = es[i].components@[k].type_id;
                                assert(es0[i].has_component_with_manager(tid2, mt));
                                assert(mgr_pairs(es0, s, mt).contains((i as usize, tid2)));
                                assert((i as usize, tid2) == (e, t));
                                assert(okk != k0);
                                assert(es0[e as int].components_distinct());
                                assert(es0[e as int].components@[okk].type_id
                                    != es0[e as int].components@[k0].type_id);
                                assert(false);
                            } else {
                                assert(m0 != mi);
                                let m: int = if m0 < mi {
                                    m0
                                } else {
                                    m0 - 1
                                };
                                assert(ms[m] == ms0[m0]);
                            }
                        } else {
                            assert(ms[m0].type_id == ms0[m0].type_id);
                        }
                    }
                }
            }
            // provenance
            assert(w.mgrs_from(w0.scenes@[s as int], s)) by {
                let s0 = w0.scenes@[s as int];
                assert forall|m: int| 0 <= m < ms.len() implies {
                    let mgr = #[trigger] w.scenes@[s as int].managers@[m];
                    s0.spec_has_manager(mgr.type_id) && mgr_same_meta(
                        s0.managers@[s0.manager_index(mgr.type_id)],
                        mgr,
                    )
                } by {
                    assert(s0.managers_distinct());
                    if destroyed {
                        let n: int = if m < mi {
                            m
                        } else {
                            m + 1
                        };
                        assert(ms[m] == ms0[n]);
                        assert(s0.spec_has_manager(ms0[n].type_id));
                        let mi0 = s0.manager_index(ms0[n].type_id);
                        assert(s0.managers@[mi0].type_id == ms0[n].type_id);
                        assert(mi0 == n);
                    } else {
                        if m == mi {
                            assert(mgr_same_meta(ms0[mi], ms[mi]));
                            assert(s0.spec_has_manager(mt));
                            let mi0 = s0.manager_index(mt);
                            assert(s0.managers@[mi0].type_id == mt);
                            assert(mi0 == mi);
                        } else {
                            assert(ms[m] == ms0[m]);
                            assert(s0.spec_has_manager(ms0[m].type_id));
                            let mi0 = s0.manager_index(ms0[m].type_id);
                            assert(s0.managers@[mi0].type_id == ms0[m].type_id);
                            assert(mi0 == m);
                        }
                    }
                }
            }
        },
    }
}

/// Root lists and root coverage carry over when no parent or scene field
/// changes and the root list itself is untouched.
proof fn lemma_roots_and_edges_carry<P>(w0: World<P>, w: World<P>, j: int, e: usize)
    requires
        w0.wf(),
        0 <= j < w0.scenes@.len(),
        j < w.scenes@.len(),
        w.es().len() == w0.es().len(),
        forall|i: int|
            0 <= i < w0.es().len() ==> w.es()[i].parent == w0.es()[i].parent && w.es()[i].scene
                == w0.es()[i].scene,
        w.scenes@[j].roots == w0.scenes@[j].roots,
        w.scenes@[j].plugins == w0.scenes@[j].plugins,
    ensures
        w.roots_ok(j),
        w.root_coverage_ok(j),
        w.plugins_ok(j),
{
    assert(w0.scene_ok(j));
    assert(w.scenes@[j].plugins@ == w0.scenes@[j].plugins@);
    assert forall|k: int| 0 <= k < w.scenes@[j].plugins@.len() implies (
    #[trigger] w.scenes@[j].plugins@[k]).scene == Some(j as usize) by {
        assert(w0.scenes@[j].plugins@[k].scene == Some(j as usize));
    }
    assert forall|k1: int, k2: int|
        0 <= k1 < k2 < w.scenes@[j].plugins@.len() implies w.scenes@[j].plugins@[k1].id
        != w.scenes@[j].plugins@[k2].id by {
        assert(w0.scenes@[j].plugins_distinct());
        assert(w.scenes@[j].plugins@[k1] == w0.scenes@[j].plugins@[k1]);
        assert(w.scenes@[j].plugins@[k2] == w0.scenes@[j].plugins@[k2]);
    }
    assert forall|k: int| 0 <= k < w.scenes@[j].roots@.len() implies (
    #[trigger] w.scenes@[j].roots@[k]) < w.es().len()
        && w.es()[w.scenes@[j].roots@[k] as int].parent is None
        && w.es()[w.scenes@[j].roots@[k] as int].scene == Some(j as usize) by {
        let x = w0.scenes@[j].roots@[k] as int;
        assert(x < w0.es().len() && w0.es()[x].parent is None && w0.es()[x].scene == Some(
            j as usize,
        ));
    }
    assert forall|i: int|
        0 <= i < w.es().len() && (#[trigger] w.es()[i]).scene == Some(j as usize)
            && w.es()[i].parent is None implies w.scenes@[j].roots@.contains(i as usize) by {
        assert(w0.es()[i].scene == Some(j as usize));
        assert(w0.es()[i].parent is None);
        assert(w0.scenes@[j].roots@.contains(i as usize));
    }
}

} // verus!
