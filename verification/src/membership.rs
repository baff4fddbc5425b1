//! Scene membership of single entities: deregistering and registering one
//! entity's components with a scene's managers while flipping its scene
//! reference.

use vstd::prelude::*;
use crate::id::Id;
use crate::managers::{
    comp_pairs_range, lemma_mgr_pairs_flip, lemma_range_congruent, lemma_range_empty,
    lemma_range_snoc, lemma_range_step, lemma_range_zero, mgr_same_meta,
};
use crate::seqs::{lemma_push_to_set, lemma_remove_to_set};
use crate::world::{mgr_pairs, World};

verus! {

impl<P> World<P> {
    /// Every manager of scene `s` keeps the meta-data (type, order, scene,
    /// callback counters) of the manager of its type that scene state `s0`
    /// already had.
    pub open spec fn mgrs_from(self, s0: crate::scene::Scene, s: usize) -> bool {
        forall|m: int|
            0 <= m < self.scenes@[s as int].managers@.len() ==> {
                let mgr = #[trigger] self.scenes@[s as int].managers@[m];
                s0.spec_has_manager(mgr.type_id) && mgr_same_meta(
                    s0.managers@[s0.manager_index(mgr.type_id)],
                    mgr,
                )
            }
    }

    /// Takes entity `x` out of scene `s`: every component of `x` is removed
    /// from its manager (a manager emptied this way is destroyed), and `x`'s
    /// scene reference is cleared.  Nothing else changes; in particular the
    /// scene's root list is left to the caller.
    pub(crate) fn unregister_entity(&mut self, x: usize, s: usize)
        requires
            old(self).valid_entity(x as int),
            (s as int) < old(self).scenes@.len(),
            old(self).es()[x as int].scene == Some(s),
            old(self).es()[x as int].components_distinct(),
            old(self).scene_mgr_wf(s),
        ensures
            final(self).es().len() == old(self).es().len(),
            forall|i: int|
                0 <= i < old(self).es().len() && i != x ==> final(self).es()[i] == old(
                    self,
                ).es()[i],
            final(self).es()[x as int].scene is None,
            final(self).es()[x as int].parent == old(self).es()[x as int].parent,
            final(self).es()[x as int].depth == old(self).es()[x as int].depth,
            final(self).es()[x as int].children == old(self).es()[x as int].children,
            final(self).es()[x as int].components == old(self).es()[x as int].components,
            final(self).scenes@.len() == old(self).scenes@.len(),
            forall|j: int|
                0 <= j < old(self).scenes@.len() && j != s ==> final(self).scenes@[j] == old(
                    self,
                ).scenes@[j],
            final(self).scenes@[s as int].initted == old(self).scenes@[s as int].initted,
            final(self).scenes@[s as int].ticks == old(self).scenes@[s as int].ticks,
            final(self).scenes@[s as int].roots == old(self).scenes@[s as int].roots,
            final(self).scenes@[s as int].plugins == old(self).scenes@[s as int].plugins,
            final(self).scene_mgr_wf(s),
            final(self).mgrs_from(old(self).scenes@[s as int], s),
    {
        let ghost w0 = *self;
        self.entities[x].scene = None;
        let ghost w1 = *self;
        proof {
            lemma_mgr_pairs_flip(w0.es(), w1.es(), x, s);
        }
        let ghost ent = w1.es()[x as int];
        let ncomps = self.entities[x].components.len();
        proof {
            lemma_range_congruent(w0.es()[x as int], ent, x, 0, ncomps as int);
            assert forall|m: int|
                0 <= m < self.scenes@[s as int].managers@.len() implies {
                let mgr = #[trigger] self.scenes@[s as int].managers@[m];
                &&& mgr.scene == Some(s)
                &&& mgr.members@.no_duplicates()
                &&& mgr.members@.len() > 0
                &&& mgr.members@.to_set() == mgr_pairs(w1.es(), s, mgr.type_id) + comp_pairs_range(
                    ent,
                    x,
                    0,
                    ncomps as int,
                    mgr.type_id,
                )
            } by {
                assert(w0.manager_ok(s as int, m));
                assert(self.scenes@[s as int].managers@[m] == w0.scenes@[s as int].managers@[m]);
            }
            assert(self.mgrs_from(w0.scenes@[s as int], s)) by {
                let s0 = w0.scenes@[s as int];
                assert forall|m: int|
                    0 <= m < self.scenes@[s as int].managers@.len() implies {
                    let mgr = #[trigger] self.scenes@[s as int].managers@[m];
                    s0.spec_has_manager(mgr.type_id) && mgr_same_meta(
                        s0.managers@[s0.manager_index(mgr.type_id)],
                        mgr,
                    )
                } by {
                    let mgr = self.scenes@[s as int].managers@[m];
                    assert(s0.managers@[m] == mgr);
                    assert(s0.spec_has_manager(mgr.type_id));
                    let mi0 = s0.manager_index(mgr.type_id);
                    assert(s0.managers@[mi0].type_id == mgr.type_id);
                    assert(s0.managers_distinct());
                    assert(mi0 == m);
                    assert(mgr_same_meta(s0.managers@[mi0], mgr));
                }
            }
            assert forall|i: int, k3: int|
                0 <= i < self.es().len() && self.es()[i].scene == Some(s) && 0 <= k3
                    < self.es()[i].components@.len() implies self.scenes@[s as int].spec_has_manager(
                (#[trigger] self.es()[i].components@[k3]).manager_type_id,
            ) by {
                assert(i != x as int);
                assert(w0.es()[i] == self.es()[i]);
                assert(w0.manager_coverage_ok(s as int));
                let mt3 = w0.es()[i].components@[k3].manager_type_id;
                assert(w0.scenes@[s as int].spec_has_manager(mt3));
                let m0 = choose|m0: int|
                    0 <= m0 < w0.scenes@[s as int].managers@.len()
                        && w0.scenes@[s as int].managers@[m0].type_id == mt3;
                assert(self.scenes@[s as int].managers@[m0].type_id == mt3);
            }
        }
        let mut k: usize = 0;
        while k < ncomps
            invariant
                x < w1.es().len(),
                (s as int) < w1.scenes@.len(),
                w1.scenes@.len() == w0.scenes@.len(),
                ent == w1.es()[x as int],
                ent.scene is None,
                ent.components_distinct(),
                ncomps == ent.components@.len(),
                k <= ncomps,
                self.entities == w1.entities,
                self.scenes@.len() == w1.scenes@.len(),
                w1.scenes@[s as int] == w0.scenes@[s as int],
                forall|j: int|
                    0 <= j < w1.scenes@.len() && j != s ==> self.scenes@[j] == w1.scenes@[j],
                self.scenes@[s as int].initted == w1.scenes@[s as int].initted,
                self.scenes@[s as int].ticks == w1.scenes@[s as int].ticks,
                self.scenes@[s as int].roots == w1.scenes@[s as int].roots,
                self.scenes@[s as int].plugins == w1.scenes@[s as int].plugins,
                self.scenes@[s as int].managers_distinct(),
                forall|m: int|
                    0 <= m < self.scenes@[s as int].managers@.len() ==> {
                        let mgr = #[trigger] self.scenes@[s as int].managers@[m];
                        &&& mgr.scene == Some(s)
                        &&& mgr.members@.no_duplicates()
                        &&& mgr.members@.len() > 0
                        &&& mgr.members@.to_set() == mgr_pairs(w1.es(), s, mgr.type_id)
                            + comp_pairs_range(ent, x, k as int, ncomps as int, mgr.type_id)
                    },
                self.manager_coverage_ok(s as int),
                forall|k2: int|
                    k <= k2 < ncomps ==> self.scenes@[s as int].spec_has_manager(
                        (#[trigger] ent.components@[k2]).manager_type_id,
                    ),
                self.mgrs_from(w0.scenes@[s as int], s),
            decreases ncomps - k,
        {
            let tid = self.entities[x].components[k].type_id;
            let mt = self.entities[x].components[k].manager_type_id;
            let ghost pre = *self;
            proof {
                assert(ent.components@[k as int].type_id == tid);
                assert(ent.components@[k as int].manager_type_id == mt);
                assert(pre.scenes@[s as int].spec_has_manager(mt));
                let mi = pre.scenes@[s as int].manager_index(mt);
                assert(0 <= mi < pre.scenes@[s as int].managers@.len()
                    && pre.scenes@[s as int].managers@[mi].type_id == mt);
                // the pair to remove is registered
                assert(comp_pairs_range(ent, x, k as int, ncomps as int, mt).contains((x, tid)));
                assert(pre.scenes@[s as int].managers@[mi].members@.to_set().contains((x, tid)));
            }
            self.unregister_pair(s, x, tid, mt);
            proof {
                let ghost ms0 = pre.scenes@[s as int].managers@;
                let ghost ms = self.scenes@[s as int].managers@;
                let mi = pre.scenes@[s as int].manager_index(mt);
                lemma_range_step(ent, x, k as int, mt);
                // the removed pair is in no registered set: `x` is sceneless
                assert forall|mt2: Id| !(#[trigger] mgr_pairs(w1.es(), s, mt2).contains(
                    (x, tid),
                )) by {
                    assert(w1.es()[x as int].scene is None);
                }
                if ms0[mi].members@.len() == 1 {
                    // the manager of `mt` was destroyed
                    assert(ms == ms0.remove(mi));
                    ms0.remove_ensures(mi);
                    assert(ms0[mi].members@.to_set() == mgr_pairs(w1.es(), s, mt)
                        + comp_pairs_range(ent, x, k as int, ncomps as int, mt));
                    assert(ms0[mi].members@.to_set() =~= set![(x, tid)]) by {
                        assert(ms0[mi].members@.contains(ms0[mi].members@[0]));
                        assert(ms0[mi].members@[0] == (x, tid)) by {
                            assert(ms0[mi].members@.to_set().contains((x, tid)));
                        }
                        assert forall|pr: (usize, Id)|
                            ms0[mi].members@.to_set().contains(pr) implies pr == (x, tid) by {
                            let k3 = choose|k3: int|
                                0 <= k3 < ms0[mi].members@.len() && ms0[mi].members@[k3] == pr;
                        }
                    }
                    assert(mgr_pairs(w1.es(), s, mt) =~= Set::<(usize, Id)>::empty()) by {
                        assert forall|pr: (usize, Id)|
                            !(#[trigger] mgr_pairs(w1.es(), s, mt).contains(pr)) by {
                            if mgr_pairs(w1.es(), s, mt).contains(pr) {
                                assert(ms0[mi].members@.to_set().contains(pr));
                                assert(pr == (x, tid));
                            }
                        }
                    }
                    assert(comp_pairs_range(ent, x, k as int + 1, ncomps as int, mt)
                        =~= Set::<(usize, Id)>::empty()) by {
                        assert forall|pr: (usize, Id)|
                            !(#[trigger] comp_pairs_range(ent, x, k as int + 1, ncomps as int,
                            mt).contains(pr)) by {
                            if comp_pairs_range(ent, x, k as int + 1, ncomps as int, mt).contains(
                                pr,
                            ) {
                                assert(comp_pairs_range(ent, x, k as int, ncomps as int,
                                    mt).contains(pr));
                                assert(ms0[mi].members@.to_set().contains(pr));
                                assert(pr == (x, tid));
                            }
                        }
                    }
                    // remaining managers keep their registered sets
                    assert forall|m: int| 0 <= m < ms.len() implies {
                        let mgr = #[trigger] ms[m];
                        &&& mgr.scene == Some(s)
                        &&& mgr.members@.no_duplicates()
                        &&& mgr.members@.len() > 0
                        &&& mgr.members@.to_set() == mgr_pairs(w1.es(), s, mgr.type_id)
                            + comp_pairs_range(ent, x, k as int + 1, ncomps as int, mgr.type_id)
                    } by {
                        let m0: int = if m < mi {
                            m
                        } else {
                            m + 1
                        };
                        assert(ms[m] == ms0[m0]);
                        assert(ms0[m0].type_id != mt);
                        lemma_range_step(ent, x, k as int, ms0[m0].type_id);
                    }
                    // distinctness survives the removal
                    assert forall|m1: int, m2: int|
                        0 <= m1 < m2 < ms.len() implies ms[m1].type_id != ms[m2].type_id by {
                        let n1: int = if m1 < mi {
                            m1
                        } else {
                            m1 + 1
                        };
                        let n2: int = if m2 < mi {
                            m2
                        } else {
                            m2 + 1
                        };
                        assert(ms[m1] == ms0[n1]);
                        assert(ms[m2] == ms0[n2]);
                    }
                    // coverage survives: the destroyed type has no users left
                    assert forall|i: int, k3: int|
                        0 <= i < self.es().len() && self.es()[i].scene == Some(s) && 0 <= k3
                            < self.es()[i].components@.len() implies self.scenes@[s as int].spec_has_manager(
                        (#[trigger] self.es()[i].components@[k3]).manager_type_id,
                    ) by {
                        let mt2 = self.es()[i].components@[k3].manager_type_id;
                        assert(pre.es() == self.es());
                        assert(pre.scenes@[s as int].spec_has_manager(mt2));
                        let m0 = choose|m0: int|
                            0 <= m0 < ms0.len() && ms0[m0].type_id == mt2;
                        if mt2 == mt {
                            vstd::std_specs::vec::axiom_spec_len(&self.entities);
                            assert(self.es() == w1.es());
                            let t3 = w1.es()[i].components@[k3].type_id;
                            assert(w1.es()[i].has_component_with_manager(t3, mt));
                            assert(mgr_pairs(w1.es(), s, mt).contains((i as usize, t3)));
                            assert(false);
                        } else {
                            let m: int = if m0 < mi {
                                m0
                            } else {
                                m0 - 1
                            };
                            assert(ms[m] == ms0[m0]);
                        }
                    }
                    // the remaining components of `x` still have managers
                    assert forall|k2: int|
                        k + 1 <= k2 < ncomps implies self.scenes@[s as int].spec_has_manager(
                        (#[trigger] ent.components@[k2]).manager_type_id,
                    ) by {
                        let mt2 = ent.components@[k2].manager_type_id;
                        if mt2 == mt {
                            assert(comp_pairs_range(ent, x, k as int + 1, ncomps as int,
                                mt).contains((x, ent.components@[k2].type_id)));
                            assert(false);
                        } else {
                            assert(pre.scenes@[s as int].spec_has_manager(mt2));
                            let m0 = choose|m0: int|
                                0 <= m0 < ms0.len() && ms0[m0].type_id == mt2;
                            let m: int = if m0 < mi {
                                m0
                            } else {
                                m0 - 1
                            };
                            assert(ms[m] == ms0[m0]);
                        }
                    }
                    // meta survives
                    assert(self.mgrs_from(w0.scenes@[s as int], s)) by {
                        let s0 = w0.scenes@[s as int];
                        assert forall|m: int| 0 <= m < ms.len() implies {
                            let mgr = #[trigger] self.scenes@[s as int].managers@[m];
                            s0.spec_has_manager(mgr.type_id) && mgr_same_meta(
                                s0.managers@[s0.manager_index(mgr.type_id)],
                                mgr,
                            )
                        } by {
                            let n: int = if m < mi {
                                m
                            } else {
                                m + 1
                            };
                            assert(self.scenes@[s as int].managers@[m] == ms0[n]);
                            assert(pre.mgrs_from(s0, s));
                            assert(pre.scenes@[s as int].managers@[n] == ms0[n]);
                        }
                    }
                } else {
                    // the manager of `mt` merely shrinks
                    let pos = choose|pos: int|
                        0 <= pos < ms0[mi].members@.len() && ms0[mi].members@[pos] == (x, tid)
                            && ms[mi].members@ == ms0[mi].members@.remove(pos);
                    lemma_remove_to_set(ms0[mi].members@, pos);
                    assert(ms[mi].members@.to_set() == ms0[mi].members@.to_set().remove((x, tid)));
                    crate::seqs::lemma_remove_no_dup(ms0[mi].members@, pos);
                    assert(ms[mi].members@.to_set() =~= mgr_pairs(w1.es(), s, mt)
                        + comp_pairs_range(ent, x, k as int + 1, ncomps as int, mt));
                    assert(ms[mi].members@.len() > 0) by {
                        assert(ms[mi].members@.len() == ms0[mi].members@.len() - 1);
                    }
                    assert forall|m: int| 0 <= m < ms.len() implies {
                        let mgr = #[trigger] ms[m];
                        &&& mgr.scene == Some(s)
                        &&& mgr.members@.no_duplicates()
                        &&& mgr.members@.len() > 0
                        &&& mgr.members@.to_set() == mgr_pairs(w1.es(), s, mgr.type_id)
                            + comp_pairs_range(ent, x, k as int + 1, ncomps as int, mgr.type_id)
                    } by {
                        if m != mi {
                            assert(ms[m] == ms0[m]);
                            assert(ms0[m].type_id != mt) by {
                                assert(pre.scenes@[s as int].managers_distinct());
                            }
                            lemma_range_step(ent, x, k as int, ms0[m].type_id);
                        } else {
                            assert(mgr_same_meta(ms0[mi], ms[mi]));
                        }
                    }
                    assert forall|m1: int, m2: int|
                        0 <= m1 < m2 < ms.len() implies ms[m1].type_id != ms[m2].type_id by {
                        assert(ms[m1].type_id == ms0[m1].type_id);
                        assert(ms[m2].type_id == ms0[m2].type_id);
                    }
                    assert forall|i: int, k3: int|
                        0 <= i < self.es().len() && self.es()[i].scene == Some(s) && 0 <= k3
                            < self.es()[i].components@.len() implies self.scenes@[s as int].spec_has_manager(
                        (#[trigger] self.es()[i].components@[k3]).manager_type_id,
                    ) by {
                        let mt2 = self.es()[i].components@[k3].manager_type_id;
                        assert(pre.es() == self.es());
                        assert(pre.scenes@[s as int].spec_has_manager(mt2));
                        let m0 = choose|m0: int|
                            0 <= m0 < ms0.len() && ms0[m0].type_id == mt2;
                        assert(ms[m0].type_id == ms0[m0].type_id);
                    }
                    assert forall|k2: int|
                        k + 1 <= k2 < ncomps implies self.scenes@[s as int].spec_has_manager(
                        (#[trigger] ent.components@[k2]).manager_type_id,
                    ) by {
                        let mt2 = ent.components@[k2].manager_type_id;
                        assert(pre.scenes@[s as int].spec_has_manager(mt2));
                        let m0 = choose|m0: int|
                            0 <= m0 < ms0.len() && ms0[m0].type_id == mt2;
                        assert(ms[m0].type_id == ms0[m0].type_id);
                    }
                    assert(self.mgrs_from(w0.scenes@[s as int], s)) by {
                        let s0 = w0.scenes@[s as int];
                        assert forall|m: int| 0 <= m < ms.len() implies {
                            let mgr = #[trigger] self.scenes@[s as int].managers@[m];
                            s0.spec_has_manager(mgr.type_id) && mgr_same_meta(
                                s0.managers@[s0.manager_index(mgr.type_id)],
                                mgr,
                            )
                        } by {
                            assert(pre.mgrs_from(s0, s));
                            assert(pre.scenes@[s as int].managers@[m] == ms0[m]);
                            if m == mi {
                                assert(mgr_same_meta(ms0[mi], ms[mi]));
                                assert(ms[mi].type_id == ms0[mi].type_id);
                            } else {
                                assert(ms[m] == ms0[m]);
                            }
                        }
                    }
                }
            }
            k = k + 1;
        }
        proof {
            assert forall|m: int|
                0 <= m < self.scenes@[s as int].managers@.len() implies #[trigger] self.manager_ok(
                s as int,
                m,
            ) by {
                let mgr = self.scenes@[s as int].managers@[m];
                lemma_range_empty(ent, x, mgr.type_id);
                assert(mgr.members@.to_set() =~= mgr_pairs(w1.es(), s, mgr.type_id));
                assert(self.es() == w1.es());
            }
        }
    }

    /// A manager that did not come from scene state `s0` is freshly created:
    /// no manager of its type existed, it has seen no `update`, and its one
    /// `init` call has happened iff the scene was already initialized.
    pub open spec fn mgrs_from_or_fresh(self, s0: crate::scene::Scene, s: usize) -> bool {
        forall|m: int|
            0 <= m < self.scenes@[s as int].managers@.len() ==> {
                let mgr = #[trigger] self.scenes@[s as int].managers@[m];
                if s0.spec_has_manager(mgr.type_id) {
                    mgr_same_meta(s0.managers@[s0.manager_index(mgr.type_id)], mgr)
                } else {
                    &&& mgr.update_calls == 0
                    &&& mgr.init_calls == if s0.initted {
                        1u64
                    } else {
                        0u64
                    }
                }
            }
    }

    /// Puts entity `x` into scene `s`: every component of `x` is registered
    /// with the manager of its type — the manager is created on the first
    /// registration of its type, with one immediate `init` call if the scene
    /// is already initialized — and `x`'s scene reference is set.  Nothing
    /// else changes; the scene's root list is left to the caller.
    pub(crate) fn register_entity(&mut self, x: usize, s: usize)
        requires
            old(self).valid_entity(x as int),
            (s as int) < old(self).scenes@.len(),
            old(self).es()[x as int].scene is None,
            old(self).es()[x as int].components_distinct(),
            old(self).scene_mgr_wf(s),
        ensures
            final(self).es().len() == old(self).es().len(),
            forall|i: int|
                0 <= i < old(self).es().len() && i != x ==> final(self).es()[i] == old(
                    self,
                ).es()[i],
            final(self).es()[x as int].scene == Some(s),
            final(self).es()[x as int].parent == old(self).es()[x as int].parent,
            final(self).es()[x as int].depth == old(self).es()[x as int].depth,
            final(self).es()[x as int].children == old(self).es()[x as int].children,
            final(self).es()[x as int].components == old(self).es()[x as int].components,
            final(self).scenes@.len() == old(self).scenes@.len(),
            forall|j: int|
                0 <= j < old(self).scenes@.len() && j != s ==> final(self).scenes@[j] == old(
                    self,
                ).scenes@[j],
            final(self).scenes@[s as int].initted == old(self).scenes@[s as int].initted,
            final(self).scenes@[s as int].ticks == old(self).scenes@[s as int].ticks,
            final(self).scenes@[s as int].roots == old(self).scenes@[s as int].roots,
            final(self).scenes@[s as int].plugins == old(self).scenes@[s as int].plugins,
            final(self).scene_mgr_wf(s),
            final(self).mgrs_from_or_fresh(old(self).scenes@[s as int], s),
            forall|m0: int|
                0 <= m0 < old(self).scenes@[s as int].managers@.len() ==> final(self).scenes@[s as int].spec_has_manager(
                    (#[trigger] old(self).scenes@[s as int].managers@[m0]).type_id,
                ),
    {
        let ghost w0 = *self;
        let ghost ent = w0.es()[x as int];
        let ncomps = self.entities[x].components.len();
        proof {
            lemma_range_zero(ent, x);
            assert forall|m: int|
                0 <= m < self.scenes@[s as int].managers@.len() implies {
                let mgr = #[trigger] self.scenes@[s as int].managers@[m];
                &&& mgr.scene == Some(s)
                &&& mgr.members@.no_duplicates()
                &&& mgr.members@.len() > 0
                &&& mgr.members@.to_set() == mgr_pairs(w0.es(), s, mgr.type_id) + comp_pairs_range(
                    ent,
                    x,
                    0,
                    0,
                    mgr.type_id,
                )
            } by {
                assert(w0.manager_ok(s as int, m));
                assert(mgr_pairs(w0.es(), s, self.scenes@[s as int].managers@[m].type_id)
                    + comp_pairs_range(ent, x, 0, 0, self.scenes@[s as int].managers@[m].type_id)
                    =~= mgr_pairs(w0.es(), s, self.scenes@[s as int].managers@[m].type_id));
            }
            assert(self.mgrs_from_or_fresh(w0.scenes@[s as int], s)) by {
                let s0 = w0.scenes@[s as int];
                assert forall|m: int|
                    0 <= m < self.scenes@[s as int].managers@.len() implies {
                    let mgr = #[trigger] self.scenes@[s as int].managers@[m];
                    if s0.spec_has_manager(mgr.type_id) {
                        mgr_same_meta(s0.managers@[s0.manager_index(mgr.type_id)], mgr)
                    } else {
                        &&& mgr.update_calls == 0
                        &&& mgr.init_calls == if s0.initted {
                            1u64
                        } else {
                            0u64
                        }
                    }
                } by {
                    let mgr = self.scenes@[s as int].managers@[m];
                    assert(s0.managers@[m] == mgr);
                    assert(s0.spec_has_manager(mgr.type_id));
                    let mi0 = s0.manager_index(mgr.type_id);
                    assert(s0.managers@[mi0].type_id == mgr.type_id);
                    assert(s0.managers_distinct());
                    assert(mi0 == m);
                }
            }
        }
        let mut k: usize = 0;
        while k < ncomps
            invariant
                x < w0.es().len(),
                (s as int) < w0.scenes@.len(),
                ent == w0.es()[x as int],
                ent.scene is None,
                ent.components_distinct(),
                ncomps == ent.components@.len(),
                k <= ncomps,
                forall|m0: int|
                    0 <= m0 < w0.scenes@[s as int].managers@.len()
                        ==> self.scenes@[s as int].spec_has_manager(
                        (#[trigger] w0.scenes@[s as int].managers@[m0]).type_id,
                    ),
                self.entities == w0.entities,
                self.scenes@.len() == w0.scenes@.len(),
                forall|j: int|
                    0 <= j < w0.scenes@.len() && j != s ==> self.scenes@[j] == w0.scenes@[j],
                self.scenes@[s as int].initted == w0.scenes@[s as int].initted,
                self.scenes@[s as int].ticks == w0.scenes@[s as int].ticks,
                self.scenes@[s as int].roots == w0.scenes@[s as int].roots,
                self.scenes@[s as int].plugins == w0.scenes@[s as int].plugins,
                self.scenes@[s as int].managers_distinct(),
                forall|m: int|
                    0 <= m < self.scenes@[s as int].managers@.len() ==> {
                        let mgr = #[trigger] self.scenes@[s as int].managers@[m];
                        &&& mgr.scene == Some(s)
                        &&& mgr.members@.no_duplicates()
                        &&& mgr.members@.len() > 0
                        &&& mgr.members@.to_set() == mgr_pairs(w0.es(), s, mgr.type_id)
                            + comp_pairs_range(ent, x, 0, k as int, mgr.type_id)
                    },
                self.manager_coverage_ok(s as int),
                forall|k2: int|
                    0 <= k2 < k ==> self.scenes@[s as int].spec_has_manager(
                        (#[trigger] ent.components@[k2]).manager_type_id,
                    ),
                self.mgrs_from_or_fresh(w0.scenes@[s as int], s),
            decreases ncomps - k,
        {
            let tid = self.entities[x].components[k].type_id;
            let mt = self.entities[x].components[k].manager_type_id;
            let ord = self.entities[x].components[k].manager_order;
            let ghost pre = *self;
            proof {
                assert(ent.components@[k as int].type_id == tid);
                assert(ent.components@[k as int].manager_type_id == mt);
                lemma_range_snoc(ent, x, k as int, mt);
                // the pair is in no member list yet: `x` is sceneless and
                // `tid` does not occur before position `k`
                assert forall|m: int|
                    0 <= m < pre.scenes@[s as int].managers@.len() implies !(
                #[trigger] pre.scenes@[s as int].managers@[m]).members@.contains((x, tid)) by {
                    let mgr = pre.scenes@[s as int].managers@[m];
                    if mgr.members@.contains((x, tid)) {
                        assert(mgr.members@.to_set().contains((x, tid)));
                        if mgr_pairs(w0.es(), s, mgr.type_id).contains((x, tid)) {
                            assert(w0.es()[x as int].scene is None);
                        }
                        if comp_pairs_range(ent, x, 0, k as int, mgr.type_id).contains((x, tid)) {
                            let k2 = choose|k2: int|
                                0 <= k2 < k && 0 <= k2 < ent.components@.len()
                                    && ent.components@[k2].type_id == tid
                                    && ent.components@[k2].manager_type_id == mgr.type_id;
                            assert(ent.components@[k2].type_id != ent.components@[k as int].type_id);
                        }
                    }
                }
            }
            let created = self.register_pair(s, x, tid, mt, ord);
            proof {
                let ghost ms0 = pre.scenes@[s as int].managers@;
                let ghost ms = self.scenes@[s as int].managers@;
                let ghost s0 = w0.scenes@[s as int];
                if created {
                    // a fresh manager: its type had no registered pairs at all
                    assert(ms.len() == ms0.len() + 1);
                    assert(!pre.scenes@[s as int].spec_has_manager(mt));
                    assert(mgr_pairs(w0.es(), s, mt) =~= Set::<(usize, Id)>::empty()) by {
                        assert forall|pr: (usize, Id)|
                            !(#[trigger] mgr_pairs(w0.es(), s, mt).contains(pr)) by {
                            if mgr_pairs(w0.es(), s, mt).contains(pr) {
                                let i = pr.0 as int;
                                let k3 = choose|k3: int|
                                    0 <= k3 < w0.es()[i].components@.len()
                                        && w0.es()[i].components@[k3].type_id == pr.1
                                        && w0.es()[i].components@[k3].manager_type_id == mt;
                                assert(pre.es() == w0.es());
                                assert(pre.manager_coverage_ok(s as int));
                                assert(pre.scenes@[s as int].spec_has_manager(
                                    w0.es()[i].components@[k3].manager_type_id,
                                ));
                            }
                        }
                    }
                    assert(comp_pairs_range(ent, x, 0, k as int, mt) =~= Set::<
                        (usize, Id),
                    >::empty()) by {
                        assert forall|pr: (usize, Id)|
                            !(#[trigger] comp_pairs_range(ent, x, 0, k as int, mt).contains(
                                pr,
                            )) by {
                            if comp_pairs_range(ent, x, 0, k as int, mt).contains(pr) {
                                let k2 = choose|k2: int|
                                    0 <= k2 < k && 0 <= k2 < ent.components@.len()
                                        && ent.components@[k2].type_id == pr.1
                                        && ent.components@[k2].manager_type_id == mt;
                                assert(pre.scenes@[s as int].spec_has_manager(
                                    ent.components@[k2].manager_type_id,
                                ));
                            }
                        }
                    }
                    assert forall|m: int| 0 <= m < ms.len() implies {
                        let mgr = #[trigger] ms[m];
                        &&& mgr.scene == Some(s)
                        &&& mgr.members@.no_duplicates()
                        &&& mgr.members@.len() > 0
                        &&& mgr.members@.to_set() == mgr_pairs(w0.es(), s, mgr.type_id)
                            + comp_pairs_range(ent, x, 0, k as int + 1, mgr.type_id)
                    } by {
                        if m < ms0.len() {
                            assert(ms[m] == ms0[m]);
                            assert(ms0[m].type_id != mt);
                            lemma_range_snoc(ent, x, k as int, ms0[m].type_id);
                        } else {
                            assert(ms[m].members@ == seq![(x, tid)]);
                            assert(ms[m].members@.to_set() =~= set![(x, tid)]) by {
                                crate::seqs::lemma_push_to_set(Seq::<(usize, Id)>::empty(), (
                                    x,
                                    tid,
                                ));
                                assert(Seq::<(usize, Id)>::empty().push((x, tid)) == seq![
                                    (x, tid),
                                ]);
                            }
                            assert(ms[m].members@.to_set() =~= mgr_pairs(w0.es(), s, mt)
                                + comp_pairs_range(ent, x, 0, k as int + 1, mt));
                        }
                    }
                    assert forall|m1: int, m2: int|
                        0 <= m1 < m2 < ms.len() implies ms[m1].type_id != ms[m2].type_id by {
                        if m2 < ms0.len() {
                            assert(ms[m1] == ms0[m1]);
                            assert(ms[m2] == ms0[m2]);
                        } else {
                            assert(ms[m1] == ms0[m1]);
                            assert(ms[m2].type_id == mt);
                            if ms0[m1].type_id == mt {
                                assert(pre.scenes@[s as int].spec_has_manager(mt));
                            }
                        }
                    }
                    assert forall|i: int, k3: int|
                        0 <= i < self.es().len() && self.es()[i].scene == Some(s) && 0 <= k3
                            < self.es()[i].components@.len() implies self.scenes@[s as int].spec_has_manager(
                        (#[trigger] self.es()[i].components@[k3]).manager_type_id,
                    ) by {
                        assert(pre.es() == self.es());
                        let mt2 = self.es()[i].components@[k3].manager_type_id;
                        assert(pre.manager_coverage_ok(s as int));
                        assert(pre.scenes@[s as int].spec_has_manager(mt2));
                        let m0 = choose|m0: int|
                            0 <= m0 < ms0.len() && ms0[m0].type_id == mt2;
                        assert(ms[m0].type_id == mt2);
                    }
                    assert(self.mgrs_from_or_fresh(s0, s)) by {
                        assert forall|m: int| 0 <= m < ms.len() implies {
                            let mgr = #[trigger] self.scenes@[s as int].managers@[m];
                            if s0.spec_has_manager(mgr.type_id) {
                                mgr_same_meta(s0.managers@[s0.manager_index(mgr.type_id)], mgr)
                            } else {
                                &&& mgr.update_calls == 0
                                &&& mgr.init_calls == if s0.initted {
                                    1u64
                                } else {
                                    0u64
                                }
                            }
                        } by {
                            assert(pre.mgrs_from_or_fresh(s0, s));
                            if m < ms0.len() {
                                assert(pre.scenes@[s as int].managers@[m] == ms0[m]);
                                assert(ms[m] == ms0[m]);
                            } else {
                                assert(ms[m].type_id == mt);
                                if s0.spec_has_manager(mt) {
                                    // managers only grow during registration, so a type
                                    // that `s0` had is still present — contradicting
                                    // the creation of a fresh one
                                    let mi0 = s0.manager_index(mt);
                                    assert(s0.managers@[mi0].type_id == mt);
                                    assert(pre.scenes@[s as int].spec_has_manager(
                                        w0.scenes@[s as int].managers@[mi0].type_id,
                                    ));
                                }
                                assert(self.scenes@[s as int].initted == s0.initted);
                            }
                        }
                    }
                } else {
                    let mi = pre.scenes@[s as int].manager_index(mt);
                    assert(0 <= mi < ms0.len() && ms0[mi].type_id == mt);
                    crate::seqs::lemma_push_to_set(ms0[mi].members@, (x, tid));
                    crate::seqs::lemma_push_no_dup(ms0[mi].members@, (x, tid));
                    assert forall|m: int| 0 <= m < ms.len() implies {
                        let mgr = #[trigger] ms[m];
                        &&& mgr.scene == Some(s)
                        &&& mgr.members@.no_duplicates()
                        &&& mgr.members@.len() > 0
                        &&& mgr.members@.to_set() == mgr_pairs(w0.es(), s, mgr.type_id)
                            + comp_pairs_range(ent, x, 0, k as int + 1, mgr.type_id)
                    } by {
                        if m != mi {
                            assert(ms[m] == ms0[m]);
                            assert(ms0[m].type_id != mt) by {
                                assert(pre.scenes@[s as int].managers_distinct());
                            }
                            lemma_range_snoc(ent, x, k as int, ms0[m].type_id);
                        } else {
                            assert(mgr_same_meta(ms0[mi], ms[mi]));
                            assert(ms[mi].members@ == ms0[mi].members@.push((x, tid)));
                            assert(ms[mi].members@.to_set() =~= mgr_pairs(w0.es(), s, mt)
                                + comp_pairs_range(ent, x, 0, k as int + 1, mt));
                        }
                    }
                    assert forall|m1: int, m2: int|
                        0 <= m1 < m2 < ms.len() implies ms[m1].type_id != ms[m2].type_id by {
                        assert(ms[m1].type_id == ms0[m1].type_id);
                        assert(ms[m2].type_id == ms0[m2].type_id);
                    }
                    assert forall|i: int, k3: int|
                        0 <= i < self.es().len() && self.es()[i].scene == Some(s) && 0 <= k3
                            < self.es()[i].components@.len() implies self.scenes@[s as int].spec_has_manager(
                        (#[trigger] self.es()[i].components@[k3]).manager_type_id,
                    ) by {
                        assert(pre.es() == self.es());
                        let mt2 = self.es()[i].components@[k3].manager_type_id;
                        assert(pre.manager_coverage_ok(s as int));
                        assert(pre.scenes@[s as int].spec_has_manager(mt2));
                        let m0 = choose|m0: int|
                            0 <= m0 < ms0.len() && ms0[m0].type_id == mt2;
                        assert(ms[m0].type_id == ms0[m0].type_id);
                    }
                    assert(self.mgrs_from_or_fresh(s0, s)) by {
                        assert forall|m: int| 0 <= m < ms.len() implies {
                            let mgr = #[trigger] self.scenes@[s as int].managers@[m];
                            if s0.spec_has_manager(mgr.type_id) {
                                mgr_same_meta(s0.managers@[s0.manager_index(mgr.type_id)], mgr)
                            } else {
                                &&& mgr.update_calls == 0
                                &&& mgr.init_calls == if s0.initted {
                                    1u64
                                } else {
                                    0u64
                                }
                            }
                        } by {
                            assert(pre.mgrs_from_or_fresh(s0, s));
                            assert(pre.scenes@[s as int].managers@[m] == ms0[m]);
                            if m == mi {
                                assert(mgr_same_meta(ms0[mi], ms[mi]));
                                assert(ms[mi].type_id == ms0[mi].type_id);
                            } else {
                                assert(ms[m] == ms0[m]);
                            }
                        }
                    }
                }
                // every manager type present at the start is still present
                assert forall|m0: int|
                    0 <= m0 < w0.scenes@[s as int].managers@.len() implies self.scenes@[s as int].spec_has_manager(
                    (#[trigger] w0.scenes@[s as int].managers@[m0]).type_id,
                ) by {
                    let mt0 = w0.scenes@[s as int].managers@[m0].type_id;
                    assert(pre.scenes@[s as int].spec_has_manager(mt0));
                    let mp = choose|mp: int|
                        0 <= mp < ms0.len() && ms0[mp].type_id == mt0;
                    assert(ms[mp].type_id == ms0[mp].type_id);
                }
                // the component at `k` is now covered
                assert(self.scenes@[s as int].spec_has_manager(mt)) by {
                    if created {
                        assert(self.scenes@[s as int].managers@[(
                        self.scenes@[s as int].managers@.len() - 1) as int].type_id == mt);
                    } else {
                        let mi = pre.scenes@[s as int].manager_index(mt);
                        assert(self.scenes@[s as int].managers@[mi].type_id == mt);
                    }
                }
            }
            k = k + 1;
        }
        self.entities[x].scene = Some(s);
        proof {
            let ghost w2 = *self;
            lemma_mgr_pairs_flip(w2.es(), w0.es(), x, s);
            lemma_range_congruent(w2.es()[x as int], ent, x, 0, ncomps as int);
            assert forall|m: int|
                0 <= m < self.scenes@[s as int].managers@.len() implies #[trigger] self.manager_ok(
                s as int,
                m,
            ) by {
                let mgr = self.scenes@[s as int].managers@[m];
                assert(mgr.members@.to_set() == mgr_pairs(w0.es(), s, mgr.type_id)
                    + comp_pairs_range(ent, x, 0, ncomps as int, mgr.type_id));
                assert(mgr_pairs(w2.es(), s, mgr.type_id) == mgr_pairs(w0.es(), s, mgr.type_id)
                    + comp_pairs_range(w2.es()[x as int], x, 0, ncomps as int, mgr.type_id));
                assert(comp_pairs_range(w2.es()[x as int], x, 0, ncomps as int, mgr.type_id)
                    == comp_pairs_range(ent, x, 0, ncomps as int, mgr.type_id));
                assert(self.es() == w2.es());
            }
            assert forall|i: int, k3: int|
                0 <= i < self.es().len() && self.es()[i].scene == Some(s) && 0 <= k3
                    < self.es()[i].components@.len() implies self.scenes@[s as int].spec_has_manager(
                (#[trigger] self.es()[i].components@[k3]).manager_type_id,
            ) by {
                if i == x as int {
                    assert(self.es()[i].components@ == ent.components@);
                    assert(self.scenes@[s as int].spec_has_manager(
                        ent.components@[k3].manager_type_id,
                    ));
                } else {
                    assert(w0.es()[i] == self.es()[i]);
                }
            }
        }
    }
}

} // verus!
