//! Scene membership of whole subtrees: removing a top-level root (and its
//! descendants) from its scene, and adding a parentless tree to a scene.

use vstd::prelude::*;
use crate::ancestry::{
    children_ok, in_subtree, lemma_in_own_subtree, lemma_subtree_same_scene,
    lemma_subtree_step_down, lemma_subtree_step_up, parent_ok, wf_tree,
};
use crate::id::Id;
use crate::managers::mgr_same_meta;
use crate::seqs::{
    lemma_push_contains, lemma_push_no_dup, lemma_remove_contains, lemma_remove_is_remove_value,
    lemma_remove_no_dup,
};
use crate::world::{mgr_pairs, World};

verus! {

impl<P> World<P> {
    /// The relation between the arena before and after removing the
    /// parentless entity `c` from its scene `s`: the scene reference is
    /// cleared on `c`'s whole subtree, all of the subtree's components are
    /// deregistered (which is pinned by the manager synchronization of the
    /// result), `c` leaves the scene's root list, and nothing else changes.
    pub open spec fn clear_scene_rel(self, w: World<P>, c: int, s: usize) -> bool {
        let es0 = self.es();
        let es = w.es();
        &&& es.len() == es0.len()
        &&& (forall|i: int|
            0 <= i < es0.len() ==> es[i].parent == es0[i].parent && es[i].depth == es0[i].depth
                && es[i].children == es0[i].children && es[i].components == es0[i].components)
        &&& (forall|i: int|
            0 <= i < es0.len() ==> es[i].scene == if in_subtree(es0, i, c) {
                None
            } else {
                es0[i].scene
            })
        &&& w.scenes@.len() == self.scenes@.len()
        &&& (forall|j: int| 0 <= j < self.scenes@.len() && j != s ==> w.scenes@[j] == self.scenes@[j])
        &&& w.scenes@[s as int].initted == self.scenes@[s as int].initted
        &&& w.scenes@[s as int].ticks == self.scenes@[s as int].ticks
        &&& w.scenes@[s as int].plugins == self.scenes@[s as int].plugins
        &&& w.scenes@[s as int].roots@ == self.scenes@[s as int].roots@.remove_value(c as usize)
        &&& w.scene_mgr_wf(s)
        &&& w.mgrs_from(self.scenes@[s as int], s)
    }

    /// Removes the parentless entity `c` and its whole subtree from its
    /// scene: every component in the subtree is deregistered from its
    /// manager (a manager emptied this way is destroyed), the scene
    /// reference is cleared throughout the subtree, and `c` leaves the
    /// scene's root list.  The tree structure itself is untouched.
    pub(crate) fn remove_root_from_scene(&mut self, c: usize)
        requires
            old(self).wf(),
            old(self).valid_entity(c as int),
            old(self).es()[c as int].parent is None,
            old(self).es()[c as int].scene is Some,
        ensures
            final(self).wf(),
            old(self).clear_scene_rel(
                *final(self),
                c as int,
                old(self).es()[c as int].scene.unwrap(),
            ),
    {
        let ghost w0 = *self;
        let s = match self.entities[c].scene {
            Some(s) => s,
            None => {
                proof {
                    assert(false);
                }
                0
            },
        };
        proof {
            assert(w0.entity_ok(c as int));
            lemma_in_own_subtree(w0.es(), c as int);
            assert(w0.scene_ok(s as int));
            assert(w0.scene_mgr_wf(s));
            lemma_mgrs_from_refl(w0, s);
        }
        let marks = self.mark_subtree(c);
        let n = self.entities.len();
        let mut i: usize = 0;
        while i < n
            invariant
                w0.wf(),
                n == w0.es().len(),
                n == self.es().len(),
                i <= n,
                c < n,
                (s as int) < w0.scenes@.len(),
                w0.es()[c as int].parent is None,
                w0.es()[c as int].scene == Some(s),
                marks@.len() == n,
                forall|k: int| 0 <= k < n ==> marks@[k] == in_subtree(w0.es(), k, c as int),
                self.scenes@.len() == w0.scenes@.len(),
                forall|k: int|
                    0 <= k < n ==> self.es()[k].parent == w0.es()[k].parent && self.es()[k].depth
                        == w0.es()[k].depth && self.es()[k].children == w0.es()[k].children
                        && self.es()[k].components == w0.es()[k].components,
                forall|k: int|
                    0 <= k < i ==> self.es()[k].scene == if in_subtree(w0.es(), k, c as int) {
                        None
                    } else {
                        w0.es()[k].scene
                    },
                forall|k: int| i <= k < n ==> self.es()[k].scene == w0.es()[k].scene,
                forall|j: int|
                    0 <= j < w0.scenes@.len() && j != s ==> self.scenes@[j] == w0.scenes@[j],
                self.scenes@[s as int].initted == w0.scenes@[s as int].initted,
                self.scenes@[s as int].ticks == w0.scenes@[s as int].ticks,
                self.scenes@[s as int].roots == w0.scenes@[s as int].roots,
                self.scenes@[s as int].plugins == w0.scenes@[s as int].plugins,
                self.scene_mgr_wf(s),
                self.mgrs_from(w0.scenes@[s as int], s),
            decreases n - i,
        {
            if marks[i] {
                proof {
                    lemma_subtree_same_scene(w0, i as int, c as int);
                    assert(w0.entity_ok(i as int));
                    assert(self.es()[i as int] == w0.es()[i as int]);
                }
                let ghost pre = *self;
                self.unregister_entity(i, s);
                proof {
                    assert(w0.scene_ok(s as int));
                    lemma_mgrs_from_trans(pre, *self, w0.scenes@[s as int], s);
                }
            }
            i = i + 1;
        }
        proof {
            assert(w0.root_coverage_ok(s as int));
            assert(w0.scenes@[s as int].roots@.contains(c));
        }
        let idxr = match crate::hierarchy::find_position(&self.scenes[s].roots, c) {
            Some(k) => k,
            None => {
                proof {
                    assert(false);
                }
                0
            },
        };
        proof {
            assert(w0.roots_ok(s as int));
        }
        let ghost wex = *self;
        self.scenes[s].roots.remove(idxr);
        proof {
            lemma_remove_is_remove_value(w0.scenes@[s as int].roots@, idxr as int);
            lemma_mgr_state_transfer(wex, *self, s, w0.scenes@[s as int]);
            assert(w0.clear_scene_rel(*self, c as int, s));
            lemma_clear_scene_wf(w0, *self, c as int, s);
        }
    }
}

impl<P> World<P> {
    /// The relation between the arena before and after adding the sceneless,
    /// parentless entity `c` to scene `s`: the scene reference is set on
    /// `c`'s whole subtree, all of the subtree's components are registered
    /// (pinned by the manager synchronization of the result, with fresh
    /// managers created where a type is new), `c` joins the scene's root
    /// list, and nothing else changes.
    pub open spec fn set_scene_rel_core(self, w: World<P>, c: int, s: usize) -> bool {
        let es0 = self.es();
        let es = w.es();
        &&& es.len() == es0.len()
        &&& (forall|i: int|
            0 <= i < es0.len() ==> es[i].parent == es0[i].parent && es[i].depth == es0[i].depth
                && es[i].children == es0[i].children && es[i].components == es0[i].components)
        &&& (forall|i: int|
            0 <= i < es0.len() ==> es[i].scene == if in_subtree(es0, i, c) {
                Some(s)
            } else {
                es0[i].scene
            })
        &&& w.scenes@.len() == self.scenes@.len()
        &&& (forall|j: int| 0 <= j < self.scenes@.len() && j != s ==> w.scenes@[j] == self.scenes@[j])
        &&& w.scenes@[s as int].initted == self.scenes@[s as int].initted
        &&& w.scenes@[s as int].ticks == self.scenes@[s as int].ticks
        &&& w.scenes@[s as int].plugins == self.scenes@[s as int].plugins
        &&& w.scenes@[s as int].roots@ == self.scenes@[s as int].roots@.push(c as usize)
        &&& w.scene_mgr_wf(s)
        &&& w.mgrs_from_or_fresh(self.scenes@[s as int], s)
    }

    /// `set_scene_rel_core`, and additionally: a manager created in an
    /// already-initialized scene re-sorts the collection by ascending order.
    pub open spec fn set_scene_rel(self, w: World<P>, c: int, s: usize) -> bool {
        &&& self.set_scene_rel_core(w, c, s)
        &&& (self.scenes@[s as int].initted ==> crate::managers::sorted_by_order(
            w.scenes@[s as int].managers@,
        ))
    }

    /// Adds the parentless, sceneless entity `c` and its whole subtree to
    /// scene `s`: every component in the subtree is registered with the
    /// manager of its type — creating managers for new types, which get an
    /// immediate `init` call if the scene is already initialized — the scene
    /// reference is set throughout the subtree, and `c` joins the scene's
    /// root list.  The tree structure itself is untouched.
    pub(crate) fn add_root_to_scene(&mut self, c: usize, s: usize)
        requires
            old(self).wf(),
            old(self).valid_entity(c as int),
            old(self).valid_scene(s as int),
            old(self).es()[c as int].parent is None,
            old(self).es()[c as int].scene is None,
        ensures
            final(self).wf(),
            old(self).set_scene_rel(*final(self), c as int, s),
    {
        let ghost w0 = *self;
        proof {
            lemma_in_own_subtree(w0.es(), c as int);
            assert(w0.scene_ok(s as int));
            assert(w0.scene_mgr_wf(s));
            lemma_mgrs_from_or_fresh_refl(w0, s);
            assert forall|m0: int|
                0 <= m0 < w0.scenes@[s as int].managers@.len() implies self.scenes@[s as int].spec_has_manager(
                (#[trigger] w0.scenes@[s as int].managers@[m0]).type_id,
            ) by {
                assert(self.scenes@[s as int].managers@[m0].type_id
                    == w0.scenes@[s as int].managers@[m0].type_id);
            }
        }
        let marks = self.mark_subtree(c);
        let n = self.entities.len();
        let mut i: usize = 0;
        while i < n
            invariant
                w0.wf(),
                n == w0.es().len(),
                n == self.es().len(),
                i <= n,
                c < n,
                (s as int) < w0.scenes@.len(),
                w0.es()[c as int].parent is None,
                w0.es()[c as int].scene is None,
                marks@.len() == n,
                forall|k: int| 0 <= k < n ==> marks@[k] == in_subtree(w0.es(), k, c as int),
                self.scenes@.len() == w0.scenes@.len(),
                forall|k: int|
                    0 <= k < n ==> self.es()[k].parent == w0.es()[k].parent && self.es()[k].depth
                        == w0.es()[k].depth && self.es()[k].children == w0.es()[k].children
                        && self.es()[k].components == w0.es()[k].components,
                forall|k: int|
                    0 <= k < i ==> self.es()[k].scene == if in_subtree(w0.es(), k, c as int) {
                        Some(s)
                    } else {
                        w0.es()[k].scene
                    },
                forall|k: int| i <= k < n ==> self.es()[k].scene == w0.es()[k].scene,
                forall|j: int|
                    0 <= j < w0.scenes@.len() && j != s ==> self.scenes@[j] == w0.scenes@[j],
                self.scenes@[s as int].initted == w0.scenes@[s as int].initted,
                self.scenes@[s as int].ticks == w0.scenes@[s as int].ticks,
                self.scenes@[s as int].roots == w0.scenes@[s as int].roots,
                self.scenes@[s as int].plugins == w0.scenes@[s as int].plugins,
                self.scene_mgr_wf(s),
                self.mgrs_from_or_fresh(w0.scenes@[s as int], s),
                forall|m0: int|
                    0 <= m0 < w0.scenes@[s as int].managers@.len()
                        ==> self.scenes@[s as int].spec_has_manager(
                        (#[trigger] w0.scenes@[s as int].managers@[m0]).type_id,
                    ),
            decreases n - i,
        {
            if marks[i] {
                proof {
                    lemma_subtree_same_scene(w0, i as int, c as int);
                    assert(w0.entity_ok(i as int));
                    assert(self.es()[i as int] == w0.es()[i as int]);
                }
                let ghost pre = *self;
                self.register_entity(i, s);
                proof {
                    assert(w0.scene_ok(s as int));
                    assert forall|m0: int|
                        0 <= m0 < w0.scenes@[s as int].managers@.len() implies pre.scenes@[s as int].spec_has_manager(
                        (#[trigger] w0.scenes@[s as int].managers@[m0]).type_id,
                    ) by {}
                    lemma_mgrs_from_or_fresh_trans(pre, *self, w0.scenes@[s as int], s);
                    assert forall|m0: int|
                        0 <= m0 < w0.scenes@[s as int].managers@.len() implies self.scenes@[s as int].spec_has_manager(
                        (#[trigger] w0.scenes@[s as int].managers@[m0]).type_id,
                    ) by {
                        let mt0 = w0.scenes@[s as int].managers@[m0].type_id;
                        assert(pre.scenes@[s as int].spec_has_manager(mt0));
                        let m1 = choose|m1: int|
                            0 <= m1 < pre.scenes@[s as int].managers@.len()
                                && pre.scenes@[s as int].managers@[m1].type_id == mt0;
                        assert(self.scenes@[s as int].spec_has_manager(
                            pre.scenes@[s as int].managers@[m1].type_id,
                        ));
                    }
                }
            }
            i = i + 1;
        }
        proof {
            assert(w0.roots_ok(s as int));
            assert(!w0.scenes@[s as int].roots@.contains(c)) by {
                if w0.scenes@[s as int].roots@.contains(c) {
                    let k = choose|k: int|
                        0 <= k < w0.scenes@[s as int].roots@.len()
                            && w0.scenes@[s as int].roots@[k] == c;
                    assert(w0.es()[w0.scenes@[s as int].roots@[k] as int].scene == Some(
                        s as usize,
                    ));
                }
            }
        }
        let ghost wex = *self;
        self.scenes[s].roots.push(c);
        proof {
            lemma_mgr_state_transfer_fresh(wex, *self, s, w0.scenes@[s as int]);
            assert(w0.set_scene_rel_core(*self, c as int, s));
            lemma_set_scene_wf(w0, *self, c as int, s);
        }
        // a manager created in an already-initialized scene re-sorts the
        // collection
        if self.scenes[s].initted {
            let ghost wsorted0 = *self;
            self.sort_managers(s);
            proof {
                lemma_or_fresh_then_from(wsorted0, *self, w0.scenes@[s as int], s);
                assert(self.scene_mgr_wf(s)) by {
                    assert(self.scene_ok(s as int));
                }
                assert(w0.set_scene_rel(*self, c as int, s));
            }
        } else {
            proof {
                assert(w0.set_scene_rel(*self, c as int, s));
            }
        }
    }
}

/// Fresh-or-inherited manager provenance is reflexive.
pub proof fn lemma_mgrs_from_or_fresh_refl<P>(w: World<P>, s: usize)
    requires
        (s as int) < w.scenes@.len(),
        w.scenes@[s as int].managers_distinct(),
    ensures
        w.mgrs_from_or_fresh(w.scenes@[s as int], s),
{
    let s0 = w.scenes@[s as int];
    assert forall|m: int| 0 <= m < w.scenes@[s as int].managers@.len() implies {
        let mgr = #[trigger] w.scenes@[s as int].managers@[m];
        if s0.spec_has_manager(mgr.type_id) {
            mgr_same_meta(s0.managers@[s0.manager_index(mgr.type_id)], mgr)
        } else {
            &&& mgr.update_calls == 0
            &&& mgr.init_calls == if s0.initted {
                1u64
            } else {
                0u64
            }
        }
    } by {
        let mgr = w.scenes@[s as int].managers@[m];
        assert(s0.managers@[m] == mgr);
        assert(s0.spec_has_manager(mgr.type_id));
        let mi0 = s0.manager_index(mgr.type_id);
        assert(s0.managers@[mi0].type_id == mgr.type_id);
        assert(mi0 == m);
    }
}

/// Composing two fresh-or-inherited manager provenance steps: the middle
/// state's scene must carry the initialization flag of the first.
pub proof fn lemma_mgrs_from_or_fresh_trans<P>(
    mid: World<P>,
    w: World<P>,
    s0: crate::scene::Scene,
    s: usize,
)
    requires
        (s as int) < mid.scenes@.len(),
        (s as int) < w.scenes@.len(),
        mid.mgrs_from_or_fresh(s0, s),
        w.mgrs_from_or_fresh(mid.scenes@[s as int], s),
        mid.scenes@[s as int].initted == s0.initted,
        s0.managers_distinct(),
        forall|m0: int|
            0 <= m0 < s0.managers@.len() ==> mid.scenes@[s as int].spec_has_manager(
                (#[trigger] s0.managers@[m0]).type_id,
            ),
    ensures
        w.mgrs_from_or_fresh(s0, s),
{
    let smid = mid.scenes@[s as int];
    assert forall|m: int| 0 <= m < w.scenes@[s as int].managers@.len() implies {
        let mgr = #[trigger] w.scenes@[s as int].managers@[m];
        if s0.spec_has_manager(mgr.type_id) {
            mgr_same_meta(s0.managers@[s0.manager_index(mgr.type_id)], mgr)
        } else {
            &&& mgr.update_calls == 0
            &&& mgr.init_calls == if s0.initted {
                1u64
            } else {
                0u64
            }
        }
    } by {
        let mgr = w.scenes@[s as int].managers@[m];
        assert(if smid.spec_has_manager(mgr.type_id) {
            mgr_same_meta(smid.managers@[smid.manager_index(mgr.type_id)], mgr)
        } else {
            mgr.update_calls == 0 && mgr.init_calls == if smid.initted {
                1u64
            } else {
                0u64
            }
        });
        if smid.spec_has_manager(mgr.type_id) {
            let km = smid.manager_index(mgr.type_id);
            assert(mid.scenes@[s as int].managers@[km] == smid.managers@[km]);
            let midmgr = smid.managers@[km];
            assert(if s0.spec_has_manager(midmgr.type_id) {
                mgr_same_meta(s0.managers@[s0.manager_index(midmgr.type_id)], midmgr)
            } else {
                midmgr.update_calls == 0 && midmgr.init_calls == if s0.initted {
                    1u64
                } else {
                    0u64
                }
            });
            assert(midmgr.type_id == mgr.type_id);
        } else {
            if s0.spec_has_manager(mgr.type_id) {
                let mi0 = s0.manager_index(mgr.type_id);
                assert(s0.managers@[mi0].type_id == mgr.type_id);
                assert(smid.spec_has_manager(s0.managers@[mi0].type_id));
            }
        }
    }
}

/// The fresh-or-inherited manager state carries over to a world with the
/// same entities and the same manager list for scene `s`.
pub proof fn lemma_mgr_state_transfer_fresh<P>(
    w1: World<P>,
    w2: World<P>,
    s: usize,
    s0: crate::scene::Scene,
)
    requires
        (s as int) < w1.scenes@.len(),
        (s as int) < w2.scenes@.len(),
        w2.es() == w1.es(),
        w2.scenes@[s as int].managers@ == w1.scenes@[s as int].managers@,
        w1.scene_mgr_wf(s),
        w1.mgrs_from_or_fresh(s0, s),
    ensures
        w2.scene_mgr_wf(s),
        w2.mgrs_from_or_fresh(s0, s),
{
    let ms = w2.scenes@[s as int].managers@;
    assert(w2.scenes@[s as int].managers_distinct()) by {
        assert forall|k1: int, k2: int|
            0 <= k1 < k2 < ms.len() implies ms[k1].type_id != ms[k2].type_id by {
            assert(w1.scenes@[s as int].managers@[k1] == ms[k1]);
            assert(w1.scenes@[s as int].managers@[k2] == ms[k2]);
            assert(w1.scenes@[s as int].managers_distinct());
        }
    }
    assert forall|m: int| 0 <= m < ms.len() implies #[trigger] w2.manager_ok(s as int, m) by {
        assert(w1.manager_ok(s as int, m));
        assert(w1.scenes@[s as int].managers@[m] == ms[m]);
    }
    assert forall|i: int, k: int|
        0 <= i < w2.es().len() && w2.es()[i].scene == Some(s) && 0 <= k
            < w2.es()[i].components@.len() implies w2.scenes@[s as int].spec_has_manager(
        (#[trigger] w2.es()[i].components@[k]).manager_type_id,
    ) by {
        assert(w1.manager_coverage_ok(s as int));
        let mt = w2.es()[i].components@[k].manager_type_id;
        assert(w1.es()[i].components@[k].manager_type_id == mt);
        assert(w1.scenes@[s as int].spec_has_manager(mt));
        let m0 = choose|m0: int|
            0 <= m0 < w1.scenes@[s as int].managers@.len()
                && w1.scenes@[s as int].managers@[m0].type_id == mt;
        assert(ms[m0].type_id == mt);
    }
    assert(w2.mgrs_from_or_fresh(s0, s)) by {
        assert forall|m: int| 0 <= m < ms.len() implies {
            let mgr = #[trigger] w2.scenes@[s as int].managers@[m];
            if s0.spec_has_manager(mgr.type_id) {
                mgr_same_meta(s0.managers@[s0.manager_index(mgr.type_id)], mgr)
            } else {
                &&& mgr.update_calls == 0
                &&& mgr.init_calls == if s0.initted {
                    1u64
                } else {
                    0u64
                }
            }
        } by {
            assert(w1.scenes@[s as int].managers@[m] == ms[m]);
        }
    }
}

/// `mgrs_from_or_fresh` only reads the manager list of its world argument
/// and the value of its source scene.
pub proof fn lemma_from_or_fresh_same_source<P>(
    wa: World<P>,
    wb: World<P>,
    sa: crate::scene::Scene,
    sb: crate::scene::Scene,
    s: usize,
)
    requires
        (s as int) < wa.scenes@.len(),
        (s as int) < wb.scenes@.len(),
        wa.mgrs_from_or_fresh(sa, s),
        sa.managers == sb.managers,
        sa.initted == sb.initted,
        wb.scenes@[s as int].managers@ == wa.scenes@[s as int].managers@,
    ensures
        wb.mgrs_from_or_fresh(sb, s),
{
    assert forall|m: int| 0 <= m < wb.scenes@[s as int].managers@.len() implies {
        let mgr = #[trigger] wb.scenes@[s as int].managers@[m];
        if sb.spec_has_manager(mgr.type_id) {
            mgr_same_meta(sb.managers@[sb.manager_index(mgr.type_id)], mgr)
        } else {
            &&& mgr.update_calls == 0
            &&& mgr.init_calls == if sb.initted {
                1u64
            } else {
                0u64
            }
        }
    } by {
        let mgr = wb.scenes@[s as int].managers@[m];
        assert(wa.scenes@[s as int].managers@[m] == mgr);
        assert(sa.managers@ == sb.managers@);
        assert(if sa.spec_has_manager(mgr.type_id) {
            mgr_same_meta(sa.managers@[sa.manager_index(mgr.type_id)], mgr)
        } else {
            mgr.update_calls == 0 && mgr.init_calls == if sa.initted {
                1u64
            } else {
                0u64
            }
        });
        if sa.spec_has_manager(mgr.type_id) {
            let ka = sa.manager_index(mgr.type_id);
            assert(sa.managers@[ka].type_id == mgr.type_id);
            assert(sb.managers@[ka].type_id == mgr.type_id);
            assert(sb.spec_has_manager(mgr.type_id));
            let kb = sb.manager_index(mgr.type_id);
            assert(sb.managers@[kb] == sa.managers@[kb]);
        } else {
            if sb.spec_has_manager(mgr.type_id) {
                let kb = sb.manager_index(mgr.type_id);
                assert(sb.managers@[kb].type_id == mgr.type_id);
                assert(sa.managers@[kb].type_id == mgr.type_id);
                assert(sa.spec_has_manager(mgr.type_id));
            }
        }
    }
}

/// Fresh-or-inherited provenance survives a meta-preserving reshuffle of
/// the managers.
pub proof fn lemma_or_fresh_then_from<P>(
    mid: World<P>,
    w: World<P>,
    s0: crate::scene::Scene,
    s: usize,
)
    requires
        (s as int) < mid.scenes@.len(),
        (s as int) < w.scenes@.len(),
        mid.mgrs_from_or_fresh(s0, s),
        w.mgrs_from(mid.scenes@[s as int], s),
    ensures
        w.mgrs_from_or_fresh(s0, s),
{
    let smid = mid.scenes@[s as int];
    assert forall|m: int| 0 <= m < w.scenes@[s as int].managers@.len() implies {
        let mgr = #[trigger] w.scenes@[s as int].managers@[m];
        if s0.spec_has_manager(mgr.type_id) {
            mgr_same_meta(s0.managers@[s0.manager_index(mgr.type_id)], mgr)
        } else {
            &&& mgr.update_calls == 0
            &&& mgr.init_calls == if s0.initted {
                1u64
            } else {
                0u64
            }
        }
    } by {
        let mgr = w.scenes@[s as int].managers@[m];
        assert(smid.spec_has_manager(mgr.type_id) && mgr_same_meta(
            smid.managers@[smid.manager_index(mgr.type_id)],
            mgr,
        ));
        let km = smid.manager_index(mgr.type_id);
        assert(mid.scenes@[s as int].managers@[km] == smid.managers@[km]);
        let midmgr = smid.managers@[km];
        assert(if s0.spec_has_manager(midmgr.type_id) {
            mgr_same_meta(s0.managers@[s0.manager_index(midmgr.type_id)], midmgr)
        } else {
            midmgr.update_calls == 0 && midmgr.init_calls == if s0.initted {
                1u64
            } else {
                0u64
            }
        });
        assert(midmgr.type_id == mgr.type_id);
    }
}

/// `add_root_to_scene` preserves the global invariant.
pub proof fn lemma_set_scene_wf<P>(w0: World<P>, w: World<P>, c: int, s: usize)
    requires
        w0.wf(),
        0 <= c < w0.es().len(),
        0 <= s < w0.scenes@.len(),
        w0.es()[c].parent is None,
        w0.es()[c].scene is None,
        w0.set_scene_rel_core(w, c, s),
    ensures
        w.wf(),
{
    let es0 = w0.es();
    let es = w.es();
    vstd::std_specs::vec::axiom_spec_len(&w0.entities);
    vstd::std_specs::vec::axiom_spec_len(&w0.scenes);
    lemma_in_own_subtree(es0, c);
    assert forall|i: int| 0 <= i < es.len() implies #[trigger] parent_ok(es, i) by {
        assert(parent_ok(es0, i));
        match es0[i].parent {
            None => {},
            Some(q) => {
                assert(es[q as int].depth == es0[q as int].depth);
                assert(es[q as int].children == es0[q as int].children);
            },
        }
    }
    assert forall|i: int| 0 <= i < es.len() implies #[trigger] children_ok(es, i) by {
        assert(children_ok(es0, i));
        assert(es[i].children == es0[i].children);
        assert forall|k: int| 0 <= k < es[i].children@.len() implies (
        #[trigger] es[i].children@[k]) < es.len() && es[i].children@[k] != i && es[es[
            i
        ].children@[k] as int].parent == Some(i as usize) by {
            let x = es0[i].children@[k];
            assert(x < es0.len() && x != i && es0[x as int].parent == Some(i as usize));
            assert(es[x as int].parent == es0[x as int].parent);
        }
    }
    assert forall|i: int| 0 <= i < es.len() implies #[trigger] w.entity_ok(i) by {
        assert(w0.entity_ok(i));
        assert(es[i].components@ == es0[i].components@);
    }
    assert forall|i: int| 0 <= i < es.len() implies #[trigger] w.scene_edge_ok(i) by {
        assert(w0.scene_edge_ok(i));
        match es0[i].parent {
            None => {},
            Some(q) => {
                assert(parent_ok(es0, i));
                let qi = q as int;
                if in_subtree(es0, i, c) {
                    if i != c {
                        lemma_subtree_step_up(es0, i, c);
                        assert(in_subtree(es0, qi, c));
                    }
                } else {
                    if in_subtree(es0, qi, c) {
                        lemma_subtree_step_down(es0, i, c);
                    }
                }
            },
        }
    }
    assert forall|j: int| 0 <= j < w.scenes@.len() implies #[trigger] w.scene_ok(j) by {
        assert(w0.scene_ok(j));
        if j == s as int {
            let r0 = w0.scenes@[j].roots@;
            let r = w.scenes@[j].roots@;
            assert(r == r0.push(c as usize));
            assert(!r0.contains(c as usize)) by {
                if r0.contains(c as usize) {
                    let k = choose|k: int| 0 <= k < r0.len() && r0[k] == c as usize;
                    assert(es0[r0[k] as int].scene == Some(j as usize));
                }
            }
            lemma_push_no_dup(r0, c as usize);
            assert forall|k: int| 0 <= k < r.len() implies (#[trigger] r[k]) < es.len()
                && es[r[k] as int].parent is None && es[r[k] as int].scene == Some(
            j as usize) by {
                if k < r0.len() {
                    let x = r0[k] as int;
                    assert(x < es0.len() && es0[x].parent is None && es0[x].scene == Some(
                        j as usize,
                    ));
                    assert(es[x].parent == es0[x].parent);
                    if in_subtree(es0, x, c) {
                        lemma_subtree_same_scene(w0, x, c);
                    }
                } else {
                    assert(r[k] == c as usize);
                    assert(es[c].scene == Some(s));
                    assert(es[c].parent == es0[c].parent);
                }
            }
            assert forall|i: int|
                0 <= i < es.len() && (#[trigger] es[i]).scene == Some(j as usize) && es[i].parent
                    is None implies w.scenes@[j].roots@.contains(i as usize) by {
                if in_subtree(es0, i, c) {
                    assert(es0[i].parent == es[i].parent);
                    assert(i == c) by {
                        if i != c {
                            lemma_subtree_step_up(es0, i, c);
                        }
                    }
                    lemma_push_contains(r0, c as usize, c as usize);
                } else {
                    assert(es0[i].scene == Some(j as usize));
                    assert(r0.contains(i as usize));
                    lemma_push_contains(r0, c as usize, i as usize);
                }
            }
            assert(w.scene_mgr_wf(s));
            assert(w.scenes@[j].plugins@ == w0.scenes@[j].plugins@);
        } else {
            assert(w.scenes@[j] == w0.scenes@[j]);
            let r0 = w0.scenes@[j].roots@;
            assert forall|k: int| 0 <= k < r0.len() implies (#[trigger] r0[k]) < es.len()
                && es[r0[k] as int].parent is None && es[r0[k] as int].scene == Some(
            j as usize) by {
                let x = r0[k] as int;
                assert(x < es0.len() && es0[x].parent is None && es0[x].scene == Some(j as usize));
                assert(!in_subtree(es0, x, c)) by {
                    if in_subtree(es0, x, c) {
                        lemma_subtree_same_scene(w0, x, c);
                    }
                }
            }
            assert forall|i: int|
                0 <= i < es.len() && (#[trigger] es[i]).scene == Some(j as usize) && es[i].parent
                    is None implies w.scenes@[j].roots@.contains(i as usize) by {
                assert(!in_subtree(es0, i, c)) by {
                    if in_subtree(es0, i, c) {
                        assert(es[i].scene == Some(s));
                    }
                }
                assert(es0[i].scene == Some(j as usize));
            }
            assert forall|m: int| 0 <= m < w.scenes@[j].managers@.len() implies
                #[trigger] w.manager_ok(j, m) by {
                assert(w0.manager_ok(j, m));
                let mt = w.scenes@[j].managers@[m].type_id;
                assert(mgr_pairs(es, j as usize, mt) =~= mgr_pairs(es0, j as usize, mt)) by {
                    assert forall|pr: (usize, Id)| #[trigger]
                        mgr_pairs(es, j as usize, mt).contains(pr) == mgr_pairs(
                            es0,
                            j as usize,
                            mt,
                        ).contains(pr) by {
                        if pr.0 < es0.len() {
                            let i = pr.0 as int;
                            assert(es[i].components@ == es0[i].components@);
                            if in_subtree(es0, i, c) {
                                lemma_subtree_same_scene(w0, i, c);
                                assert(es0[i].scene is None);
                                assert(es[i].scene == Some(s));
                            }
                            if es0[i].has_component_with_manager(pr.1, mt) {
                                let k = choose|k: int|
                                    0 <= k < es0[i].components@.len()
                                        && es0[i].components@[k].type_id == pr.1
                                        && es0[i].components@[k].manager_type_id == mt;
                                assert(es[i].components@[k].type_id == pr.1);
                                assert(es[i].components@[k].manager_type_id == mt);
                                assert(es[i].has_component_with_manager(pr.1, mt));
                            }
                            if es[i].has_component_with_manager(pr.1, mt) {
                                let k = choose|k: int|
                                    0 <= k < es[i].components@.len() && es[i].components@[k].type_id
                                        == pr.1 && es[i].components@[k].manager_type_id == mt;
                                assert(es0[i].components@[k].type_id == pr.1);
                                assert(es0[i].components@[k].manager_type_id == mt);
                                assert(es0[i].has_component_with_manager(pr.1, mt));
                            }
                        }
                    }
                }
            }
            assert forall|i: int, k: int|
                0 <= i < es.len() && es[i].scene == Some(j as usize) && 0 <= k
                    < es[i].components@.len() implies w.scenes@[j].spec_has_manager(
                (#[trigger] es[i].components@[k]).manager_type_id,
            ) by {
                assert(!in_subtree(es0, i, c)) by {
                    if in_subtree(es0, i, c) {
                        assert(es[i].scene == Some(s));
                    }
                }
                assert(es0[i].scene == Some(j as usize));
                assert(es[i].components@ == es0[i].components@);
                assert(w0.manager_coverage_ok(j));
                let mt = es0[i].components@[k].manager_type_id;
                assert(w0.scenes@[j].spec_has_manager(mt));
            }
        }
    }
}

/// The manager-synchronization state carries over to a world with the same
/// entities and the same manager list for scene `s`.
pub proof fn lemma_mgr_state_transfer<P>(
    w1: World<P>,
    w2: World<P>,
    s: usize,
    s0: crate::scene::Scene,
)
    requires
        (s as int) < w1.scenes@.len(),
        (s as int) < w2.scenes@.len(),
        w2.es() == w1.es(),
        w2.scenes@[s as int].managers@ == w1.scenes@[s as int].managers@,
        w1.scene_mgr_wf(s),
        w1.mgrs_from(s0, s),
    ensures
        w2.scene_mgr_wf(s),
        w2.mgrs_from(s0, s),
{
    let ms = w2.scenes@[s as int].managers@;
    assert(w2.scenes@[s as int].managers_distinct()) by {
        assert forall|k1: int, k2: int|
            0 <= k1 < k2 < ms.len() implies ms[k1].type_id != ms[k2].type_id by {
            assert(w1.scenes@[s as int].managers@[k1] == ms[k1]);
            assert(w1.scenes@[s as int].managers@[k2] == ms[k2]);
            assert(w1.scenes@[s as int].managers_distinct());
        }
    }
    assert forall|m: int| 0 <= m < ms.len() implies #[trigger] w2.manager_ok(s as int, m) by {
        assert(w1.manager_ok(s as int, m));
        assert(w1.scenes@[s as int].managers@[m] == ms[m]);
    }
    assert forall|i: int, k: int|
        0 <= i < w2.es().len() && w2.es()[i].scene == Some(s) && 0 <= k
            < w2.es()[i].components@.len() implies w2.scenes@[s as int].spec_has_manager(
        (#[trigger] w2.es()[i].components@[k]).manager_type_id,
    ) by {
        assert(w1.manager_coverage_ok(s as int));
        let mt = w2.es()[i].components@[k].manager_type_id;
        assert(w1.es()[i].components@[k].manager_type_id == mt);
        assert(w1.scenes@[s as int].spec_has_manager(mt));
        let m0 = choose|m0: int|
            0 <= m0 < w1.scenes@[s as int].managers@.len()
                && w1.scenes@[s as int].managers@[m0].type_id == mt;
        assert(ms[m0].type_id == mt);
    }
    assert(w2.mgrs_from(s0, s)) by {
        assert forall|m: int| 0 <= m < ms.len() implies {
            let mgr = #[trigger] w2.scenes@[s as int].managers@[m];
            s0.spec_has_manager(mgr.type_id) && mgr_same_meta(
                s0.managers@[s0.manager_index(mgr.type_id)],
                mgr,
            )
        } by {
            assert(w1.scenes@[s as int].managers@[m] == ms[m]);
        }
    }
}

/// Manager-meta provenance is reflexive.
pub proof fn lemma_mgrs_from_refl<P>(w: World<P>, s: usize)
    requires
        (s as int) < w.scenes@.len(),
        w.scenes@[s as int].managers_distinct(),
    ensures
        w.mgrs_from(w.scenes@[s as int], s),
{
    let s0 = w.scenes@[s as int];
    assert forall|m: int| 0 <= m < w.scenes@[s as int].managers@.len() implies {
        let mgr = #[trigger] w.scenes@[s as int].managers@[m];
        s0.spec_has_manager(mgr.type_id) && mgr_same_meta(
            s0.managers@[s0.manager_index(mgr.type_id)],
            mgr,
        )
    } by {
        let mgr = w.scenes@[s as int].managers@[m];
        assert(s0.managers@[m] == mgr);
        assert(s0.spec_has_manager(mgr.type_id));
        let mi0 = s0.manager_index(mgr.type_id);
        assert(s0.managers@[mi0].type_id == mgr.type_id);
        assert(mi0 == m);
    }
}

/// Composing two manager-meta provenance steps.
pub proof fn lemma_mgrs_from_trans<P>(
    mid: World<P>,
    w: World<P>,
    s0: crate::scene::Scene,
    s: usize,
)
    requires
        (s as int) < mid.scenes@.len(),
        (s as int) < w.scenes@.len(),
        mid.mgrs_from(s0, s),
        w.mgrs_from(mid.scenes@[s as int], s),
        s0.managers_distinct(),
    ensures
        w.mgrs_from(s0, s),
{
    let smid = mid.scenes@[s as int];
    assert forall|m: int| 0 <= m < w.scenes@[s as int].managers@.len() implies {
        let mgr = #[trigger] w.scenes@[s as int].managers@[m];
        s0.spec_has_manager(mgr.type_id) && mgr_same_meta(
            s0.managers@[s0.manager_index(mgr.type_id)],
            mgr,
        )
    } by {
        let mgr = w.scenes@[s as int].managers@[m];
        assert(smid.spec_has_manager(mgr.type_id) && mgr_same_meta(
            smid.managers@[smid.manager_index(mgr.type_id)],
            mgr,
        ));
        let km = smid.manager_index(mgr.type_id);
        assert(mid.scenes@[s as int].managers@[km] == smid.managers@[km]);
        let midmgr = smid.managers@[km];
        assert(s0.spec_has_manager(midmgr.type_id) && mgr_same_meta(
            s0.managers@[s0.manager_index(midmgr.type_id)],
            midmgr,
        ));
        assert(midmgr.type_id == mgr.type_id);
    }
}

/// `remove_root_from_scene` preserves the global invariant.
pub proof fn lemma_clear_scene_wf<P>(w0: World<P>, w: World<P>, c: int, s: usize)
    requires
        w0.wf(),
        0 <= c < w0.es().len(),
        w0.es()[c].parent is None,
        w0.es()[c].scene == Some(s),
        w0.clear_scene_rel(w, c, s),
    ensures
        w.wf(),
{
    let es0 = w0.es();
    let es = w.es();
    vstd::std_specs::vec::axiom_spec_len(&w0.entities);
    vstd::std_specs::vec::axiom_spec_len(&w0.scenes);
    lemma_in_own_subtree(es0, c);
    assert(w0.entity_ok(c));
    // the tree structure is untouched
    assert forall|i: int| 0 <= i < es.len() implies #[trigger] parent_ok(es, i) by {
        assert(parent_ok(es0, i));
        match es0[i].parent {
            None => {},
            Some(q) => {
                assert(es[q as int].depth == es0[q as int].depth);
                assert(es[q as int].children == es0[q as int].children);
            },
        }
    }
    assert forall|i: int| 0 <= i < es.len() implies #[trigger] children_ok(es, i) by {
        assert(children_ok(es0, i));
        assert(es[i].children == es0[i].children);
        assert forall|k: int| 0 <= k < es[i].children@.len() implies (
        #[trigger] es[i].children@[k]) < es.len() && es[i].children@[k] != i && es[es[
            i
        ].children@[k] as int].parent == Some(i as usize) by {
            let x = es0[i].children@[k];
            assert(x < es0.len() && x != i && es0[x as int].parent == Some(i as usize));
            assert(es[x as int].parent == es0[x as int].parent);
        }
    }
    assert forall|i: int| 0 <= i < es.len() implies #[trigger] w.entity_ok(i) by {
        assert(w0.entity_ok(i));
        assert(es[i].components@ == es0[i].components@);
    }
    assert forall|i: int| 0 <= i < es.len() implies #[trigger] w.scene_edge_ok(i) by {
        assert(w0.scene_edge_ok(i));
        match es0[i].parent {
            None => {},
            Some(q) => {
                assert(parent_ok(es0, i));
                let qi = q as int;
                if in_subtree(es0, i, c) {
                    if i != c {
                        lemma_subtree_step_up(es0, i, c);
                        assert(in_subtree(es0, qi, c));
                    }
                } else {
                    if in_subtree(es0, qi, c) {
                        lemma_subtree_step_down(es0, i, c);
                    }
                }
            },
        }
    }
    // scenes
    assert forall|j: int| 0 <= j < w.scenes@.len() implies #[trigger] w.scene_ok(j) by {
        assert(w0.scene_ok(j));
        if j == s as int {
            let r0 = w0.scenes@[j].roots@;
            let r = w.scenes@[j].roots@;
            assert(w0.root_coverage_ok(j));
            assert(r0.contains(c as usize));
            r0.index_of_first_ensures(c as usize);
            let ridx0 = r0.index_of_first(c as usize).unwrap();
            assert(r == r0.remove(ridx0));
            lemma_remove_no_dup(r0, ridx0);
            assert forall|k: int| 0 <= k < r.len() implies (#[trigger] r[k]) < es.len() && es[r[k] as int].parent is None
                && es[r[k] as int].scene == Some(j as usize) by {
                lemma_remove_contains(r0, ridx0, r[k]);
                assert(r.contains(r[k]));
                assert(r0.contains(r[k]));
                let k0 = choose|k0: int| 0 <= k0 < r0.len() && r0[k0] == r[k];
                let x = r0[k0] as int;
                assert(x < es0.len() && es0[x].parent is None && es0[x].scene == Some(j as usize));
                assert(r[k] as int != c);
                assert(!in_subtree(es0, x, c)) by {
                    if in_subtree(es0, x, c) {
                        crate::ancestry::lemma_chain_unfold(es0, x);
                        assert(crate::ancestry::chain(es0, x) == seq![x]);
                        let kk = choose|kk: int|
                            0 <= kk < crate::ancestry::chain(es0, x).len()
                                && crate::ancestry::chain(es0, x)[kk] == c;
                        assert(crate::ancestry::chain(es0, x)[kk] == x);
                    }
                }
            }
            assert forall|i: int|
                0 <= i < es.len() && (#[trigger] es[i]).scene == Some(j as usize) && es[i].parent
                    is None implies w.scenes@[j].roots@.contains(i as usize) by {
                assert(!in_subtree(es0, i, c));
                assert(es0[i].scene == Some(j as usize));
                assert(es0[i].parent == es[i].parent);
                assert(r0.contains(i as usize));
                assert(i != c);
                lemma_remove_contains(r0, ridx0, i as usize);
            }
            assert(w.scene_mgr_wf(s));
            assert(w.scenes@[j].plugins@ == w0.scenes@[j].plugins@);
        } else {
            assert(w.scenes@[j] == w0.scenes@[j]);
            let r0 = w0.scenes@[j].roots@;
            assert forall|k: int| 0 <= k < r0.len() implies (#[trigger] r0[k]) < es.len()
                && es[r0[k] as int].parent is None && es[r0[k] as int].scene == Some(
            j as usize) by {
                let x = r0[k] as int;
                assert(x < es0.len() && es0[x].parent is None && es0[x].scene == Some(j as usize));
                assert(!in_subtree(es0, x, c)) by {
                    if in_subtree(es0, x, c) {
                        lemma_subtree_same_scene(w0, x, c);
                    }
                }
            }
            assert forall|i: int|
                0 <= i < es.len() && (#[trigger] es[i]).scene == Some(j as usize) && es[i].parent
                    is None implies w.scenes@[j].roots@.contains(i as usize) by {
                assert(!in_subtree(es0, i, c)) by {
                    if in_subtree(es0, i, c) {
                        assert(es[i].scene is None);
                    }
                }
                assert(es0[i].scene == Some(j as usize));
            }
            assert forall|m: int| 0 <= m < w.scenes@[j].managers@.len() implies
                #[trigger] w.manager_ok(j, m) by {
                assert(w0.manager_ok(j, m));
                let mt = w.scenes@[j].managers@[m].type_id;
                assert(mgr_pairs(es, j as usize, mt) =~= mgr_pairs(es0, j as usize, mt)) by {
                    assert forall|pr: (usize, Id)| #[trigger]
                        mgr_pairs(es, j as usize, mt).contains(pr) == mgr_pairs(
                            es0,
                            j as usize,
                            mt,
                        ).contains(pr) by {
                        if pr.0 < es0.len() {
                            let i = pr.0 as int;
                            assert(es[i].components@ == es0[i].components@);
                            if in_subtree(es0, i, c) {
                                lemma_subtree_same_scene(w0, i, c);
                                assert(es0[i].scene == Some(s));
                                assert(es[i].scene is None);
                            }
                            if es0[i].has_component_with_manager(pr.1, mt) {
                                let k = choose|k: int|
                                    0 <= k < es0[i].components@.len()
                                        && es0[i].components@[k].type_id == pr.1
                                        && es0[i].components@[k].manager_type_id == mt;
                                assert(es[i].components@[k].type_id == pr.1);
                                assert(es[i].components@[k].manager_type_id == mt);
                                assert(es[i].has_component_with_manager(pr.1, mt));
                            }
                            if es[i].has_component_with_manager(pr.1, mt) {
                                let k = choose|k: int|
                                    0 <= k < es[i].components@.len() && es[i].components@[k].type_id
                                        == pr.1 && es[i].components@[k].manager_type_id == mt;
                                assert(es0[i].components@[k].type_id == pr.1);
                                assert(es0[i].components@[k].manager_type_id == mt);
                                assert(es0[i].has_component_with_manager(pr.1, mt));
                            }
                        }
                    }
                }
            }
            assert forall|i: int, k: int|
                0 <= i < es.len() && es[i].scene == Some(j as usize) && 0 <= k
                    < es[i].components@.len() implies w.scenes@[j].spec_has_manager(
                (#[trigger] es[i].components@[k]).manager_type_id,
            ) by {
                assert(!in_subtree(es0, i, c)) by {
                    if in_subtree(es0, i, c) {
                        assert(es[i].scene is None);
                    }
                }
                assert(es0[i].scene == Some(j as usize));
                assert(es[i].components@ == es0[i].components@);
                assert(w0.manager_coverage_ok(j));
                let mt = es0[i].components@[k].manager_type_id;
                assert(w0.scenes@[j].spec_has_manager(mt));
            }
        }
    }
}

} // verus!
