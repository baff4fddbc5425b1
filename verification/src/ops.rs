//! The public mutation protocol: reparenting entities and moving trees
//! between scenes, composed from detachment, scene transfer and attachment.

use vstd::prelude::*;
use crate::ancestry::{in_subtree, lemma_chain_same, lemma_in_own_subtree, lemma_subtree_stable};
use crate::world::{GraphError, World};

verus! {

/// Subtree membership under `c` is unchanged by a mutation that touches no
/// parent link and no depth cache.
proof fn lemma_subtree_frame<P>(
    es0: Seq<crate::entity::Entity<P>>,
    es1: Seq<crate::entity::Entity<P>>,
    c: int,
)
    requires
        crate::ancestry::wf_tree(es0),
        es0.len() == es1.len(),
        forall|k: int|
            0 <= k < es0.len() ==> es1[k].parent == es0[k].parent && es1[k].depth == es0[k].depth,
    ensures
        forall|i: int|
            0 <= i < es0.len() ==> #[trigger] in_subtree(es1, i, c) == in_subtree(es0, i, c),
{
    assert forall|i: int|
        0 <= i < es0.len() implies #[trigger] in_subtree(es1, i, c) == in_subtree(es0, i, c) by {
        lemma_chain_same(es0, es1, i);
    }
}

impl<P> World<P> {
    /// What `add_child(p, c)` does to the arena when it succeeds: `c` —
    /// detached from any previous parent — becomes the last child of `p`,
    /// the depths of `c`'s subtree are recomputed below `p`, and the whole
    /// subtree takes on `p`'s scene membership, leaving its previous scene
    /// (if different) with all its components deregistered there and
    /// registered with `p`'s scene.
    pub open spec fn add_child_rel(self, w: World<P>, p: int, c: int) -> bool {
        let es0 = self.es();
        let es = w.es();
        &&& es.len() == es0.len()
        &&& w.scenes@.len() == self.scenes@.len()
        &&& es[c].parent == Some(p as usize)
        &&& es[c].depth == es0[p].depth + 1
        &&& es[c].scene == es0[p].scene
        &&& (forall|i: int| 0 <= i < es0.len() && i != c ==> es[i].parent == es0[i].parent)
        &&& es[p].children@ == es0[p].children@.remove_value(c as usize).push(c as usize)
        &&& (forall|i: int|
            0 <= i < es0.len() && i != p && Some(i as usize) != es0[c].parent ==> es[i].children
                == es0[i].children)
        &&& (es0[c].parent matches Some(q) ==> (q as int != p ==> es[q as int].children@
            == es0[q as int].children@.remove_value(c as usize)))
        &&& (forall|i: int| 0 <= i < es0.len() ==> es[i].components == es0[i].components)
        &&& (forall|i: int|
            0 <= i < es0.len() ==> es[i].depth as int == if in_subtree(es0, i, c) {
                es0[i].depth - es0[c].depth + es0[p].depth + 1
            } else {
                es0[i].depth as int
            })
        &&& (forall|i: int|
            0 <= i < es0.len() ==> es[i].scene == if in_subtree(es0, i, c) {
                es0[p].scene
            } else {
                es0[i].scene
            })
        &&& (forall|j: int|
            0 <= j < self.scenes@.len() ==> w.scenes@[j].initted == self.scenes@[j].initted
                && w.scenes@[j].ticks == self.scenes@[j].ticks && w.scenes@[j].plugins
                == self.scenes@[j].plugins)
        &&& (es0[p].scene matches Some(sp) ==> w.mgrs_from_or_fresh(self.scenes@[sp as int], sp))
        &&& (es0[c].scene matches Some(sc) ==> (es0[c].scene != es0[p].scene ==> w.mgrs_from(
            self.scenes@[sc as int],
            sc,
        )))
    }

    /// Makes `c` the last child of `p`.  Fails with `InvalidOperation` —
    /// and changes nothing — iff `c` is `p` itself or one of `p`'s
    /// ancestors, which would create a cycle.  If `c` already has a parent
    /// it is first detached (an implicit reparent, not an error); if `p`
    /// belongs to a scene, `c`'s subtree joins that scene, leaving its
    /// previous scene if it had a different one.
    pub fn add_child(&mut self, p: usize, c: usize) -> (r: Result<(), GraphError>)
        requires
            old(self).wf(),
            old(self).valid_entity(p as int),
            old(self).valid_entity(c as int),
        ensures
            final(self).wf(),
            r is Err <==> in_subtree(old(self).es(), p as int, c as int),
            r is Err ==> *final(self) == *old(self),
            r is Ok ==> old(self).add_child_rel(*final(self), p as int, c as int),
    {
        let ghost w0 = *self;
        if self.is_under(p, c) {
            return Err(GraphError::InvalidOperation);
        }
        proof {
            lemma_in_own_subtree(w0.es(), c as int);
        }
        // phase one: detach `c` from its previous parent
        self.detach(c);
        let ghost w1 = *self;
        proof {
            lemma_subtree_stable(w0.es(), w1.es(), c as int, p as int);
            assert forall|i: int|
                0 <= i < w0.es().len() implies #[trigger] in_subtree(w1.es(), i, c as int)
                == in_subtree(w0.es(), i, c as int) by {
                lemma_subtree_stable(w0.es(), w1.es(), c as int, i);
            }
        }
        // phase two: reconcile scene membership with `p`'s
        let sc = self.entities[c].scene;
        let sp = self.entities[p].scene;
        proof {
            assert(w1.es()[p as int].scene == w0.es()[p as int].scene) by {
                if w0.es()[c as int].parent is Some {
                    assert(p as int != c as int);
                }
            }
            assert(w1.es()[c as int].scene == w0.es()[c as int].scene);
            assert(w1.entity_ok(p as int));
            assert(w1.entity_ok(c as int));
        }
        if !opt_eq(sc, sp) {
            match (sc, sp) {
                (Some(_), Some(s2)) => {
                    self.remove_root_from_scene(c);
                    let ghost wm = *self;
                    proof {
                        lemma_subtree_frame(w1.es(), wm.es(), c as int);
                    }
                    self.add_root_to_scene(c, s2);
                    proof {
                        lemma_subtree_frame(wm.es(), self.es(), c as int);
                        assert((#[trigger] w1.clear_scene_rel(wm, c as int, sc.unwrap()))
                            && wm.set_scene_rel(*self, c as int, s2));
                    }
                },
                (Some(_), None) => {
                    self.remove_root_from_scene(c);
                    proof {
                        lemma_subtree_frame(w1.es(), self.es(), c as int);
                    }
                },
                (None, Some(s2)) => {
                    self.add_root_to_scene(c, s2);
                    proof {
                        lemma_subtree_frame(w1.es(), self.es(), c as int);
                    }
                },
                (None, None) => {},
            }
        }
        // phase three: attach the subtree under `p`
        let ghost w2 = *self;
        self.attach_root(p, c);
        proof {
            lemma_subtree_stable(w2.es(), self.es(), c as int, p as int);
            assert forall|i: int|
                0 <= i < w0.es().len() implies #[trigger] in_subtree(self.es(), i, c as int)
                == in_subtree(w0.es(), i, c as int) by {
                lemma_subtree_stable(w2.es(), self.es(), c as int, i);
            }
            lemma_add_child_rel(w0, w1, w2, *self, p as int, c as int);
        }
        Ok(())
    }

    /// Detaches `c` from `p` if `c` is currently a child of `p`; a no-op
    /// otherwise.  Scene membership is not altered.
    pub fn remove_child(&mut self, p: usize, c: usize)
        requires
            old(self).wf(),
            old(self).valid_entity(p as int),
            old(self).valid_entity(c as int),
        ensures
            final(self).wf(),
            old(self).es()[c as int].parent != Some(p) ==> *final(self) == *old(self),
            old(self).es()[c as int].parent == Some(p) ==> exists|idx: int|
                old(self).detach_rel(*final(self), c as int, p as int, idx),
    {
        match self.entities[c].parent {
            Some(q) => {
                if q == p {
                    self.detach(c);
                }
            },
            None => {},
        }
    }
}

impl<P> World<P> {
    /// What `add_entity(s, e)` does to the arena when `e` was not already a
    /// member of `s`: `e` — detached from any previous parent — becomes a
    /// top-level root of scene `s`, and its whole subtree becomes members of
    /// `s`, leaving their previous scene (if any) with all components
    /// deregistered there and registered with `s`.
    pub open spec fn add_entity_rel(self, w: World<P>, s: usize, e: int) -> bool {
        let es0 = self.es();
        let es = w.es();
        &&& es.len() == es0.len()
        &&& w.scenes@.len() == self.scenes@.len()
        &&& es[e].parent is None
        &&& es[e].depth == 0
        &&& es[e].scene == Some(s)
        &&& (forall|i: int| 0 <= i < es0.len() && i != e ==> es[i].parent == es0[i].parent)
        &&& (es0[e].parent matches Some(q) ==> es[q as int].children@
            == es0[q as int].children@.remove_value(e as usize))
        &&& (forall|i: int|
            0 <= i < es0.len() && Some(i as usize) != es0[e].parent ==> es[i].children
                == es0[i].children)
        &&& (forall|i: int| 0 <= i < es0.len() ==> es[i].components == es0[i].components)
        &&& (forall|i: int|
            0 <= i < es0.len() ==> es[i].depth as int == if in_subtree(es0, i, e) {
                es0[i].depth - es0[e].depth
            } else {
                es0[i].depth as int
            })
        &&& (forall|i: int|
            0 <= i < es0.len() ==> es[i].scene == if in_subtree(es0, i, e) {
                Some(s)
            } else {
                es0[i].scene
            })
        &&& (forall|j: int|
            0 <= j < self.scenes@.len() ==> w.scenes@[j].initted == self.scenes@[j].initted
                && w.scenes@[j].ticks == self.scenes@[j].ticks && w.scenes@[j].plugins
                == self.scenes@[j].plugins)
        &&& w.mgrs_from_or_fresh(self.scenes@[s as int], s)
        &&& (es0[e].scene matches Some(s2) ==> (s2 != s ==> w.mgrs_from(
            self.scenes@[s2 as int],
            s2,
        )))
    }

    /// Adds `e` to scene `s` as a top-level root.  A no-op if `e` is
    /// already a member of `s`.  Otherwise `e` is first detached from any
    /// parent, removed from its previous scene if it belonged to a
    /// different one, and then `e` and every descendant become members of
    /// `s`, their components registered with `s`'s managers.
    pub fn add_entity(&mut self, s: usize, e: usize) -> (moved: bool)
        requires
            old(self).wf(),
            old(self).valid_scene(s as int),
            old(self).valid_entity(e as int),
        ensures
            final(self).wf(),
            moved == (old(self).es()[e as int].scene != Some(s)),
            !moved ==> *final(self) == *old(self),
            moved ==> old(self).add_entity_rel(*final(self), s, e as int),
    {
        let ghost w0 = *self;
        let cur = self.entities[e].scene;
        match cur {
            Some(s2) => {
                if s2 == s {
                    return false;
                }
            },
            None => {},
        }
        self.detach(e);
        let ghost w1 = *self;
        proof {
            assert forall|i: int|
                0 <= i < w0.es().len() implies #[trigger] in_subtree(w1.es(), i, e as int)
                == in_subtree(w0.es(), i, e as int) by {
                lemma_subtree_stable(w0.es(), w1.es(), e as int, i);
            }
            assert(w1.es()[e as int].scene == w0.es()[e as int].scene);
            lemma_in_own_subtree(w1.es(), e as int);
        }
        match cur {
            Some(_) => {
                self.remove_root_from_scene(e);
            },
            None => {},
        }
        proof {
            assert(self.es()[e as int].scene is None);
        }
        let ghost w2 = *self;
        proof {
            lemma_subtree_frame(w1.es(), w2.es(), e as int);
        }
        self.add_root_to_scene(e, s);
        proof {
            lemma_subtree_frame(w2.es(), self.es(), e as int);
            lemma_add_entity_rel(w0, w1, w2, *self, s, e as int);
        }
        true
    }

    /// Removes `e` from scene `s` if `e` is one of its top-level roots; a
    /// no-op otherwise (in particular for descendants, which are reachable
    /// only through their parent).  The subtree's components are
    /// deregistered and its scene references cleared; the parent/child
    /// structure survives.
    pub fn remove_entity(&mut self, s: usize, e: usize) -> (removed: bool)
        requires
            old(self).wf(),
            old(self).valid_scene(s as int),
            old(self).valid_entity(e as int),
        ensures
            final(self).wf(),
            removed == (old(self).es()[e as int].scene == Some(s) && old(
                self,
            ).es()[e as int].parent is None),
            !removed ==> *final(self) == *old(self),
            removed ==> old(self).clear_scene_rel(*final(self), e as int, s),
    {
        let is_root = match (self.entities[e].scene, self.entities[e].parent) {
            (Some(s2), None) => s2 == s,
            _ => false,
        };
        if is_root {
            self.remove_root_from_scene(e);
            true
        } else {
            false
        }
    }

    /// True iff `e` is a member of scene `s` (as a root or through an
    /// ancestor).
    pub fn has_entity(&self, s: usize, e: usize) -> (r: bool)
        requires
            self.valid_entity(e as int),
        ensures
            r == (self.es()[e as int].scene == Some(s)),
    {
        match self.entities[e].scene {
            Some(s2) => s2 == s,
            None => false,
        }
    }
}

/// Stitching the phases of `add_entity` into its overall relation.
proof fn lemma_add_entity_rel<P>(
    w0: World<P>,
    w1: World<P>,
    w2: World<P>,
    w: World<P>,
    s: usize,
    e: int,
)
    requires
        w0.wf(),
        w1.wf(),
        w2.wf(),
        0 <= e < w0.es().len(),
        0 <= s < w0.scenes@.len(),
        w0.es()[e].scene != Some(s),
        // detach phase
        w0.es()[e].parent is None ==> w1 == w0,
        w0.es()[e].parent matches Some(p0) ==> exists|idx: int|
            w0.detach_rel(w1, e, p0 as int, idx),
        w1.es()[e].parent is None,
        // scene-clearing phase
        w0.es()[e].scene is None ==> w2 == w1,
        w0.es()[e].scene matches Some(s2) ==> w1.clear_scene_rel(w2, e, s2),
        // scene-setting phase
        w2.set_scene_rel(w, e, s),
        // subtree stability
        forall|i: int|
            0 <= i < w0.es().len() ==> #[trigger] in_subtree(w1.es(), i, e) == in_subtree(
                w0.es(),
                i,
                e,
            ),
        forall|i: int|
            0 <= i < w0.es().len() ==> #[trigger] in_subtree(w2.es(), i, e) == in_subtree(
                w0.es(),
                i,
                e,
            ),
    ensures
        w0.add_entity_rel(w, s, e),
{
    vstd::std_specs::vec::axiom_spec_len(&w0.entities);
    vstd::std_specs::vec::axiom_spec_len(&w0.scenes);
    lemma_in_own_subtree(w0.es(), e);
    let es0 = w0.es();
    let es = w.es();
    assert(w0.entity_ok(e));
    assert(crate::ancestry::parent_ok(es0, e));
    match es0[e].parent {
        None => {},
        Some(p0) => {
            let idx = choose|idx: int| w0.detach_rel(w1, e, p0 as int, idx);
            assert(crate::ancestry::children_ok(es0, p0 as int));
            crate::seqs::lemma_remove_is_remove_value(es0[p0 as int].children@, idx);
        },
    }
    // depths
    assert forall|i: int| 0 <= i < es0.len() implies es[i].depth as int == (if in_subtree(
        es0,
        i,
        e,
    ) {
        es0[i].depth - es0[e].depth
    } else {
        es0[i].depth as int
    }) by {
        assert(in_subtree(w2.es(), i, e) == in_subtree(es0, i, e));
        assert(in_subtree(w1.es(), i, e) == in_subtree(es0, i, e));
    }
    // scene fields
    assert forall|i: int| 0 <= i < es0.len() implies es[i].scene == (if in_subtree(es0, i, e) {
        Some(s)
    } else {
        es0[i].scene
    }) by {
        assert(in_subtree(w2.es(), i, e) == in_subtree(es0, i, e));
        assert(in_subtree(w1.es(), i, e) == in_subtree(es0, i, e));
    }
    // manager provenance for the destination scene
    assert(w.mgrs_from_or_fresh(w0.scenes@[s as int], s)) by {
        assert(w2.scenes@[s as int].managers == w0.scenes@[s as int].managers) by {
            match es0[e].scene {
                None => {},
                Some(s2) => {
                    assert(s2 != s);
                    assert(w2.scenes@[s as int].managers == w1.scenes@[s as int].managers);
                },
            }
        }
        assert(w2.scenes@[s as int].initted == w0.scenes@[s as int].initted) by {
            match es0[e].scene {
                None => {},
                Some(s2) => {
                    assert(w2.scenes@[s as int].initted == w1.scenes@[s as int].initted);
                },
            }
        }
        assert(w.mgrs_from_or_fresh(w2.scenes@[s as int], s));
        crate::transfer::lemma_from_or_fresh_same_source(
            w,
            w,
            w2.scenes@[s as int],
            w0.scenes@[s as int],
            s,
        );
    }
    // manager provenance for the source scene
    assert(es0[e].scene matches Some(s2) ==> (s2 != s ==> w.mgrs_from(
        w0.scenes@[s2 as int],
        s2,
    ))) by {
        match es0[e].scene {
            None => {},
            Some(s2) => {
                assert(w0.entity_ok(e));
                assert(w2.mgrs_from(w1.scenes@[s2 as int], s2));
                assert(w1.scenes@[s2 as int].managers == w0.scenes@[s2 as int].managers);
                assert(w.scenes@[s2 as int] == w2.scenes@[s2 as int]);
                lemma_from_same_source(
                    w2,
                    w,
                    w1.scenes@[s2 as int],
                    w0.scenes@[s2 as int],
                    s2,
                );
            },
        }
    }
}

/// Option equality on scene indices.
fn opt_eq(a: Option<usize>, b: Option<usize>) -> (r: bool)
    ensures
        r == (a == b),
{
    match (a, b) {
        (None, None) => true,
        (Some(x), Some(y)) => x == y,
        _ => false,
    }
}

/// Stitching the four phases of `add_child` into its overall relation.
proof fn lemma_add_child_rel<P>(
    w0: World<P>,
    w1: World<P>,
    w2: World<P>,
    w: World<P>,
    p: int,
    c: int,
)
    requires
        w0.wf(),
        w1.wf(),
        w2.wf(),
        w.wf(),
        0 <= p < w0.es().len(),
        0 <= c < w0.es().len(),
        !in_subtree(w0.es(), p, c),
        // phase one: detach
        w0.es()[c].parent is None ==> w1 == w0,
        w0.es()[c].parent matches Some(p0) ==> exists|idx: int|
            w0.detach_rel(w1, c, p0 as int, idx),
        w1.es()[c].parent is None,
        // phase two: scene reconciliation
        w1.es()[c].scene == w0.es()[c].scene,
        w1.es()[p].scene == w0.es()[p].scene,
        w0.es()[c].scene == w0.es()[p].scene ==> w2 == w1,
        w0.es()[c].scene != w0.es()[p].scene ==> (match w0.es()[c].scene {
            Some(sc) => (match w0.es()[p].scene {
                Some(sp) => exists|wm: World<P>|
                    (#[trigger] w1.clear_scene_rel(wm, c, sc)) && wm.set_scene_rel(w2, c, sp),
                None => w1.clear_scene_rel(w2, c, sc),
            }),
            None => (match w0.es()[p].scene {
                Some(sp) => w1.set_scene_rel(w2, c, sp),
                None => w2 == w1,
            }),
        }),
        // phase three: attach
        w2.attach_rel(w, p, c),
        // subtree stability across the phases
        forall|i: int|
            0 <= i < w0.es().len() ==> #[trigger] in_subtree(w1.es(), i, c) == in_subtree(
                w0.es(),
                i,
                c,
            ),
        forall|i: int|
            0 <= i < w0.es().len() ==> #[trigger] in_subtree(w2.es(), i, c) == in_subtree(
                w0.es(),
                i,
                c,
            ),
    ensures
        w0.add_child_rel(w, p, c),
{
    vstd::std_specs::vec::axiom_spec_len(&w0.entities);
    vstd::std_specs::vec::axiom_spec_len(&w0.scenes);
    lemma_in_own_subtree(w0.es(), c);
    assert(!in_subtree(w0.es(), p, c));
    assert(p != c);
    let es0 = w0.es();
    let es = w.es();
    assert(w0.entity_ok(p));
    assert(w0.entity_ok(c));
    if w0.es()[c].scene != w0.es()[p].scene {
        match w0.es()[c].scene {
            Some(sc) => {
                match w0.es()[p].scene {
                    Some(sp) => {
                        let wm = choose|wm: World<P>|
                            (#[trigger] w1.clear_scene_rel(wm, c, sc)) && wm.set_scene_rel(
                                w2,
                                c,
                                sp,
                            );
                        lemma_subtree_frame(w1.es(), wm.es(), c);
                    },
                    None => {},
                }
            },
            None => {},
        }
    }
    // lengths
    assert(es.len() == es0.len());
    // parents
    assert(es[c].parent == Some(p as usize));
    assert forall|i: int| 0 <= i < es0.len() && i != c implies es[i].parent == es0[i].parent by {}
    // children of p and of the old parent
    assert(crate::ancestry::parent_ok(es0, c));
    match es0[c].parent {
        None => {
            assert(!es0[p].children@.contains(c as usize)) by {
                if es0[p].children@.contains(c as usize) {
                    let k = choose|k: int|
                        0 <= k < es0[p].children@.len() && es0[p].children@[k] == c as usize;
                    assert(crate::ancestry::children_ok(es0, p));
                    assert(es0[es0[p].children@[k] as int].parent == Some(p as usize));
                }
            }
            es0[p].children@.index_of_first_ensures(c as usize);
            assert(es0[p].children@.remove_value(c as usize) == es0[p].children@);
            assert(es[p].children@ == es0[p].children@.remove_value(c as usize).push(c as usize));
        },
        Some(p0) => {
            let idx = choose|idx: int| w0.detach_rel(w1, c, p0 as int, idx);
            assert(crate::ancestry::children_ok(es0, p0 as int));
            crate::seqs::lemma_remove_is_remove_value(es0[p0 as int].children@, idx);
            if p0 as int == p {
                assert(es[p].children@ == es0[p].children@.remove_value(c as usize).push(
                    c as usize,
                ));
            } else {
                assert(!es0[p].children@.contains(c as usize)) by {
                    if es0[p].children@.contains(c as usize) {
                        let k = choose|k: int|
                            0 <= k < es0[p].children@.len() && es0[p].children@[k] == c as usize;
                        assert(crate::ancestry::children_ok(es0, p));
                        assert(es0[es0[p].children@[k] as int].parent == Some(p as usize));
                    }
                }
                es0[p].children@.index_of_first_ensures(c as usize);
                assert(es0[p].children@.remove_value(c as usize) == es0[p].children@);
                assert(es[p].children@ == es0[p].children@.remove_value(c as usize).push(
                    c as usize,
                ));
                assert(es[p0 as int].children@ == es0[p0 as int].children@.remove_value(
                    c as usize,
                ));
            }
        },
    }
    // components and scenes bookkeeping
    assert forall|i: int| 0 <= i < es0.len() implies es[i].components == es0[i].components by {}
    // depths
    assert forall|i: int| 0 <= i < es0.len() implies es[i].depth as int == (if in_subtree(
        es0,
        i,
        c,
    ) {
        es0[i].depth - es0[c].depth + es0[p].depth + 1
    } else {
        es0[i].depth as int
    }) by {
        assert(in_subtree(w2.es(), i, c) == in_subtree(es0, i, c));
        assert(in_subtree(w1.es(), i, c) == in_subtree(es0, i, c));
        if in_subtree(es0, i, c) {
            assert(!in_subtree(es0, p, c));
            assert(w2.es()[p].depth == es0[p].depth);
        }
    }
    assert(in_subtree(es0, c, c));
    assert(es[c].depth == es0[p].depth + 1) by {
        assert(crate::ancestry::parent_ok(es0, c));
        match es0[c].parent {
            None => {},
            Some(q) => {
                assert(es0[c].depth == es0[q as int].depth + 1);
            },
        }
    }
    // scene fields
    assert forall|i: int| 0 <= i < es0.len() implies es[i].scene == (if in_subtree(es0, i, c) {
        es0[p].scene
    } else {
        es0[i].scene
    }) by {
        assert(in_subtree(w2.es(), i, c) == in_subtree(es0, i, c));
        assert(in_subtree(w1.es(), i, c) == in_subtree(es0, i, c));
        if w0.es()[c].scene != w0.es()[p].scene {
            match w0.es()[c].scene {
                Some(sc) => {
                    match w0.es()[p].scene {
                        Some(sp) => {
                            let wm = choose|wm: World<P>|
                                (#[trigger] w1.clear_scene_rel(wm, c, sc)) && wm.set_scene_rel(
                                    w2,
                                    c,
                                    sp,
                                );
                            assert(in_subtree(wm.es(), i, c) == in_subtree(w1.es(), i, c));
                        },
                        None => {},
                    }
                },
                None => {},
            }
        }
        if in_subtree(es0, i, c) {
            if w0.es()[c].scene == w0.es()[p].scene {
                crate::ancestry::lemma_subtree_same_scene(w1, i, c);
            }
        }
    }
    // per-scene lifecycle fields
    assert forall|j: int|
        0 <= j < w0.scenes@.len() implies w.scenes@[j].initted == w0.scenes@[j].initted
        && w.scenes@[j].ticks == w0.scenes@[j].ticks && w.scenes@[j].plugins
        == w0.scenes@[j].plugins by {}
    // manager provenance
    assert(es0[p].scene matches Some(sp) ==> w.mgrs_from_or_fresh(w0.scenes@[sp as int], sp)) by {
        match es0[p].scene {
            None => {},
            Some(sp) => {
                if w0.es()[c].scene == w0.es()[p].scene {
                    assert(w2 == w1);
                    assert(w.scenes@[sp as int].managers@ == w2.scenes@[sp as int].managers@);
                    assert(w1.scenes@[sp as int].managers == w0.scenes@[sp as int].managers);
                    assert(w0.scene_ok(sp as int));
                    assert(w0.scene_mgr_wf(sp));
                    assert(w1.scene_ok(sp as int));
                    crate::transfer::lemma_mgrs_from_or_fresh_refl(w1, sp);
                    crate::transfer::lemma_from_or_fresh_same_source(
                        w1,
                        w,
                        w1.scenes@[sp as int],
                        w0.scenes@[sp as int],
                        sp,
                    );
                } else {
                    match w0.es()[c].scene {
                        None => {
                            assert(w1.set_scene_rel(w2, c, sp));
                            assert(w1.scenes@[sp as int].managers == w0.scenes@[sp as int].managers);
                            assert(w2.mgrs_from_or_fresh(w1.scenes@[sp as int], sp));
                            assert(w.scenes@[sp as int].managers@
                                == w2.scenes@[sp as int].managers@);
                            crate::transfer::lemma_from_or_fresh_same_source(
                                w2,
                                w,
                                w1.scenes@[sp as int],
                                w0.scenes@[sp as int],
                                sp,
                            );
                        },
                        Some(sc) => {
                            let wm = choose|wm: World<P>|
                                (#[trigger] w1.clear_scene_rel(wm, c, sc)) && wm.set_scene_rel(
                                    w2,
                                    c,
                                    sp,
                                );
                            assert(sc != sp);
                            assert(wm.scenes@[sp as int] == w1.scenes@[sp as int]);
                            assert(w1.scenes@[sp as int].managers == w0.scenes@[sp as int].managers);
                            assert(w2.mgrs_from_or_fresh(wm.scenes@[sp as int], sp));
                            assert(w.scenes@[sp as int].managers@
                                == w2.scenes@[sp as int].managers@);
                            crate::transfer::lemma_from_or_fresh_same_source(
                                w2,
                                w,
                                wm.scenes@[sp as int],
                                w0.scenes@[sp as int],
                                sp,
                            );
                        },
                    }
                }
            },
        }
    }
    assert(es0[c].scene matches Some(sc) ==> (es0[c].scene != es0[p].scene ==> w.mgrs_from(
        w0.scenes@[sc as int],
        sc,
    ))) by {
        match es0[c].scene {
            None => {},
            Some(sc) => {
                if es0[c].scene != es0[p].scene {
                    // after the clear phase the managers of `sc` never change again
                    match es0[p].scene {
                        None => {
                            assert(w1.clear_scene_rel(w2, c, sc));
                            assert(w2.mgrs_from(w1.scenes@[sc as int], sc));
                            assert(w1.scenes@[sc as int].managers == w0.scenes@[sc as int].managers);
                            assert(w.scenes@[sc as int].managers@
                                == w2.scenes@[sc as int].managers@);
                            lemma_from_same_source(
                                w2,
                                w,
                                w1.scenes@[sc as int],
                                w0.scenes@[sc as int],
                                sc,
                            );
                        },
                        Some(sp) => {
                            let wm = choose|wm: World<P>|
                                (#[trigger] w1.clear_scene_rel(wm, c, sc)) && wm.set_scene_rel(
                                    w2,
                                    c,
                                    sp,
                                );
                            assert(sc != sp);
                            assert(wm.mgrs_from(w1.scenes@[sc as int], sc));
                            assert(w1.scenes@[sc as int].managers == w0.scenes@[sc as int].managers);
                            assert(w2.scenes@[sc as int] == wm.scenes@[sc as int]);
                            assert(w.scenes@[sc as int].managers@
                                == w2.scenes@[sc as int].managers@);
                            lemma_from_same_source(
                                wm,
                                w,
                                w1.scenes@[sc as int],
                                w0.scenes@[sc as int],
                                sc,
                            );
                        },
                    }
                }
            },
        }
    }
}

/// `mgrs_from` only reads the manager list of its world argument and the
/// value of its source scene.
proof fn lemma_from_same_source<P>(
    wa: World<P>,
    wb: World<P>,
    sa: crate::scene::Scene,
    sb: crate::scene::Scene,
    s: usize,
)
    requires
        (s as int) < wa.scenes@.len(),
        (s as int) < wb.scenes@.len(),
        wa.mgrs_from(sa, s),
        sa.managers == sb.managers,
        wb.scenes@[s as int].managers@ == wa.scenes@[s as int].managers@,
    ensures
        wb.mgrs_from(sb, s),
{
    assert forall|m: int| 0 <= m < wb.scenes@[s as int].managers@.len() implies {
        let mgr = #[trigger] wb.scenes@[s as int].managers@[m];
        sb.spec_has_manager(mgr.type_id) && crate::managers::mgr_same_meta(
            sb.managers@[sb.manager_index(mgr.type_id)],
            mgr,
        )
    } by {
        let mgr = wb.scenes@[s as int].managers@[m];
        assert(wa.scenes@[s as int].managers@[m] == mgr);
        assert(sa.spec_has_manager(mgr.type_id) && crate::managers::mgr_same_meta(
            sa.managers@[sa.manager_index(mgr.type_id)],
            mgr,
        ));
        assert(sa.managers@ == sb.managers@);
        let ka = sa.manager_index(mgr.type_id);
        assert(sa.managers@[ka].type_id == mgr.type_id);
        assert(sb.managers@[ka].type_id == mgr.type_id);
        assert(sb.spec_has_manager(mgr.type_id));
        let kb = sb.manager_index(mgr.type_id);
        assert(sb.managers@[kb] == sa.managers@[kb]);
    }
}

} // verus!
