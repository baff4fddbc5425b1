//! Tree surgery: walking subtrees, detaching an entity from its parent, and
//! attaching one entity under another.

use vstd::prelude::*;
use crate::ancestry::{
    chain, children_ok, in_subtree, lemma_chain_props, lemma_chain_unfold, lemma_chains_disjoint_bound,
    lemma_in_own_subtree, lemma_subtree_depth_ge, lemma_subtree_step_down, lemma_subtree_step_up,
    parent_ok, wf_tree,
};
use crate::seqs::{
    lemma_push_contains, lemma_push_no_dup, lemma_remove_contains, lemma_remove_is_remove_value,
    lemma_remove_no_dup,
};
use crate::world::World;

verus! {

/// Finds the position of `x` in `v`.
pub(crate) fn find_position(v: &Vec<usize>, x: usize) -> (r: Option<usize>)
    ensures
        match r {
            Some(k) => k < v@.len() && v@[k as int] == x,
            None => !v@.contains(x),
        },
{
    let n = v.len();
    let mut k: usize = 0;
    while k < n
        invariant
            k <= n,
            n == v@.len(),
            forall|j: int| 0 <= j < k ==> v@[j] != x,
        decreases n - k,
    {
        if v[k] == x {
            return Some(k);
        }
        k = k + 1;
    }
    proof {
        if v@.contains(x) {
            let j = choose|j: int| 0 <= j < v@.len() && v@[j] == x;
            assert(v@[j] != x);
        }
    }
    None
}

impl<P> World<P> {
    /// True iff `a` is `e` itself or one of `e`'s ancestors, i.e. `e` lies
    /// in the subtree rooted at `a`.
    pub fn is_under(&self, e: usize, a: usize) -> (b: bool)
        requires
            self.wf(),
            self.valid_entity(e as int),
            self.valid_entity(a as int),
        ensures
            b == in_subtree(self.es(), e as int, a as int),
    {
        let ghost es = self.es();
        let mut cur = e;
        loop
            invariant
                self.wf(),
                es == self.es(),
                cur < es.len(),
                a < es.len(),
                in_subtree(es, e as int, a as int) <==> in_subtree(es, cur as int, a as int),
            decreases es[cur as int].depth,
        {
            proof {
                lemma_chain_props(es, cur as int);
                lemma_chain_unfold(es, cur as int);
            }
            if cur == a {
                proof {
                    lemma_in_own_subtree(es, cur as int);
                }
                return true;
            }
            match self.entities[cur].parent {
                Some(p) => {
                    proof {
                        assert(parent_ok(es, cur as int));
                        lemma_push_contains(chain(es, p as int), cur as int, a as int);
                    }
                    cur = p;
                },
                None => {
                    proof {
                        assert(chain(es, cur as int) == seq![cur as int]);
                        if in_subtree(es, cur as int, a as int) {
                            let k = choose|k: int|
                                0 <= k < chain(es, cur as int).len() && chain(es, cur as int)[k]
                                    == a as int;
                            assert(chain(es, cur as int)[k] == cur as int);
                        }
                    }
                    return false;
                },
            }
        }
    }

    /// Computes, for every entity, whether it lies in the subtree rooted at
    /// `c`.
    pub(crate) fn mark_subtree(&self, c: usize) -> (marks: Vec<bool>)
        requires
            self.wf(),
            self.valid_entity(c as int),
        ensures
            marks@.len() == self.es().len(),
            forall|i: int| 0 <= i < marks@.len() ==> marks@[i] == in_subtree(self.es(), i, c as int),
    {
        let n = self.entities.len();
        let mut marks: Vec<bool> = Vec::new();
        let mut i: usize = 0;
        while i < n
            invariant
                self.wf(),
                i <= n,
                n == self.es().len(),
                c < n,
                marks@.len() == i,
                forall|k: int| 0 <= k < i ==> marks@[k] == in_subtree(self.es(), k, c as int),
            decreases n - i,
        {
            let b = self.is_under(i, c);
            marks.push(b);
            i = i + 1;
        }
        marks
    }

    /// The relation between the arena before and after `detach(e)`, for an
    /// entity `e` whose parent was `p0` at position `idx` of `p0`'s children:
    /// `e` becomes parentless, the depths in its subtree drop by its old
    /// depth, `p0` loses exactly `e` from its children, everything else is
    /// untouched — except that a detached member of a scene is appended to
    /// that scene's roots.
    pub open spec fn detach_rel(self, w: World<P>, e: int, p0: int, idx: int) -> bool {
        let es0 = self.es();
        let es = w.es();
        let de = es0[e].depth;
        &&& es.len() == es0.len()
        &&& es[e].parent is None
        &&& (forall|i: int| 0 <= i < es0.len() && i != e ==> es[i].parent == es0[i].parent)
        &&& 0 <= idx < es0[p0].children@.len()
        &&& es0[p0].children@[idx] == e as usize
        &&& es[p0].children@ == es0[p0].children@.remove(idx)
        &&& (forall|i: int| 0 <= i < es0.len() && i != p0 ==> es[i].children == es0[i].children)
        &&& (forall|i: int|
            0 <= i < es0.len() ==> es[i].scene == es0[i].scene && es[i].components
                == es0[i].components)
        &&& (forall|i: int|
            0 <= i < es0.len() ==> es[i].depth as int == if in_subtree(es0, i, e) {
                es0[i].depth - de
            } else {
                es0[i].depth as int
            })
        &&& w.scenes@.len() == self.scenes@.len()
        &&& match es0[e].scene {
            None => w.scenes == self.scenes,
            Some(s) => {
                &&& w.scenes@[s as int].roots@ == self.scenes@[s as int].roots@.push(e as usize)
                &&& w.scenes@[s as int].initted == self.scenes@[s as int].initted
                &&& w.scenes@[s as int].ticks == self.scenes@[s as int].ticks
                &&& w.scenes@[s as int].managers == self.scenes@[s as int].managers
                &&& w.scenes@[s as int].plugins == self.scenes@[s as int].plugins
                &&& (forall|j: int|
                    0 <= j < self.scenes@.len() && j != s ==> w.scenes@[j] == self.scenes@[j])
            },
        }
    }

    /// Detaches `e` from its parent: `e` is removed from the parent's
    /// children, becomes a root of its own tree at depth 0, and the depths
    /// of its whole subtree are recomputed.  A no-op if `e` has no parent.
    /// Scene membership is not altered: a detached member of a scene becomes
    /// one of that scene's top-level roots.
    pub fn detach(&mut self, e: usize)
        requires
            old(self).wf(),
            old(self).valid_entity(e as int),
        ensures
            final(self).wf(),
            old(self).es()[e as int].parent is None ==> *final(self) == *old(self),
            old(self).es()[e as int].parent matches Some(p0) ==> exists|idx: int|
                old(self).detach_rel(*final(self), e as int, p0 as int, idx),
            final(self).es()[e as int].parent is None,
            final(self).es()[e as int].depth == 0,
            final(self).es().len() == old(self).es().len(),
            final(self).scenes@.len() == old(self).scenes@.len(),
    {
        let ghost w0 = *self;
        let p0 = match self.entities[e].parent {
            None => {
                proof {
                    assert(parent_ok(self.es(), e as int));
                }
                return ;
            },
            Some(p) => p,
        };
        proof {
            assert(parent_ok(w0.es(), e as int));
        }
        let marks = self.mark_subtree(e);
        let de = self.entities[e].depth;
        let idx = match find_position(&self.entities[p0].children, e) {
            Some(k) => k,
            None => {
                proof {
                    assert(w0.es()[p0 as int].children@.contains(e));
                    assert(false);
                }
                0
            },
        };
        self.entities[p0].children.remove(idx);
        self.entities[e].parent = None;
        let n = self.entities.len();
        let mut i: usize = 0;
        while i < n
            invariant
                n == self.es().len(),
                n == w0.es().len(),
                i <= n,
                e < n,
                p0 < n,
                wf_tree(w0.es()),
                de == w0.es()[e as int].depth,
                marks@.len() == n,
                forall|k: int| 0 <= k < n ==> marks@[k] == in_subtree(w0.es(), k, e as int),
                self.scenes == w0.scenes,
                self.es()[e as int].parent is None,
                forall|k: int|
                    0 <= k < n && k != e ==> self.es()[k].parent == w0.es()[k].parent,
                self.es()[p0 as int].children@ == w0.es()[p0 as int].children@.remove(idx as int),
                forall|k: int|
                    0 <= k < n && k != p0 ==> self.es()[k].children == w0.es()[k].children,
                forall|k: int|
                    0 <= k < n ==> self.es()[k].scene == w0.es()[k].scene && self.es()[k].components
                        == w0.es()[k].components,
                forall|k: int|
                    0 <= k < i ==> self.es()[k].depth as int == if in_subtree(w0.es(), k, e as int) {
                        w0.es()[k].depth - de
                    } else {
                        w0.es()[k].depth as int
                    },
                forall|k: int| i <= k < n ==> self.es()[k].depth == w0.es()[k].depth,
            decreases n - i,
        {
            if marks[i] {
                proof {
                    lemma_subtree_depth_ge(w0.es(), i as int, e as int);
                }
                let d = self.entities[i].depth;
                self.entities[i].depth = d - de;
            }
            i = i + 1;
        }
        let s_opt = self.entities[e].scene;
        match s_opt {
            Some(s) => {
                proof {
                    assert(w0.entity_ok(e as int));
                }
                self.scenes[s].roots.push(e);
            },
            None => {},
        }
        proof {
            assert(w0.detach_rel(*self, e as int, p0 as int, idx as int));
            lemma_detach_wf(w0, *self, e as int, p0 as int, idx as int);
            lemma_in_own_subtree(w0.es(), e as int);
        }
    }
}

impl<P> World<P> {
    /// The relation between the arena before and after attaching the
    /// parentless entity `c` under `p`: `c`'s parent becomes `p`, `c` is
    /// appended to `p`'s children, the depths in `c`'s subtree rise by
    /// `depth(p) + 1`, everything else is untouched — except that a member
    /// of a scene stops being one of its scene's roots when it gains a
    /// parent.
    pub open spec fn attach_rel(self, w: World<P>, p: int, c: int) -> bool {
        let es0 = self.es();
        let es = w.es();
        let dp = es0[p].depth;
        &&& es.len() == es0.len()
        &&& es[c].parent == Some(p as usize)
        &&& (forall|i: int| 0 <= i < es0.len() && i != c ==> es[i].parent == es0[i].parent)
        &&& es[p].children@ == es0[p].children@.push(c as usize)
        &&& (forall|i: int| 0 <= i < es0.len() && i != p ==> es[i].children == es0[i].children)
        &&& (forall|i: int|
            0 <= i < es0.len() ==> es[i].scene == es0[i].scene && es[i].components
                == es0[i].components)
        &&& (forall|i: int|
            0 <= i < es0.len() ==> es[i].depth as int == if in_subtree(es0, i, c) {
                es0[i].depth + dp + 1
            } else {
                es0[i].depth as int
            })
        &&& w.scenes@.len() == self.scenes@.len()
        &&& match es0[c].scene {
            None => w.scenes == self.scenes,
            Some(s) => {
                &&& w.scenes@[s as int].roots@ == self.scenes@[s as int].roots@.remove_value(
                    c as usize,
                )
                &&& w.scenes@[s as int].initted == self.scenes@[s as int].initted
                &&& w.scenes@[s as int].ticks == self.scenes@[s as int].ticks
                &&& w.scenes@[s as int].managers == self.scenes@[s as int].managers
                &&& w.scenes@[s as int].plugins == self.scenes@[s as int].plugins
                &&& (forall|j: int|
                    0 <= j < self.scenes@.len() && j != s ==> w.scenes@[j] == self.scenes@[j])
            },
        }
    }

    /// Attaches the parentless entity `c` under `p`, recomputing the depths
    /// of `c`'s subtree.  The two entities must already sit in the same
    /// scene (or in none), so scene membership is unaffected; a scene member
    /// stops being a top-level root of its scene.
    pub(crate) fn attach_root(&mut self, p: usize, c: usize)
        requires
            old(self).wf(),
            old(self).valid_entity(p as int),
            old(self).valid_entity(c as int),
            old(self).es()[c as int].parent is None,
            old(self).es()[c as int].scene == old(self).es()[p as int].scene,
            !in_subtree(old(self).es(), p as int, c as int),
        ensures
            final(self).wf(),
            old(self).attach_rel(*final(self), p as int, c as int),
    {
        let ghost w0 = *self;
        proof {
            lemma_in_own_subtree(w0.es(), c as int);
        }
        let marks = self.mark_subtree(c);
        let dp = self.entities[p].depth;
        let n = self.entities.len();
        let mut i: usize = 0;
        while i < n
            invariant
                n == self.es().len(),
                n == w0.es().len(),
                i <= n,
                c < n,
                p < n,
                p != c,
                w0.wf(),
                dp == w0.es()[p as int].depth,
                w0.es()[c as int].parent is None,
                !in_subtree(w0.es(), p as int, c as int),
                marks@.len() == n,
                forall|k: int| 0 <= k < n ==> marks@[k] == in_subtree(w0.es(), k, c as int),
                self.scenes == w0.scenes,
                forall|k: int| 0 <= k < n ==> self.es()[k].parent == w0.es()[k].parent,
                forall|k: int| 0 <= k < n ==> self.es()[k].children == w0.es()[k].children,
                forall|k: int|
                    0 <= k < n ==> self.es()[k].scene == w0.es()[k].scene && self.es()[k].components
                        == w0.es()[k].components,
                forall|k: int|
                    0 <= k < i ==> self.es()[k].depth as int == if in_subtree(w0.es(), k, c as int) {
                        w0.es()[k].depth + dp + 1
                    } else {
                        w0.es()[k].depth as int
                    },
                forall|k: int| i <= k < n ==> self.es()[k].depth == w0.es()[k].depth,
            decreases n - i,
        {
            if marks[i] {
                proof {
                    lemma_chains_disjoint_bound(w0.es(), i as int, p as int, c as int);
                    vstd::std_specs::vec::axiom_spec_len(&w0.entities);
                }
                let d = self.entities[i].depth;
                self.entities[i].depth = d + dp + 1;
            }
            i = i + 1;
        }
        self.entities[c].parent = Some(p);
        self.entities[p].children.push(c);
        let s_opt = self.entities[c].scene;
        match s_opt {
            Some(s) => {
                proof {
                    assert(w0.entity_ok(c as int));
                    assert(w0.scene_ok(s as int));
                    assert(w0.root_coverage_ok(s as int));
                    assert(w0.scenes@[s as int].roots@.contains(c));
                }
                let idxr = match find_position(&self.scenes[s].roots, c) {
                    Some(k) => k,
                    None => {
                        proof {
                            assert(false);
                        }
                        0
                    },
                };
                self.scenes[s].roots.remove(idxr);
                proof {
                    assert(w0.roots_ok(s as int));
                    lemma_remove_is_remove_value(w0.scenes@[s as int].roots@, idxr as int);
                }
            },
            None => {},
        }
        proof {
            assert(w0.attach_rel(*self, p as int, c as int));
            lemma_attach_wf(w0, *self, p as int, c as int);
        }
    }
}

/// `attach_root` preserves the global invariant.
pub proof fn lemma_attach_wf<P>(w0: World<P>, w: World<P>, p: int, c: int)
    requires
        w0.wf(),
        0 <= p < w0.es().len(),
        0 <= c < w0.es().len(),
        w0.es()[c].parent is None,
        w0.es()[c].scene == w0.es()[p].scene,
        !in_subtree(w0.es(), p, c),
        w0.attach_rel(w, p, c),
    ensures
        w.wf(),
{
    let es0 = w0.es();
    let es = w.es();
    let dp = es0[p].depth;
    vstd::std_specs::vec::axiom_spec_len(&w0.entities);
    vstd::std_specs::vec::axiom_spec_len(&w0.scenes);
    lemma_in_own_subtree(es0, c);
    assert(p != c);
    // the parent links and depth caches stay consistent
    assert forall|i: int| 0 <= i < es.len() implies #[trigger] parent_ok(es, i) by {
        assert(parent_ok(es0, i));
        lemma_push_contains(es0[p].children@, c as usize, i as usize);
        if i == c {
            assert(es[c].depth as int == es0[c].depth + dp + 1);
            assert(es0[c].depth == 0);
            assert(es[p].depth == es0[p].depth);
        } else {
            match es0[i].parent {
                None => {
                    lemma_chain_unfold(es0, i);
                    if in_subtree(es0, i, c) {
                        let k = choose|k: int|
                            0 <= k < chain(es0, i).len() && chain(es0, i)[k] == c;
                        assert(chain(es0, i) == seq![i]);
                        assert(chain(es0, i)[k] == i);
                    }
                },
                Some(q) => {
                    let qi = q as int;
                    if in_subtree(es0, i, c) {
                        lemma_subtree_step_up(es0, i, c);
                        assert(in_subtree(es0, qi, c));
                        assert(qi != p);
                        assert(es[qi].children == es0[qi].children);
                    } else {
                        if in_subtree(es0, qi, c) {
                            lemma_subtree_step_down(es0, i, c);
                        }
                        assert(es[i].depth == es0[i].depth);
                        assert(es[qi].depth == es0[qi].depth);
                        if qi == p {
                            assert(es[p].children@.contains(i as usize));
                        }
                    }
                },
            }
        }
    }
    // the children lists stay consistent
    assert forall|i: int| 0 <= i < es.len() implies #[trigger] children_ok(es, i) by {
        assert(children_ok(es0, i));
        if i == p {
            assert(!es0[p].children@.contains(c as usize)) by {
                if es0[p].children@.contains(c as usize) {
                    let k = choose|k: int|
                        0 <= k < es0[p].children@.len() && es0[p].children@[k] == c as usize;
                    assert(es0[es0[p].children@[k] as int].parent == Some(p as usize));
                }
            }
            lemma_push_no_dup(es0[p].children@, c as usize);
            assert forall|k: int| 0 <= k < es[i].children@.len() implies (
            #[trigger] es[i].children@[k]) < es.len() && es[i].children@[k] != i && es[es[
                i
            ].children@[k] as int].parent == Some(i as usize) by {
                if k < es0[p].children@.len() {
                    let x = es0[i].children@[k];
                    assert(x < es0.len() && x != i && es0[x as int].parent == Some(i as usize));
                    assert(x as int != c) by {
                        if x as int == c {
                            assert(es0[c].parent == Some(i as usize));
                        }
                    }
                    assert(es[x as int].parent == es0[x as int].parent);
                } else {
                    assert(es[i].children@[k] == c as usize);
                }
            }
        } else {
            assert(es[i].children == es0[i].children);
            assert forall|k: int| 0 <= k < es[i].children@.len() implies (
            #[trigger] es[i].children@[k]) < es.len() && es[i].children@[k] != i && es[es[
                i
            ].children@[k] as int].parent == Some(i as usize) by {
                let x = es0[i].children@[k];
                assert(x < es0.len() && x != i && es0[x as int].parent == Some(i as usize));
                assert(x as int != c) by {
                    if x as int == c {
                        assert(es0[c].parent == Some(i as usize));
                    }
                }
                assert(es[x as int].parent == es0[x as int].parent);
            }
        }
    }
    // per-entity facts and scene uniformity along edges
    assert forall|i: int| 0 <= i < es.len() implies #[trigger] w.entity_ok(i) by {
        assert(w0.entity_ok(i));
        assert(es[i].components@ == es0[i].components@);
    }
    assert forall|i: int| 0 <= i < es.len() implies #[trigger] w.scene_edge_ok(i) by {
        assert(w0.scene_edge_ok(i));
        if i == c {
            assert(es[c].scene == es0[c].scene);
            assert(es[p].scene == es0[p].scene);
        } else {
            match es0[i].parent {
                None => {},
                Some(q) => {
                    assert(parent_ok(es0, i));
                    assert(es[q as int].scene == es0[q as int].scene);
                },
            }
        }
    }
    lemma_attach_scene_parts(w0, w, p, c);
}

/// The scene-level parts of `attach_root`'s invariant preservation.
proof fn lemma_attach_scene_parts<P>(w0: World<P>, w: World<P>, p: int, c: int)
    requires
        w0.wf(),
        0 <= p < w0.es().len(),
        0 <= c < w0.es().len(),
        w0.es()[c].parent is None,
        w0.es()[c].scene == w0.es()[p].scene,
        !in_subtree(w0.es(), p, c),
        w0.attach_rel(w, p, c),
    ensures
        forall|j: int| 0 <= j < w.scenes@.len() ==> #[trigger] w.scene_ok(j),
{
    let es0 = w0.es();
    let es = w.es();
    vstd::std_specs::vec::axiom_spec_len(&w0.entities);
    vstd::std_specs::vec::axiom_spec_len(&w0.scenes);
    assert forall|j: int|
        0 <= j < w0.scenes@.len() implies w.scenes@[j].managers == w0.scenes@[j].managers
        && w.scenes@[j].plugins == w0.scenes@[j].plugins by {
        match es0[c].scene {
            None => {
                assert(w.scenes@[j] == w0.scenes@[j]);
            },
            Some(s) => {
                if j != s as int {
                    assert(w.scenes@[j] == w0.scenes@[j]);
                }
            },
        }
    }
    crate::world::lemma_scene_sync_frame(w0, w);
    assert forall|j: int| 0 <= j < w.scenes@.len() implies #[trigger] w.scene_ok(j) by {
        assert(w0.scene_ok(j));
        let r0 = w0.scenes@[j].roots@;
        let r = w.scenes@[j].roots@;
        let same: bool = match es0[c].scene {
            None => true,
            Some(s) => j != s as int,
        };
        if same {
            assert(w.scenes@[j] == w0.scenes@[j]);
            assert(r == r0);
            assert forall|k: int| 0 <= k < r.len() implies (#[trigger] r[k]) < es.len()
                && es[r[k] as int].parent is None && es[r[k] as int].scene == Some(
            j as usize) by {
                assert(r0[k] < es0.len() && es0[r0[k] as int].parent is None
                    && es0[r0[k] as int].scene == Some(j as usize));
                assert(r[k] as int != c) by {
                    if r0[k] as int == c {
                        match es0[c].scene {
                            None => {},
                            Some(s) => {},
                        }
                    }
                }
            }
            assert(r.no_duplicates());
            assert forall|i: int|
                0 <= i < es.len() && (#[trigger] es[i]).scene == Some(j as usize) && es[i].parent
                    is None implies w.scenes@[j].roots@.contains(i as usize) by {
                assert(i != c) by {
                    if i == c {
                        assert(es[c].scene == es0[c].scene);
                    }
                }
                assert(es0[i].scene == Some(j as usize));
                assert(es0[i].parent == es[i].parent);
                assert(w0.scenes@[j].roots@.contains(i as usize));
            }
        } else {
            // the roots of `c`'s own scene: exactly `c` is dropped
            assert(r == r0.remove_value(c as usize));
            assert(r0.contains(c as usize)) by {
                assert(w0.root_coverage_ok(j));
            }
            r0.index_of_first_ensures(c as usize);
            let ridx0 = r0.index_of_first(c as usize).unwrap();
            assert(r == r0.remove(ridx0));
            lemma_remove_no_dup(r0, ridx0);
            assert forall|k: int| 0 <= k < r.len() implies (#[trigger] r[k]) < es.len()
                && es[r[k] as int].parent is None && es[r[k] as int].scene == Some(
            j as usize) by {
                lemma_remove_contains(r0, ridx0, r[k]);
                assert(r.contains(r[k]));
                assert(r0.contains(r[k]));
                let k0 = choose|k0: int| 0 <= k0 < r0.len() && r0[k0] == r[k];
                assert(r0[k0] < es0.len() && es0[r0[k0] as int].parent is None
                    && es0[r0[k0] as int].scene == Some(j as usize));
                assert(r[k] as int != c);
            }
            assert forall|i: int|
                0 <= i < es.len() && (#[trigger] es[i]).scene == Some(j as usize) && es[i].parent
                    is None implies w.scenes@[j].roots@.contains(i as usize) by {
                assert(i != c) by {
                    if i == c {
                        assert(es[c].parent == Some(p as usize));
                    }
                }
                assert(es0[i].scene == Some(j as usize));
                assert(es0[i].parent == es[i].parent);
                assert(w0.scenes@[j].roots@.contains(i as usize));
                lemma_remove_contains(r0, ridx0, i as usize);
            }
        }
    }
}

/// `detach` preserves the global invariant.
pub proof fn lemma_detach_wf<P>(w0: World<P>, w: World<P>, e: int, p0: int, idx: int)
    requires
        w0.wf(),
        0 <= e < w0.es().len(),
        0 <= p0 < w0.es().len(),
        w0.es()[e].parent == Some(p0 as usize),
        w0.detach_rel(w, e, p0, idx),
    ensures
        w.wf(),
{
    let es0 = w0.es();
    let es = w.es();
    let de = es0[e].depth;
    vstd::std_specs::vec::axiom_spec_len(&w0.entities);
    vstd::std_specs::vec::axiom_spec_len(&w0.scenes);
    assert(parent_ok(es0, e));
    assert(children_ok(es0, p0));
    lemma_in_own_subtree(es0, e);
    assert(!in_subtree(es0, p0, e)) by {
        if in_subtree(es0, p0, e) {
            lemma_subtree_depth_ge(es0, p0, e);
        }
    }
    // the parent links and depth caches stay consistent
    assert forall|i: int| 0 <= i < es.len() implies #[trigger] parent_ok(es, i) by {
        assert(parent_ok(es0, i));
        if i == e {
        } else {
            match es0[i].parent {
                None => {
                    lemma_chain_unfold(es0, i);
                    if in_subtree(es0, i, e) {
                        let k = choose|k: int|
                            0 <= k < chain(es0, i).len() && chain(es0, i)[k] == e;
                        assert(chain(es0, i) == seq![i]);
                        assert(chain(es0, i)[k] == i);
                    }
                },
                Some(q) => {
                    let qi = q as int;
                    if in_subtree(es0, i, e) {
                        lemma_subtree_step_up(es0, i, e);
                        assert(in_subtree(es0, qi, e));
                        lemma_subtree_depth_ge(es0, qi, e);
                        assert(qi != p0);
                        assert(es[qi].children == es0[qi].children);
                    } else {
                        if in_subtree(es0, qi, e) {
                            lemma_subtree_step_down(es0, i, e);
                        }
                        assert(es[i].depth == es0[i].depth);
                        assert(es[qi].depth == es0[qi].depth);
                        if qi == p0 {
                            assert(es0[p0].children@.no_duplicates());
                            lemma_remove_contains(
                                es0[p0].children@,
                                idx,
                                i as usize,
                            );
                            assert(i as usize != e as usize);
                            assert(es[p0].children@.contains(i as usize));
                        }
                    }
                },
            }
        }
    }
    // the children lists stay consistent
    assert forall|i: int| 0 <= i < es.len() implies #[trigger] children_ok(es, i) by {
        assert(children_ok(es0, i));
        if i == p0 {
            lemma_remove_no_dup(es0[p0].children@, idx);
            assert forall|k: int| 0 <= k < es[i].children@.len() implies (
            #[trigger] es[i].children@[k]) < es.len() && es[i].children@[k] != i && es[es[
                i
            ].children@[k] as int].parent == Some(i as usize) by {
                es0[p0].children@.remove_ensures(idx);
                let j: int = if k < idx {
                    k
                } else {
                    k + 1
                };
                assert(es[i].children@[k] == es0[i].children@[j]);
                let c = es0[i].children@[j];
                assert(c < es0.len() && c != i && es0[c as int].parent == Some(i as usize));
                assert(c as int != e) by {
                    if c as int == e {
                        assert(es0[p0].children@[j] == es0[p0].children@[idx]);
                        assert(es0[p0].children@.no_duplicates());
                    }
                }
                assert(es[c as int].parent == es0[c as int].parent);
            }
        } else {
            assert(es[i].children == es0[i].children);
            assert forall|k: int| 0 <= k < es[i].children@.len() implies (
            #[trigger] es[i].children@[k]) < es.len() && es[i].children@[k] != i && es[es[
                i
            ].children@[k] as int].parent == Some(i as usize) by {
                let c = es0[i].children@[k];
                assert(c < es0.len() && c != i && es0[c as int].parent == Some(i as usize));
                assert(c as int != e) by {
                    if c as int == e {
                        assert(es0[e].parent == Some(i as usize));
                    }
                }
                assert(es[c as int].parent == es0[c as int].parent);
            }
        }
    }
    // per-entity facts and scene uniformity along edges
    assert forall|i: int| 0 <= i < es.len() implies #[trigger] w.entity_ok(i) by {
        assert(w0.entity_ok(i));
        assert(es[i].components@ == es0[i].components@);
    }
    assert forall|i: int| 0 <= i < es.len() implies #[trigger] w.scene_edge_ok(i) by {
        assert(w0.scene_edge_ok(i));
        if i != e {
            match es0[i].parent {
                None => {},
                Some(q) => {
                    assert(parent_ok(es0, i));
                    assert(es[q as int].scene == es0[q as int].scene);
                },
            }
        }
    }
    // scenes: roots, managers, plugins
    lemma_scene_parts(w0, w, e, p0, idx);
}

/// The scene-level parts of `detach`'s invariant preservation.
proof fn lemma_scene_parts<P>(w0: World<P>, w: World<P>, e: int, p0: int, idx: int)
    requires
        w0.wf(),
        0 <= e < w0.es().len(),
        0 <= p0 < w0.es().len(),
        w0.es()[e].parent == Some(p0 as usize),
        w0.detach_rel(w, e, p0, idx),
    ensures
        forall|j: int| 0 <= j < w.scenes@.len() ==> #[trigger] w.scene_ok(j),
{
    let es0 = w0.es();
    let es = w.es();
    vstd::std_specs::vec::axiom_spec_len(&w0.entities);
    vstd::std_specs::vec::axiom_spec_len(&w0.scenes);
    assert forall|j: int|
        0 <= j < w0.scenes@.len() implies w.scenes@[j].managers == w0.scenes@[j].managers
        && w.scenes@[j].plugins == w0.scenes@[j].plugins by {
        match es0[e].scene {
            None => {
                assert(w.scenes@[j] == w0.scenes@[j]);
            },
            Some(s) => {
                if j != s as int {
                    assert(w.scenes@[j] == w0.scenes@[j]);
                }
            },
        }
    }
    crate::world::lemma_scene_sync_frame(w0, w);
    assert forall|j: int| 0 <= j < w.scenes@.len() implies #[trigger] w.scene_ok(j) by {
        assert(w0.scene_ok(j));
        let r0 = w0.scenes@[j].roots@;
        let r = w.scenes@[j].roots@;
        // roots_ok
        assert forall|k: int| 0 <= k < r.len() implies (#[trigger] r[k]) < es.len() && es[r[k] as int].parent is None
            && es[r[k] as int].scene == Some(j as usize) by {
            if k < r0.len() && r[k] == r0[k] {
                assert(r0[k] < es0.len() && es0[r0[k] as int].parent is None && es0[r0[k] as int].scene
                    == Some(j as usize));
                assert(r[k] as int != e) by {
                    if r0[k] as int == e {
                        assert(es0[e].parent is None);
                    }
                }
            } else {
                assert(match es0[e].scene {
                    None => w.scenes == w0.scenes,
                    Some(s) => s == j && r == r0.push(e as usize) && k == r0.len(),
                }) by {
                    match es0[e].scene {
                        None => {
                            assert(w.scenes@[j] == w0.scenes@[j]);
                        },
                        Some(s) => {
                            if s as int != j {
                                assert(w.scenes@[j] == w0.scenes@[j]);
                            }
                        },
                    }
                }
                assert(es[e].parent is None);
                assert(es[e].scene == es0[e].scene);
            }
        }
        assert(r.no_duplicates()) by {
            match es0[e].scene {
                None => {
                    assert(w.scenes@[j] == w0.scenes@[j]);
                },
                Some(s) => {
                    if s as int == j {
                        assert(!r0.contains(e as usize)) by {
                            if r0.contains(e as usize) {
                                let k = choose|k: int| 0 <= k < r0.len() && r0[k] == e as usize;
                                assert(es0[r0[k] as int].parent is None);
                            }
                        }
                        lemma_push_no_dup(r0, e as usize);
                    } else {
                        assert(w.scenes@[j] == w0.scenes@[j]);
                    }
                },
            }
        }
        // root_coverage_ok
        assert forall|i: int|
            0 <= i < es.len() && (#[trigger] es[i]).scene == Some(j as usize) && es[i].parent
                is None implies w.scenes@[j].roots@.contains(i as usize) by {
            if i == e {
                match es0[e].scene {
                    None => {},
                    Some(s) => {
                        assert(s as int == j);
                        lemma_push_contains(r0, e as usize, e as usize);
                    },
                }
            } else {
                assert(es0[i].scene == Some(j as usize));
                assert(es0[i].parent == es[i].parent);
                assert(w0.scenes@[j].roots@.contains(i as usize));
                match es0[e].scene {
                    None => {
                        assert(w.scenes@[j] == w0.scenes@[j]);
                    },
                    Some(s) => {
                        if s as int == j {
                            lemma_push_contains(r0, e as usize, i as usize);
                        } else {
                            assert(w.scenes@[j] == w0.scenes@[j]);
                        }
                    },
                }
            }
        }
        assert(w.scenes@[j].managers_distinct()) by {
            match es0[e].scene {
                None => {
                    assert(w.scenes@[j] == w0.scenes@[j]);
                },
                Some(s) => {
                    assert(w.scenes@[j].managers@ == w0.scenes@[j].managers@);
                },
            }
        }
    }
}

} // verus!
