//! Low-level manager bookkeeping: inserting one (entity, component type)
//! pair into the manager of its type — creating the manager on the 0 -> 1
//! transition — and removing one pair — destroying the manager on the
//! 1 -> 0 transition.

use vstd::prelude::*;
use crate::component_manager::ComponentManager;
use crate::entity::Entity;
use crate::id::Id;
use crate::world::World;

verus! {

/// The managers stand in ascending order of their scheduling priority.
pub open spec fn sorted_by_order(ms: Seq<ComponentManager>) -> bool {
    forall|a: int, b: int| 0 <= a < b < ms.len() ==> (#[trigger] ms[a]).order <= (#[trigger] ms[b]).order
}

/// Two managers agree on everything but their member list.
pub open spec fn mgr_same_meta(m1: ComponentManager, m2: ComponentManager) -> bool {
    &&& m2.type_id == m1.type_id
    &&& m2.order == m1.order
    &&& m2.scene == m1.scene
    &&& m2.init_calls == m1.init_calls
    &&& m2.update_calls == m1.update_calls
}

/// The pairs contributed by the components of `ent` (an entity at index
/// `x`) whose position is in `[lo, hi)` and whose manager type is `mt`.
pub open spec fn comp_pairs_range<P>(ent: Entity<P>, x: usize, lo: int, hi: int, mt: Id) -> Set<
    (usize, Id),
> {
    Set::new(
        |pr: (usize, Id)|
            pr.0 == x && exists|k: int|
                lo <= k < hi && 0 <= k < ent.components@.len() && ent.components@[k].type_id == pr.1
                    && ent.components@[k].manager_type_id == mt,
    )
}

/// Stepping the lower bound of a component range: the pair of the component
/// at `k` splits off, and by per-type uniqueness it does not reappear later
/// in the range.
pub proof fn lemma_range_step<P>(ent: Entity<P>, x: usize, k: int, mt: Id)
    requires
        0 <= k < ent.components@.len(),
        ent.components_distinct(),
    ensures
        ent.components@[k].manager_type_id == mt ==> comp_pairs_range(
            ent,
            x,
            k,
            ent.components@.len() as int,
            mt,
        ) == comp_pairs_range(ent, x, k + 1, ent.components@.len() as int, mt).insert(
            (x, ent.components@[k].type_id),
        ) && !comp_pairs_range(ent, x, k + 1, ent.components@.len() as int, mt).contains(
            (x, ent.components@[k].type_id),
        ),
        ent.components@[k].manager_type_id != mt ==> comp_pairs_range(
            ent,
            x,
            k,
            ent.components@.len() as int,
            mt,
        ) == comp_pairs_range(ent, x, k + 1, ent.components@.len() as int, mt),
{
    let hi = ent.components@.len() as int;
    if ent.components@[k].manager_type_id == mt {
        let tid = ent.components@[k].type_id;
        assert(!comp_pairs_range(ent, x, k + 1, hi, mt).contains((x, tid))) by {
            if comp_pairs_range(ent, x, k + 1, hi, mt).contains((x, tid)) {
                let k2 = choose|k2: int|
                    k + 1 <= k2 < hi && 0 <= k2 < ent.components@.len()
                        && ent.components@[k2].type_id == tid
                        && ent.components@[k2].manager_type_id == mt;
                assert(ent.components@[k].type_id != ent.components@[k2].type_id);
            }
        }
        assert(comp_pairs_range(ent, x, k, hi, mt) =~= comp_pairs_range(
            ent,
            x,
            k + 1,
            hi,
            mt,
        ).insert((x, tid))) by {
            assert forall|pr: (usize, Id)|
                comp_pairs_range(ent, x, k, hi, mt).contains(pr) == comp_pairs_range(
                    ent,
                    x,
                    k + 1,
                    hi,
                    mt,
                ).insert((x, tid)).contains(pr) by {
                if comp_pairs_range(ent, x, k, hi, mt).contains(pr) {
                    let k2 = choose|k2: int|
                        k <= k2 < hi && 0 <= k2 < ent.components@.len()
                            && ent.components@[k2].type_id == pr.1
                            && ent.components@[k2].manager_type_id == mt;
                    if k2 == k {
                        assert(pr == (x, tid));
                    } else {
                        assert(comp_pairs_range(ent, x, k + 1, hi, mt).contains(pr));
                    }
                }
                if pr == (x, tid) {
                    assert(comp_pairs_range(ent, x, k, hi, mt).contains(pr));
                }
                if comp_pairs_range(ent, x, k + 1, hi, mt).contains(pr) {
                    let k2 = choose|k2: int|
                        k + 1 <= k2 < hi && 0 <= k2 < ent.components@.len()
                            && ent.components@[k2].type_id == pr.1
                            && ent.components@[k2].manager_type_id == mt;
                    assert(comp_pairs_range(ent, x, k, hi, mt).contains(pr));
                }
            }
        }
    } else {
        assert(comp_pairs_range(ent, x, k, hi, mt) =~= comp_pairs_range(ent, x, k + 1, hi, mt))
            by {
            assert forall|pr: (usize, Id)|
                comp_pairs_range(ent, x, k, hi, mt).contains(pr) == comp_pairs_range(
                    ent,
                    x,
                    k + 1,
                    hi,
                    mt,
                ).contains(pr) by {
                if comp_pairs_range(ent, x, k, hi, mt).contains(pr) {
                    let k2 = choose|k2: int|
                        k <= k2 < hi && 0 <= k2 < ent.components@.len()
                            && ent.components@[k2].type_id == pr.1
                            && ent.components@[k2].manager_type_id == mt;
                    assert(k2 != k);
                    assert(comp_pairs_range(ent, x, k + 1, hi, mt).contains(pr));
                }
                if comp_pairs_range(ent, x, k + 1, hi, mt).contains(pr) {
                    assert(comp_pairs_range(ent, x, k, hi, mt).contains(pr));
                }
            }
        }
    }
}

/// Stepping the upper bound of a component range: the pair of the component
/// at `k` joins, and by per-type uniqueness it was not already in the range.
pub proof fn lemma_range_snoc<P>(ent: Entity<P>, x: usize, k: int, mt: Id)
    requires
        0 <= k < ent.components@.len(),
        ent.components_distinct(),
    ensures
        ent.components@[k].manager_type_id == mt ==> comp_pairs_range(ent, x, 0, k + 1, mt)
            == comp_pairs_range(ent, x, 0, k, mt).insert((x, ent.components@[k].type_id))
            && !comp_pairs_range(ent, x, 0, k, mt).contains((x, ent.components@[k].type_id)),
        ent.components@[k].manager_type_id != mt ==> comp_pairs_range(ent, x, 0, k + 1, mt)
            == comp_pairs_range(ent, x, 0, k, mt),
{
    if ent.components@[k].manager_type_id == mt {
        let tid = ent.components@[k].type_id;
        assert(!comp_pairs_range(ent, x, 0, k, mt).contains((x, tid))) by {
            if comp_pairs_range(ent, x, 0, k, mt).contains((x, tid)) {
                let k2 = choose|k2: int|
                    0 <= k2 < k && 0 <= k2 < ent.components@.len() && ent.components@[k2].type_id
                        == tid && ent.components@[k2].manager_type_id == mt;
                assert(ent.components@[k2].type_id != ent.components@[k].type_id);
            }
        }
        assert(comp_pairs_range(ent, x, 0, k + 1, mt) =~= comp_pairs_range(
            ent,
            x,
            0,
            k,
            mt,
        ).insert((x, tid))) by {
            assert forall|pr: (usize, Id)|
                comp_pairs_range(ent, x, 0, k + 1, mt).contains(pr) == comp_pairs_range(
                    ent,
                    x,
                    0,
                    k,
                    mt,
                ).insert((x, tid)).contains(pr) by {
                if comp_pairs_range(ent, x, 0, k + 1, mt).contains(pr) {
                    let k2 = choose|k2: int|
                        0 <= k2 < k + 1 && 0 <= k2 < ent.components@.len()
                            && ent.components@[k2].type_id == pr.1
                            && ent.components@[k2].manager_type_id == mt;
                    if k2 == k {
                        assert(pr == (x, tid));
                    } else {
                        assert(comp_pairs_range(ent, x, 0, k, mt).contains(pr));
                    }
                }
                if pr == (x, tid) {
                    assert(comp_pairs_range(ent, x, 0, k + 1, mt).contains(pr));
                }
                if comp_pairs_range(ent, x, 0, k, mt).contains(pr) {
                    let k2 = choose|k2: int|
                        0 <= k2 < k && 0 <= k2 < ent.components@.len()
                            && ent.components@[k2].type_id == pr.1
                            && ent.components@[k2].manager_type_id == mt;
                    assert(comp_pairs_range(ent, x, 0, k + 1, mt).contains(pr));
                }
            }
        }
    } else {
        assert(comp_pairs_range(ent, x, 0, k + 1, mt) =~= comp_pairs_range(ent, x, 0, k, mt)) by {
            assert forall|pr: (usize, Id)|
                comp_pairs_range(ent, x, 0, k + 1, mt).contains(pr) == comp_pairs_range(
                    ent,
                    x,
                    0,
                    k,
                    mt,
                ).contains(pr) by {
                if comp_pairs_range(ent, x, 0, k + 1, mt).contains(pr) {
                    let k2 = choose|k2: int|
                        0 <= k2 < k + 1 && 0 <= k2 < ent.components@.len()
                            && ent.components@[k2].type_id == pr.1
                            && ent.components@[k2].manager_type_id == mt;
                    assert(k2 != k);
                    assert(comp_pairs_range(ent, x, 0, k, mt).contains(pr));
                }
                if comp_pairs_range(ent, x, 0, k, mt).contains(pr) {
                    assert(comp_pairs_range(ent, x, 0, k + 1, mt).contains(pr));
                }
            }
        }
    }
}

/// The pairs of a component range depend only on the component list.
pub proof fn lemma_range_congruent<P>(e1: Entity<P>, e2: Entity<P>, x: usize, lo: int, hi: int)
    requires
        e1.components@ == e2.components@,
    ensures
        forall|mt: Id| #[trigger] comp_pairs_range(e1, x, lo, hi, mt) == comp_pairs_range(
            e2,
            x,
            lo,
            hi,
            mt,
        ),
{
    assert forall|mt: Id| #[trigger]
        comp_pairs_range(e1, x, lo, hi, mt) == comp_pairs_range(e2, x, lo, hi, mt) by {
        assert forall|pr: (usize, Id)|
            comp_pairs_range(e1, x, lo, hi, mt).contains(pr) == comp_pairs_range(
                e2,
                x,
                lo,
                hi,
                mt,
            ).contains(pr) by {
            if comp_pairs_range(e1, x, lo, hi, mt).contains(pr) {
                let k = choose|k: int|
                    lo <= k < hi && 0 <= k < e1.components@.len() && e1.components@[k].type_id
                        == pr.1 && e1.components@[k].manager_type_id == mt;
                assert(e2.components@[k].type_id == pr.1);
                assert(e2.components@[k].manager_type_id == mt);
                assert(comp_pairs_range(e2, x, lo, hi, mt).contains(pr));
            }
            if comp_pairs_range(e2, x, lo, hi, mt).contains(pr) {
                let k = choose|k: int|
                    lo <= k < hi && 0 <= k < e2.components@.len() && e2.components@[k].type_id
                        == pr.1 && e2.components@[k].manager_type_id == mt;
                assert(e1.components@[k].type_id == pr.1);
                assert(e1.components@[k].manager_type_id == mt);
                assert(comp_pairs_range(e1, x, lo, hi, mt).contains(pr));
            }
        }
        assert(comp_pairs_range(e1, x, lo, hi, mt) =~= comp_pairs_range(e2, x, lo, hi, mt));
    }
}

/// An empty component range contributes nothing.
pub proof fn lemma_range_zero<P>(ent: Entity<P>, x: usize)
    ensures
        forall|mt: Id| #[trigger] comp_pairs_range(ent, x, 0, 0, mt) == Set::<(usize, Id)>::empty(),
{
    assert forall|mt: Id| #[trigger]
        comp_pairs_range(ent, x, 0, 0, mt) == Set::<(usize, Id)>::empty() by {
        assert(comp_pairs_range(ent, x, 0, 0, mt) =~= Set::<(usize, Id)>::empty());
    }
}

/// An exhausted component range contributes nothing.
pub proof fn lemma_range_empty<P>(ent: Entity<P>, x: usize, mt: Id)
    ensures
        comp_pairs_range(ent, x, ent.components@.len() as int, ent.components@.len() as int, mt)
            =~= Set::<(usize, Id)>::empty(),
{
}

/// Setting the scene of entity `x` from `Some(j)` to `None` moves exactly
/// `x`'s component pairs out of scene `j`'s registered sets and leaves the
/// sets of other scenes alone.
pub proof fn lemma_mgr_pairs_flip<P>(es0: Seq<Entity<P>>, es1: Seq<Entity<P>>, x: usize, j: usize)
    requires
        es1.len() == es0.len(),
        (x as int) < es0.len(),
        forall|i: int|
            0 <= i < es0.len() && i != x as int ==> es1[i].scene == es0[i].scene
                && es1[i].components == es0[i].components,
        es1[x as int].components == es0[x as int].components,
        es0[x as int].scene == Some(j),
        es1[x as int].scene is None,
    ensures
        forall|mt: Id| #[trigger]
            crate::world::mgr_pairs(es0, j, mt) == crate::world::mgr_pairs(es1, j, mt)
                + comp_pairs_range(
                es0[x as int],
                x,
                0,
                es0[x as int].components@.len() as int,
                mt,
            ),
        forall|j2: usize, mt: Id|
            j2 != j ==> #[trigger] crate::world::mgr_pairs(es1, j2, mt) == crate::world::mgr_pairs(
                es0,
                j2,
                mt,
            ),
{
    assert forall|mt: Id| #[trigger]
        crate::world::mgr_pairs(es0, j, mt) == crate::world::mgr_pairs(es1, j, mt)
            + comp_pairs_range(es0[x as int], x, 0, es0[x as int].components@.len() as int, mt) by {
        let hi = es0[x as int].components@.len() as int;
        assert forall|pr: (usize, Id)|
            crate::world::mgr_pairs(es0, j, mt).contains(pr) == (crate::world::mgr_pairs(
                es1,
                j,
                mt,
            ).contains(pr) || comp_pairs_range(es0[x as int], x, 0, hi, mt).contains(pr)) by {
            if pr.0 < es0.len() {
                let i = pr.0 as int;
                if pr.0 == x {
                    assert(es1[i].components@ == es0[i].components@);
                    if es0[i].has_component_with_manager(pr.1, mt) {
                        let k = choose|k: int|
                            0 <= k < es0[i].components@.len() && es0[i].components@[k].type_id
                                == pr.1 && es0[i].components@[k].manager_type_id == mt;
                        assert(comp_pairs_range(es0[x as int], x, 0, hi, mt).contains(pr));
                    }
                    if comp_pairs_range(es0[x as int], x, 0, hi, mt).contains(pr) {
                        let k = choose|k: int|
                            0 <= k < hi && 0 <= k < es0[x as int].components@.len()
                                && es0[x as int].components@[k].type_id == pr.1
                                && es0[x as int].components@[k].manager_type_id == mt;
                        assert(es0[i].has_component_with_manager(pr.1, mt));
                    }
                } else {
                    assert(es1[i].components@ == es0[i].components@);
                    if es0[i].has_component_with_manager(pr.1, mt) {
                        let k = choose|k: int|
                            0 <= k < es0[i].components@.len() && es0[i].components@[k].type_id
                                == pr.1 && es0[i].components@[k].manager_type_id == mt;
                        assert(es1[i].components@[k].type_id == pr.1);
                        assert(es1[i].components@[k].manager_type_id == mt);
                        assert(es1[i].has_component_with_manager(pr.1, mt));
                    }
                    if es1[i].has_component_with_manager(pr.1, mt) {
                        let k = choose|k: int|
                            0 <= k < es1[i].components@.len() && es1[i].components@[k].type_id
                                == pr.1 && es1[i].components@[k].manager_type_id == mt;
                        assert(es0[i].components@[k].type_id == pr.1);
                        assert(es0[i].components@[k].manager_type_id == mt);
                        assert(es0[i].has_component_with_manager(pr.1, mt));
                    }
                }
            }
        }
        assert(crate::world::mgr_pairs(es0, j, mt) =~= crate::world::mgr_pairs(es1, j, mt)
            + comp_pairs_range(es0[x as int], x, 0, hi, mt));
    }
    assert forall|j2: usize, mt: Id| j2 != j implies #[trigger] crate::world::mgr_pairs(
        es1,
        j2,
        mt,
    ) == crate::world::mgr_pairs(es0, j2, mt) by {
        assert forall|pr: (usize, Id)|
            crate::world::mgr_pairs(es1, j2, mt).contains(pr) == crate::world::mgr_pairs(
                es0,
                j2,
                mt,
            ).contains(pr) by {
            if pr.0 < es0.len() && pr.0 != x {
                let i = pr.0 as int;
                assert(es1[i].components@ == es0[i].components@);
                if es0[i].has_component_with_manager(pr.1, mt) {
                    let k = choose|k: int|
                        0 <= k < es0[i].components@.len() && es0[i].components@[k].type_id == pr.1
                            && es0[i].components@[k].manager_type_id == mt;
                    assert(es1[i].components@[k].type_id == pr.1);
                    assert(es1[i].components@[k].manager_type_id == mt);
                    assert(es1[i].has_component_with_manager(pr.1, mt));
                }
                if es1[i].has_component_with_manager(pr.1, mt) {
                    let k = choose|k: int|
                        0 <= k < es1[i].components@.len() && es1[i].components@[k].type_id == pr.1
                            && es1[i].components@[k].manager_type_id == mt;
                    assert(es0[i].components@[k].type_id == pr.1);
                    assert(es0[i].components@[k].manager_type_id == mt);
                    assert(es0[i].has_component_with_manager(pr.1, mt));
                }
            }
        }
        assert(crate::world::mgr_pairs(es1, j2, mt) =~= crate::world::mgr_pairs(es0, j2, mt));
    }
}

/// Finds the position of the pair `(x, tid)` in a manager's member list.
pub(crate) fn find_pair(v: &Vec<(usize, Id)>, x: usize, tid: Id) -> (r: Option<usize>)
    ensures
        match r {
            Some(k) => k < v@.len() && v@[k as int] == (x, tid),
            None => !v@.contains((x, tid)),
        },
{
    let n = v.len();
    let mut k: usize = 0;
    while k < n
        invariant
            k <= n,
            n == v@.len(),
            forall|j: int| 0 <= j < k ==> v@[j] != (x, tid),
        decreases n - k,
    {
        if v[k].0 == x && v[k].1 == tid {
            proof {
                assert(v@[k as int] == (x, tid));
            }
            return Some(k);
        }
        proof {
            assert(v@[k as int] != (x, tid));
        }
        k = k + 1;
    }
    proof {
        if v@.contains((x, tid)) {
            let j = choose|j: int| 0 <= j < v@.len() && v@[j] == (x, tid);
            assert(v@[j] != (x, tid));
        }
    }
    None
}

impl<P> World<P> {
    /// The managers of scene `j` are synchronized with the entities: at most
    /// one manager per type, every manager non-empty, installed in `j`, with
    /// its member list equal to the registered set of its type, and every
    /// component of a member entity covered by a manager.
    pub open spec fn scene_mgr_wf(self, j: usize) -> bool {
        &&& self.scenes@[j as int].managers_distinct()
        &&& (forall|m: int|
            0 <= m < self.scenes@[j as int].managers@.len() ==> #[trigger] self.manager_ok(
                j as int,
                m,
            ))
        &&& self.manager_coverage_ok(j as int)
    }

    /// Inserts the pair `(x, tid)` into scene `s`'s manager of type `mt`,
    /// creating that manager — with order `ord`, and one `init` call if the
    /// scene is already initialized — when the type is new.
    pub(crate) fn register_pair(&mut self, s: usize, x: usize, tid: Id, mt: Id, ord: usize) -> (created:
        bool)
        requires
            (s as int) < old(self).scenes@.len(),
            old(self).scenes@[s as int].managers_distinct(),
            forall|m: int|
                0 <= m < old(self).scenes@[s as int].managers@.len() ==> {
                    let mgr = #[trigger] old(self).scenes@[s as int].managers@[m];
                    mgr.scene == Some(s) && mgr.members@.no_duplicates() && mgr.members@.len() > 0
                        && !mgr.members@.contains((x, tid))
                },
        ensures
            final(self).entities == old(self).entities,
            final(self).scenes@.len() == old(self).scenes@.len(),
            forall|j: int|
                0 <= j < old(self).scenes@.len() && j != s ==> final(self).scenes@[j] == old(
                    self,
                ).scenes@[j],
            final(self).scenes@[s as int].initted == old(self).scenes@[s as int].initted,
            final(self).scenes@[s as int].ticks == old(self).scenes@[s as int].ticks,
            final(self).scenes@[s as int].roots == old(self).scenes@[s as int].roots,
            final(self).scenes@[s as int].plugins == old(self).scenes@[s as int].plugins,
            created == !old(self).scenes@[s as int].spec_has_manager(mt),
            !created ==> {
                let ms0 = old(self).scenes@[s as int].managers@;
                let ms = final(self).scenes@[s as int].managers@;
                let mi = old(self).scenes@[s as int].manager_index(mt);
                &&& ms.len() == ms0.len()
                &&& (forall|m: int| 0 <= m < ms0.len() && m != mi ==> ms[m] == ms0[m])
                &&& mgr_same_meta(ms0[mi], ms[mi])
                &&& ms[mi].members@ == ms0[mi].members@.push((x, tid))
            },
            created ==> {
                let ms0 = old(self).scenes@[s as int].managers@;
                let ms = final(self).scenes@[s as int].managers@;
                &&& ms.len() == ms0.len() + 1
                &&& (forall|m: int| 0 <= m < ms0.len() ==> ms[m] == ms0[m])
                &&& ms[ms0.len() as int].type_id == mt
                &&& ms[ms0.len() as int].order == ord
                &&& ms[ms0.len() as int].scene == Some(s)
                &&& ms[ms0.len() as int].members@ == seq![(x, tid)]
                &&& ms[ms0.len() as int].init_calls == if old(self).scenes@[s as int].initted {
                    1u64
                } else {
                    0u64
                }
                &&& ms[ms0.len() as int].update_calls == 0
            },
    {
        let found = self.scenes[s].find_manager(mt);
        match found {
            Some(mi) => {
                proof {
                    assert(old(self).scenes@[s as int].managers_distinct());
                    let ci = old(self).scenes@[s as int].manager_index(mt);
                    assert(old(self).scenes@[s as int].managers@[ci].type_id == mt);
                    assert(ci == mi as int);
                }
                self.scenes[s].managers[mi].members.push((x, tid));
                false
            },
            None => {
                let initted = self.scenes[s].initted;
                let mut members: Vec<(usize, Id)> = Vec::new();
                members.push((x, tid));
                let mgr = ComponentManager {
                    type_id: mt,
                    order: ord,
                    scene: Some(s),
                    members,
                    init_calls: if initted {
                        1
                    } else {
                        0
                    },
                    update_calls: 0,
                };
                self.scenes[s].managers.push(mgr);
                proof {
                    assert(final(self).scenes@[s as int].managers@[old(
                        self,
                    ).scenes@[s as int].managers@.len() as int].members@ =~= seq![(x, tid)]);
                }
                true
            },
        }
    }

    /// Removes the pair `(x, tid)` from scene `s`'s manager of type `mt`;
    /// a manager whose last member is removed is destroyed.
    pub(crate) fn unregister_pair(&mut self, s: usize, x: usize, tid: Id, mt: Id)
        requires
            (s as int) < old(self).scenes@.len(),
            old(self).scenes@[s as int].managers_distinct(),
            old(self).scenes@[s as int].spec_has_manager(mt),
            forall|m: int|
                0 <= m < old(self).scenes@[s as int].managers@.len() ==> {
                    let mgr = #[trigger] old(self).scenes@[s as int].managers@[m];
                    mgr.scene == Some(s) && mgr.members@.no_duplicates() && mgr.members@.len() > 0
                },
            old(self).scenes@[s as int].managers@[old(self).scenes@[s as int].manager_index(
                mt,
            )].members@.contains((x, tid)),
        ensures
            final(self).entities == old(self).entities,
            final(self).scenes@.len() == old(self).scenes@.len(),
            forall|j: int|
                0 <= j < old(self).scenes@.len() && j != s ==> final(self).scenes@[j] == old(
                    self,
                ).scenes@[j],
            final(self).scenes@[s as int].initted == old(self).scenes@[s as int].initted,
            final(self).scenes@[s as int].ticks == old(self).scenes@[s as int].ticks,
            final(self).scenes@[s as int].roots == old(self).scenes@[s as int].roots,
            final(self).scenes@[s as int].plugins == old(self).scenes@[s as int].plugins,
            ({
                let ms0 = old(self).scenes@[s as int].managers@;
                let ms = final(self).scenes@[s as int].managers@;
                let mi = old(self).scenes@[s as int].manager_index(mt);
                if ms0[mi].members@.len() == 1 {
                    ms == ms0.remove(mi)
                } else {
                    &&& ms.len() == ms0.len()
                    &&& (forall|m: int| 0 <= m < ms0.len() && m != mi ==> ms[m] == ms0[m])
                    &&& mgr_same_meta(ms0[mi], ms[mi])
                    &&& exists|pos: int|
                        0 <= pos < ms0[mi].members@.len() && ms0[mi].members@[pos] == (x, tid)
                            && ms[mi].members@ == ms0[mi].members@.remove(pos)
                }
            }),
    {
        let found = self.scenes[s].find_manager(mt);
        let mi = match found {
            Some(mi) => mi,
            None => {
                proof {
                    assert(false);
                }
                0
            },
        };
        proof {
            let ci = old(self).scenes@[s as int].manager_index(mt);
            assert(old(self).scenes@[s as int].managers@[ci].type_id == mt);
            assert(ci == mi as int);
        }
        let pos = match find_pair(&self.scenes[s].managers[mi].members, x, tid) {
            Some(pos) => pos,
            None => {
                proof {
                    assert(false);
                }
                0
            },
        };
        self.scenes[s].managers[mi].members.remove(pos);
        if self.scenes[s].managers[mi].members.len() == 0 {
            proof {
                assert(old(self).scenes@[s as int].managers@[mi as int].members@.len() == 1);
            }
            self.scenes[s].managers.remove(mi);
        } else {
            proof {
                assert(old(self).scenes@[s as int].managers@[mi as int].members@.len() != 1);
            }
        }
    }
}

} // verus!
