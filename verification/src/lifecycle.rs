//! The scene lifecycle: the tick loop, plugin registration, and the manager
//! accessors.

use vstd::prelude::*;
use vstd::multiset::Multiset;
use crate::component_manager::ComponentManager;
use crate::id::Id;
use crate::plugin::Plugin;
use crate::world::World;

verus! {

/// A callback counter after one more call: saturating, so that the count
/// itself can never fail.
pub open spec fn spec_bump(n: u64) -> u64 {
    if n == u64::MAX {
        n
    } else {
        (n + 1) as u64
    }
}

/// Increments a callback counter, saturating at the maximum.
pub(crate) fn bump(n: u64) -> (r: u64)
    ensures
        r == spec_bump(n),
{
    if n < u64::MAX {
        n + 1
    } else {
        n
    }
}

impl<P> World<P> {
    /// True iff scene `s` currently has an active manager of type `mt` —
    /// which, by the maintained invariant, holds iff at least one component
    /// of that manager type is attached to a member of `s`.
    pub fn has_component_manager(&self, s: usize, mt: Id) -> (r: bool)
        requires
            self.valid_scene(s as int),
        ensures
            r == self.scenes@[s as int].spec_has_manager(mt),
    {
        match self.scenes[s].find_manager(mt) {
            Some(_) => true,
            None => false,
        }
    }

    /// The active manager of type `mt` in scene `s`, if any: looking a
    /// manager up by its type identity is the checked downcast of this
    /// design, so asking for an absent type yields `None`.
    pub fn component_manager(&self, s: usize, mt: Id) -> (r: Option<&ComponentManager>)
        requires
            self.wf(),
            self.valid_scene(s as int),
        ensures
            match r {
                Some(m) => self.scenes@[s as int].spec_has_manager(mt) && *m == self.scenes@[
                    s as int
                ].managers@[self.scenes@[s as int].manager_index(mt)] && m.type_id == mt,
                None => !self.scenes@[s as int].spec_has_manager(mt),
            },
    {
        match self.scenes[s].find_manager(mt) {
            Some(k) => {
                proof {
                    assert(self.scene_ok(s as int));
                    let k0 = self.scenes@[s as int].manager_index(mt);
                    assert(0 <= k0 < self.scenes@[s as int].managers@.len()
                        && self.scenes@[s as int].managers@[k0].type_id == mt);
                    assert(k0 == k as int);
                }
                Some(&self.scenes[s].managers[k])
            },
            None => None,
        }
    }

    /// Runs one tick of scene `s`: the clock collaborator is advanced
    /// exactly once, then every plugin's `before` hook, every manager's
    /// `update` hook, and every plugin's `after` hook runs, in the current
    /// list order.  No sorting happens here.
    pub fn update(&mut self, s: usize)
        requires
            old(self).wf(),
            old(self).valid_scene(s as int),
        ensures
            final(self).wf(),
            final(self).entities == old(self).entities,
            final(self).scenes@.len() == old(self).scenes@.len(),
            forall|j: int|
                0 <= j < old(self).scenes@.len() && j != s ==> final(self).scenes@[j] == old(
                    self,
                ).scenes@[j],
            final(self).scenes@[s as int].initted == old(self).scenes@[s as int].initted,
            final(self).scenes@[s as int].roots == old(self).scenes@[s as int].roots,
            final(self).scenes@[s as int].ticks == spec_bump(old(self).scenes@[s as int].ticks),
            final(self).scenes@[s as int].plugins@.len() == old(
                self,
            ).scenes@[s as int].plugins@.len(),
            forall|k: int|
                0 <= k < old(self).scenes@[s as int].plugins@.len() ==> {
                    let p0 = old(self).scenes@[s as int].plugins@[k];
                    let p = #[trigger] final(self).scenes@[s as int].plugins@[k];
                    p.id == p0.id && p.order == p0.order && p.scene == p0.scene && p.init_calls
                        == p0.init_calls && p.before_calls == spec_bump(p0.before_calls)
                        && p.after_calls == spec_bump(p0.after_calls)
                },
            final(self).scenes@[s as int].managers@.len() == old(
                self,
            ).scenes@[s as int].managers@.len(),
            forall|k: int|
                0 <= k < old(self).scenes@[s as int].managers@.len() ==> {
                    let m0 = old(self).scenes@[s as int].managers@[k];
                    let m = #[trigger] final(self).scenes@[s as int].managers@[k];
                    m.type_id == m0.type_id && m.order == m0.order && m.scene == m0.scene
                        && m.members == m0.members && m.init_calls == m0.init_calls
                        && m.update_calls == spec_bump(m0.update_calls)
                },
    {
        let ghost w0 = *self;
        let t = self.scenes[s].ticks;
        self.scenes[s].ticks = bump(t);
        let np = self.scenes[s].plugins.len();
        let mut k: usize = 0;
        while k < np
            invariant
                (s as int) < w0.scenes@.len(),
                k <= np,
                self.entities == w0.entities,
                self.scenes@.len() == w0.scenes@.len(),
                forall|j: int|
                    0 <= j < w0.scenes@.len() && j != s ==> self.scenes@[j] == w0.scenes@[j],
                self.scenes@[s as int].initted == w0.scenes@[s as int].initted,
                self.scenes@[s as int].roots == w0.scenes@[s as int].roots,
                self.scenes@[s as int].managers == w0.scenes@[s as int].managers,
                self.scenes@[s as int].ticks == spec_bump(w0.scenes@[s as int].ticks),
                np == w0.scenes@[s as int].plugins@.len(),
                self.scenes@[s as int].plugins@.len() == np,
                forall|i: int|
                    0 <= i < k ==> {
                        let p0 = w0.scenes@[s as int].plugins@[i];
                        let p = #[trigger] self.scenes@[s as int].plugins@[i];
                        p.id == p0.id && p.order == p0.order && p.scene == p0.scene && p.init_calls
                            == p0.init_calls && p.before_calls == spec_bump(p0.before_calls)
                            && p.after_calls == p0.after_calls
                    },
                forall|i: int|
                    k <= i < np ==> self.scenes@[s as int].plugins@[i]
                        == w0.scenes@[s as int].plugins@[i],
            decreases np - k,
        {
            let b = self.scenes[s].plugins[k].before_calls;
            self.scenes[s].plugins[k].before_calls = bump(b);
            k = k + 1;
        }
        let ghost w1 = *self;
        let nm = self.scenes[s].managers.len();
        let mut k2: usize = 0;
        while k2 < nm
            invariant
                (s as int) < w1.scenes@.len(),
                k2 <= nm,
                self.entities == w1.entities,
                self.scenes@.len() == w1.scenes@.len(),
                forall|j: int|
                    0 <= j < w1.scenes@.len() && j != s ==> self.scenes@[j] == w1.scenes@[j],
                self.scenes@[s as int].initted == w1.scenes@[s as int].initted,
                self.scenes@[s as int].roots == w1.scenes@[s as int].roots,
                self.scenes@[s as int].plugins == w1.scenes@[s as int].plugins,
                self.scenes@[s as int].ticks == w1.scenes@[s as int].ticks,
                nm == w1.scenes@[s as int].managers@.len(),
                self.scenes@[s as int].managers@.len() == nm,
                forall|i: int|
                    0 <= i < k2 ==> {
                        let m0 = w1.scenes@[s as int].managers@[i];
                        let m = #[trigger] self.scenes@[s as int].managers@[i];
                        m.type_id == m0.type_id && m.order == m0.order && m.scene == m0.scene
                            && m.members == m0.members && m.init_calls == m0.init_calls
                            && m.update_calls == spec_bump(m0.update_calls)
                    },
                forall|i: int|
                    k2 <= i < nm ==> self.scenes@[s as int].managers@[i]
                        == w1.scenes@[s as int].managers@[i],
            decreases nm - k2,
        {
            let u = self.scenes[s].managers[k2].update_calls;
            self.scenes[s].managers[k2].update_calls = bump(u);
            k2 = k2 + 1;
        }
        let ghost w2 = *self;
        let np2 = self.scenes[s].plugins.len();
        let mut k3: usize = 0;
        while k3 < np2
            invariant
                (s as int) < w2.scenes@.len(),
                k3 <= np2,
                self.entities == w2.entities,
                self.scenes@.len() == w2.scenes@.len(),
                forall|j: int|
                    0 <= j < w2.scenes@.len() && j != s ==> self.scenes@[j] == w2.scenes@[j],
                self.scenes@[s as int].initted == w2.scenes@[s as int].initted,
                self.scenes@[s as int].roots == w2.scenes@[s as int].roots,
                self.scenes@[s as int].managers == w2.scenes@[s as int].managers,
                self.scenes@[s as int].ticks == w2.scenes@[s as int].ticks,
                np2 == w2.scenes@[s as int].plugins@.len(),
                self.scenes@[s as int].plugins@.len() == np2,
                forall|i: int|
                    0 <= i < k3 ==> {
                        let p0 = w2.scenes@[s as int].plugins@[i];
                        let p = #[trigger] self.scenes@[s as int].plugins@[i];
                        p.id == p0.id && p.order == p0.order && p.scene == p0.scene && p.init_calls
                            == p0.init_calls && p.before_calls == p0.before_calls && p.after_calls
                            == spec_bump(p0.after_calls)
                    },
                forall|i: int|
                    k3 <= i < np2 ==> self.scenes@[s as int].plugins@[i]
                        == w2.scenes@[s as int].plugins@[i],
            decreases np2 - k3,
        {
            let a = self.scenes[s].plugins[k3].after_calls;
            self.scenes[s].plugins[k3].after_calls = bump(a);
            k3 = k3 + 1;
        }
        proof {
            lemma_counters_only_wf(w0, *self, s);
        }
    }

    /// Registers `plugin` with scene `s` unless a plugin with the same
    /// identity is already registered (a silent no-op that discards the
    /// argument).  A plugin joining an already-initialized scene gets its
    /// own `init` call at once.
    pub fn add_plugin(&mut self, s: usize, plugin: Plugin) -> (r: bool)
        requires
            old(self).wf(),
            old(self).valid_scene(s as int),
        ensures
            final(self).wf(),
            r == !old(self).scenes@[s as int].spec_has_plugin(plugin.id),
            !r ==> *final(self) == *old(self),
            r ==> {
                let ps0 = old(self).scenes@[s as int].plugins@;
                let ps = final(self).scenes@[s as int].plugins@;
                &&& final(self).entities == old(self).entities
                &&& final(self).scenes@.len() == old(self).scenes@.len()
                &&& (forall|j: int|
                    0 <= j < old(self).scenes@.len() && j != s ==> final(self).scenes@[j] == old(
                        self,
                    ).scenes@[j])
                &&& final(self).scenes@[s as int].initted == old(self).scenes@[s as int].initted
                &&& final(self).scenes@[s as int].ticks == old(self).scenes@[s as int].ticks
                &&& final(self).scenes@[s as int].roots == old(self).scenes@[s as int].roots
                &&& final(self).scenes@[s as int].managers == old(self).scenes@[s as int].managers
                &&& ps.len() == ps0.len() + 1
                &&& (forall|k: int| 0 <= k < ps0.len() ==> ps[k] == ps0[k])
                &&& ps.last().id == plugin.id
                &&& ps.last().order == plugin.order
                &&& ps.last().scene == Some(s)
                &&& ps.last().before_calls == plugin.before_calls
                &&& ps.last().after_calls == plugin.after_calls
                &&& ps.last().init_calls == if old(self).scenes@[s as int].initted {
                    spec_bump(plugin.init_calls)
                } else {
                    plugin.init_calls
                }
            },
    {
        let ghost w0 = *self;
        let n = self.scenes[s].plugins.len();
        let mut k: usize = 0;
        while k < n
            invariant
                k <= n,
                (s as int) < self.scenes@.len(),
                n == self.scenes@[s as int].plugins@.len(),
                forall|j: int| 0 <= j < k ==> self.scenes@[s as int].plugins@[j].id != plugin.id,
                *self == w0,
                w0 == *old(self),
                w0.wf(),
            decreases n - k,
        {
            if self.scenes[s].plugins[k].get_id() == plugin.id {
                proof {
                    assert(w0.scenes@[s as int].plugins@[k as int].id == plugin.id);
                    assert(w0.scenes@[s as int].spec_has_plugin(plugin.id));
                }
                return false;
            }
            k = k + 1;
        }
        proof {
            if w0.scenes@[s as int].spec_has_plugin(plugin.id) {
                let j = choose|j: int|
                    0 <= j < w0.scenes@[s as int].plugins@.len()
                        && w0.scenes@[s as int].plugins@[j].id == plugin.id;
                assert(w0.scenes@[s as int].plugins@[j].id != plugin.id);
            }
        }
        let mut p = plugin;
        p.scene = Some(s);
        if self.scenes[s].initted {
            let ic = p.init_calls;
            p.init_calls = bump(ic);
        }
        self.scenes[s].plugins.push(p);
        proof {
            let ps0 = w0.scenes@[s as int].plugins@;
            let ps = self.scenes@[s as int].plugins@;
            assert(w0.scene_ok(s as int));
            assert forall|k1: int, k2: int|
                0 <= k1 < k2 < ps.len() implies ps[k1].id != ps[k2].id by {
                assert(w0.scenes@[s as int].plugins_distinct());
                if k2 == ps0.len() {
                    assert(ps[k1] == ps0[k1]);
                } else {
                    assert(ps[k1] == ps0[k1]);
                    assert(ps[k2] == ps0[k2]);
                }
            }
            assert forall|k1: int| 0 <= k1 < ps.len() implies (#[trigger] ps[k1]).scene == Some(
                s,
            ) by {
                if k1 < ps0.len() {
                    assert(ps[k1] == ps0[k1]);
                    assert(w0.plugins_ok(s as int));
                }
            }
            lemma_plugins_only_wf(w0, *self, s);
        }
        true
    }

    /// Unregisters the plugin with identity `id` from scene `s` and returns
    /// it with its scene back-reference cleared; `None` — and no change —
    /// if no such plugin is registered.
    pub fn remove_plugin(&mut self, s: usize, id: Id) -> (r: Option<Plugin>)
        requires
            old(self).wf(),
            old(self).valid_scene(s as int),
        ensures
            final(self).wf(),
            r is Some <==> old(self).scenes@[s as int].spec_has_plugin(id),
            r is None ==> *final(self) == *old(self),
            r matches Some(p) ==> {
                let ps0 = old(self).scenes@[s as int].plugins@;
                let k0 = old(self).scenes@[s as int].plugin_index(id);
                &&& final(self).entities == old(self).entities
                &&& final(self).scenes@.len() == old(self).scenes@.len()
                &&& (forall|j: int|
                    0 <= j < old(self).scenes@.len() && j != s ==> final(self).scenes@[j] == old(
                        self,
                    ).scenes@[j])
                &&& final(self).scenes@[s as int].initted == old(self).scenes@[s as int].initted
                &&& final(self).scenes@[s as int].ticks == old(self).scenes@[s as int].ticks
                &&& final(self).scenes@[s as int].roots == old(self).scenes@[s as int].roots
                &&& final(self).scenes@[s as int].managers == old(self).scenes@[s as int].managers
                &&& final(self).scenes@[s as int].plugins@ == ps0.remove(k0)
                &&& p.id == id
                &&& p.scene is None
                &&& p.order == ps0[k0].order
                &&& p.init_calls == ps0[k0].init_calls
                &&& p.before_calls == ps0[k0].before_calls
                &&& p.after_calls == ps0[k0].after_calls
            },
    {
        let ghost w0 = *self;
        let n = self.scenes[s].plugins.len();
        let mut k: usize = 0;
        while k < n
            invariant
                k <= n,
                (s as int) < self.scenes@.len(),
                n == self.scenes@[s as int].plugins@.len(),
                forall|j: int| 0 <= j < k ==> self.scenes@[s as int].plugins@[j].id != id,
                *self == w0,
                w0 == *old(self),
                w0.wf(),
            decreases n - k,
        {
            if self.scenes[s].plugins[k].get_id() == id {
                proof {
                    assert(w0.scenes@[s as int].plugins@[k as int].id == id);
                    assert(w0.scenes@[s as int].spec_has_plugin(id));
                    assert(w0.scene_ok(s as int));
                    assert(w0.plugins_ok(s as int));
                    let k0 = w0.scenes@[s as int].plugin_index(id);
                    assert(w0.scenes@[s as int].plugins@[k0].id == id);
                    assert(w0.scenes@[s as int].plugins_distinct());
                    assert(k0 == k as int);
                }
                let mut p = self.scenes[s].plugins.remove(k);
                p.scene = None;
                proof {
                    let ps0 = w0.scenes@[s as int].plugins@;
                    let ps = self.scenes@[s as int].plugins@;
                    ps0.remove_ensures(k as int);
                    assert forall|k1: int, k2: int|
                        0 <= k1 < k2 < ps.len() implies ps[k1].id != ps[k2].id by {
                        let j1: int = if k1 < k {
                            k1
                        } else {
                            k1 + 1
                        };
                        let j2: int = if k2 < k {
                            k2
                        } else {
                            k2 + 1
                        };
                        assert(ps[k1] == ps0[j1]);
                        assert(ps[k2] == ps0[j2]);
                        assert(w0.scenes@[s as int].plugins_distinct());
                    }
                    assert forall|k1: int| 0 <= k1 < ps.len() implies (#[trigger] ps[k1]).scene
                        == Some(s) by {
                        let j1: int = if k1 < k {
                            k1
                        } else {
                            k1 + 1
                        };
                        assert(ps[k1] == ps0[j1]);
                        assert(w0.plugins_ok(s as int));
                    }
                    lemma_plugins_only_wf(w0, *self, s);
                }
                return Some(p);
            }
            k = k + 1;
        }
        proof {
            if w0.scenes@[s as int].spec_has_plugin(id) {
                let j = choose|j: int|
                    0 <= j < w0.scenes@[s as int].plugins@.len()
                        && w0.scenes@[s as int].plugins@[j].id == id;
                assert(w0.scenes@[s as int].plugins@[j].id != id);
            }
        }
        None
    }
}

/// Finds the position of the first manager with minimal order.
fn min_order_manager(v: &Vec<ComponentManager>) -> (r: usize)
    requires
        v@.len() > 0,
    ensures
        r < v@.len(),
        forall|b: int| 0 <= b < v@.len() ==> v@[r as int].order <= (#[trigger] v@[b]).order,
{
    let n = v.len();
    let mut best: usize = 0;
    let mut k: usize = 1;
    while k < n
        invariant
            n == v@.len(),
            best < n,
            1 <= k <= n,
            forall|b: int| 0 <= b < k ==> v@[best as int].order <= (#[trigger] v@[b]).order,
        decreases n - k,
    {
        if v[k].order < v[best].order {
            best = k;
        }
        k = k + 1;
    }
    best
}

/// Finds the position of the first plugin with minimal order.
fn min_order_plugin(v: &Vec<Plugin>) -> (r: usize)
    requires
        v@.len() > 0,
    ensures
        r < v@.len(),
        forall|b: int| 0 <= b < v@.len() ==> v@[r as int].order <= (#[trigger] v@[b]).order,
{
    let n = v.len();
    let mut best: usize = 0;
    let mut k: usize = 1;
    while k < n
        invariant
            n == v@.len(),
            best < n,
            1 <= k <= n,
            forall|b: int| 0 <= b < k ==> v@[best as int].order <= (#[trigger] v@[b]).order,
        decreases n - k,
    {
        if v[k].order < v[best].order {
            best = k;
        }
        k = k + 1;
    }
    best
}

/// A duplicate-free value at two distinct positions of a sequence is
/// impossible when its multiset agrees with a sequence whose key occurs
/// once; concretely: if `s2`'s multiset equals `s1`'s, any element of `s2`
/// is an element of `s1`, and two positions of `s2` map to two positions of
/// `s1`.
proof fn lemma_multiset_two_positions<A>(s1: Seq<A>, s2: Seq<A>, m1: int, m2: int)
    requires
        s2.to_multiset() == s1.to_multiset(),
        0 <= m1 < m2 < s2.len(),
    ensures
        exists|n1: int, n2: int|
            0 <= n1 < s1.len() && 0 <= n2 < s1.len() && n1 != n2 && s1[n1] == s2[m1] && s1[n2]
                == s2[m2],
{
    s1.to_multiset_ensures();
    s2.to_multiset_ensures();
    let v1 = s2[m1];
    let v2 = s2[m2];
    if v1 == v2 {
        // the value occurs at least twice in s2, hence twice in s1
        s2.to_multiset_ensures();
        assert(s2.contains(v1));
        s2.remove(m1).to_multiset_ensures();
        assert(s2.remove(m1).to_multiset() == s2.to_multiset().remove(v1));
        s2.remove_ensures(m1);
        assert(s2.remove(m1)[m2 - 1] == v1);
        assert(s2.remove(m1).contains(v1)) by {
            assert(s2.remove(m1)[m2 - 1] == v1);
        }
        assert(s2.to_multiset().count(v1) >= 2) by {
            assert(s2.remove(m1).to_multiset().count(v1) > 0);
        }
        assert(s1.to_multiset().count(v1) >= 2);
        assert(s1.contains(v1));
        let n1 = choose|n1: int| 0 <= n1 < s1.len() && s1[n1] == v1;
        s1.remove(n1).to_multiset_ensures();
        assert(s1.remove(n1).to_multiset() == s1.to_multiset().remove(v1));
        assert(s1.remove(n1).to_multiset().count(v1) > 0);
        assert(s1.remove(n1).contains(v1));
        let k = choose|k: int| 0 <= k < s1.remove(n1).len() && s1.remove(n1)[k] == v1;
        s1.remove_ensures(n1);
        let n2: int = if k < n1 {
            k
        } else {
            k + 1
        };
        assert(s1[n2] == v1);
        assert(n1 != n2);
    } else {
        assert(s2.contains(v1));
        assert(s2.contains(v2));
        assert(s1.to_multiset().count(v1) > 0);
        assert(s1.to_multiset().count(v2) > 0);
        assert(s1.contains(v1));
        assert(s1.contains(v2));
        let n1 = choose|n1: int| 0 <= n1 < s1.len() && s1[n1] == v1;
        let n2 = choose|n2: int| 0 <= n2 < s1.len() && s1[n2] == v2;
        assert(n1 != n2);
    }
}

impl<P> World<P> {
    /// Stably sorts scene `s`'s managers by ascending order.  The set of
    /// managers — values included, counters and members untouched — is
    /// unchanged.
    pub(crate) fn sort_managers(&mut self, s: usize)
        requires
            old(self).wf(),
            old(self).valid_scene(s as int),
        ensures
            final(self).wf(),
            final(self).entities == old(self).entities,
            final(self).scenes@.len() == old(self).scenes@.len(),
            forall|j: int|
                0 <= j < old(self).scenes@.len() && j != s ==> final(self).scenes@[j] == old(
                    self,
                ).scenes@[j],
            final(self).scenes@[s as int].initted == old(self).scenes@[s as int].initted,
            final(self).scenes@[s as int].ticks == old(self).scenes@[s as int].ticks,
            final(self).scenes@[s as int].roots == old(self).scenes@[s as int].roots,
            final(self).scenes@[s as int].plugins == old(self).scenes@[s as int].plugins,
            final(self).scenes@[s as int].managers@.to_multiset() == old(
                self,
            ).scenes@[s as int].managers@.to_multiset(),
            crate::managers::sorted_by_order(final(self).scenes@[s as int].managers@),
            final(self).mgrs_from(old(self).scenes@[s as int], s),
            forall|m0: int|
                0 <= m0 < old(self).scenes@[s as int].managers@.len() ==> final(self).scenes@[s as int].spec_has_manager(
                    (#[trigger] old(self).scenes@[s as int].managers@[m0]).type_id,
                ),
    {
        let ghost w0 = *self;
        let mut src: Vec<ComponentManager> = Vec::new();
        core::mem::swap(&mut self.scenes[s].managers, &mut src);
        let ghost orig = src@;
        proof {
            orig.to_multiset_ensures();
            assert(self.scenes@[s as int].managers@.to_multiset().add(src@.to_multiset())
                =~= orig.to_multiset()) by {
                assert(self.scenes@[s as int].managers@.to_multiset().len() == 0) by {
                    self.scenes@[s as int].managers@.to_multiset_ensures();
                }
                assert(self.scenes@[s as int].managers@.to_multiset() =~= Multiset::<
                    ComponentManager,
                >::empty()) by {
                    assert forall|x: ComponentManager|
                        self.scenes@[s as int].managers@.to_multiset().count(x) == 0 by {
                        self.scenes@[s as int].managers@.to_multiset_ensures();
                        if self.scenes@[s as int].managers@.to_multiset().count(x) > 0 {
                            assert(self.scenes@[s as int].managers@.contains(x));
                        }
                    }
                }
            }
        }
        while src.len() > 0
            invariant
                (s as int) < w0.scenes@.len(),
                self.entities == w0.entities,
                self.scenes@.len() == w0.scenes@.len(),
                forall|j: int|
                    0 <= j < w0.scenes@.len() && j != s ==> self.scenes@[j] == w0.scenes@[j],
                self.scenes@[s as int].initted == w0.scenes@[s as int].initted,
                self.scenes@[s as int].ticks == w0.scenes@[s as int].ticks,
                self.scenes@[s as int].roots == w0.scenes@[s as int].roots,
                self.scenes@[s as int].plugins == w0.scenes@[s as int].plugins,
                orig == w0.scenes@[s as int].managers@,
                self.scenes@[s as int].managers@.to_multiset().add(src@.to_multiset())
                    == orig.to_multiset(),
                forall|a: int, b: int|
                    0 <= a < b < self.scenes@[s as int].managers@.len() ==> (
                    #[trigger] self.scenes@[s as int].managers@[a]).order
                        <= (#[trigger] self.scenes@[s as int].managers@[b]).order,
                forall|a: int, b: int|
                    0 <= a < self.scenes@[s as int].managers@.len() && 0 <= b < src@.len() ==> (
                    #[trigger] self.scenes@[s as int].managers@[a]).order <= (
                    #[trigger] src@[b]).order,
            decreases src@.len(),
        {
            let idx = min_order_manager(&src);
            let ghost src_pre = src@;
            let ghost dst_pre = self.scenes@[s as int].managers@;
            let m = src.remove(idx);
            self.scenes[s].managers.push(m);
            proof {
                src_pre.to_multiset_ensures();
                dst_pre.to_multiset_ensures();
                assert(src@.to_multiset() == src_pre.to_multiset().remove(src_pre[idx as int]));
                assert(self.scenes@[s as int].managers@.to_multiset() == dst_pre.to_multiset().insert(
                    m,
                ));
                assert(src_pre.to_multiset().count(m) > 0) by {
                    assert(src_pre.contains(m)) by {
                        assert(src_pre[idx as int] == m);
                    }
                }
                assert(self.scenes@[s as int].managers@.to_multiset().add(src@.to_multiset())
                    =~= orig.to_multiset());
                src_pre.remove_ensures(idx as int);
                assert forall|a: int, b: int|
                    0 <= a < self.scenes@[s as int].managers@.len() && 0 <= b
                        < src@.len() implies (#[trigger] self.scenes@[s as int].managers@[a]).order
                    <= (#[trigger] src@[b]).order by {
                    let b0: int = if b < idx {
                        b
                    } else {
                        b + 1
                    };
                    assert(src@[b] == src_pre[b0]);
                    assert(src_pre[idx as int].order <= src_pre[b0].order);
                    if a < dst_pre.len() {
                        assert(self.scenes@[s as int].managers@[a] == dst_pre[a]);
                    } else {
                        assert(self.scenes@[s as int].managers@[a] == m);
                    }
                }
            }
        }
        proof {
            src@.to_multiset_ensures();
            assert(src@.to_multiset() =~= Multiset::<ComponentManager>::empty()) by {
                assert forall|x: ComponentManager| src@.to_multiset().count(x) == 0 by {
                    if src@.to_multiset().count(x) > 0 {
                        assert(src@.contains(x));
                    }
                }
            }
            assert(self.scenes@[s as int].managers@.to_multiset() =~= orig.to_multiset());
            lemma_sorted_managers_wf(w0, *self, s);
        }
    }
}

impl<P> World<P> {
    /// Stably sorts scene `s`'s plugins by ascending order.  The set of
    /// plugins — values included — is unchanged.
    pub(crate) fn sort_plugins(&mut self, s: usize)
        requires
            old(self).wf(),
            old(self).valid_scene(s as int),
        ensures
            final(self).wf(),
            final(self).entities == old(self).entities,
            final(self).scenes@.len() == old(self).scenes@.len(),
            forall|j: int|
                0 <= j < old(self).scenes@.len() && j != s ==> final(self).scenes@[j] == old(
                    self,
                ).scenes@[j],
            final(self).scenes@[s as int].initted == old(self).scenes@[s as int].initted,
            final(self).scenes@[s as int].ticks == old(self).scenes@[s as int].ticks,
            final(self).scenes@[s as int].roots == old(self).scenes@[s as int].roots,
            final(self).scenes@[s as int].managers == old(self).scenes@[s as int].managers,
            final(self).scenes@[s as int].plugins@.to_multiset() == old(
                self,
            ).scenes@[s as int].plugins@.to_multiset(),
            forall|a: int, b: int|
                0 <= a < b < final(self).scenes@[s as int].plugins@.len() ==> (
                #[trigger] final(self).scenes@[s as int].plugins@[a]).order <= (
                #[trigger] final(self).scenes@[s as int].plugins@[b]).order,
    {
        let ghost w0 = *self;
        let mut src: Vec<Plugin> = Vec::new();
        core::mem::swap(&mut self.scenes[s].plugins, &mut src);
        let ghost orig = src@;
        proof {
            orig.to_multiset_ensures();
            assert(self.scenes@[s as int].plugins@.to_multiset().add(src@.to_multiset())
                =~= orig.to_multiset()) by {
                assert forall|x: Plugin|
                    self.scenes@[s as int].plugins@.to_multiset().count(x) == 0 by {
                    self.scenes@[s as int].plugins@.to_multiset_ensures();
                    if self.scenes@[s as int].plugins@.to_multiset().count(x) > 0 {
                        assert(self.scenes@[s as int].plugins@.contains(x));
                    }
                }
            }
        }
        while src.len() > 0
            invariant
                (s as int) < w0.scenes@.len(),
                self.entities == w0.entities,
                self.scenes@.len() == w0.scenes@.len(),
                forall|j: int|
                    0 <= j < w0.scenes@.len() && j != s ==> self.scenes@[j] == w0.scenes@[j],
                self.scenes@[s as int].initted == w0.scenes@[s as int].initted,
                self.scenes@[s as int].ticks == w0.scenes@[s as int].ticks,
                self.scenes@[s as int].roots == w0.scenes@[s as int].roots,
                self.scenes@[s as int].managers == w0.scenes@[s as int].managers,
                orig == w0.scenes@[s as int].plugins@,
                self.scenes@[s as int].plugins@.to_multiset().add(src@.to_multiset())
                    == orig.to_multiset(),
                forall|a: int, b: int|
                    0 <= a < b < self.scenes@[s as int].plugins@.len() ==> (
                    #[trigger] self.scenes@[s as int].plugins@[a]).order
                        <= (#[trigger] self.scenes@[s as int].plugins@[b]).order,
                forall|a: int, b: int|
                    0 <= a < self.scenes@[s as int].plugins@.len() && 0 <= b < src@.len() ==> (
                    #[trigger] self.scenes@[s as int].plugins@[a]).order <= (
                    #[trigger] src@[b]).order,
            decreases src@.len(),
        {
            let idx = min_order_plugin(&src);
            let ghost src_pre = src@;
            let ghost dst_pre = self.scenes@[s as int].plugins@;
            let m = src.remove(idx);
            self.scenes[s].plugins.push(m);
            proof {
                src_pre.to_multiset_ensures();
                dst_pre.to_multiset_ensures();
                assert(src@.to_multiset() == src_pre.to_multiset().remove(src_pre[idx as int]));
                assert(self.scenes@[s as int].plugins@.to_multiset() == dst_pre.to_multiset().insert(
                    m,
                ));
                assert(src_pre.to_multiset().count(m) > 0) by {
                    assert(src_pre.contains(m)) by {
                        assert(src_pre[idx as int] == m);
                    }
                }
                assert(self.scenes@[s as int].plugins@.to_multiset().add(src@.to_multiset())
                    =~= orig.to_multiset());
                src_pre.remove_ensures(idx as int);
                assert forall|a: int, b: int|
                    0 <= a < self.scenes@[s as int].plugins@.len() && 0 <= b
                        < src@.len() implies (#[trigger] self.scenes@[s as int].plugins@[a]).order
                    <= (#[trigger] src@[b]).order by {
                    let b0: int = if b < idx {
                        b
                    } else {
                        b + 1
                    };
                    assert(src@[b] == src_pre[b0]);
                    assert(src_pre[idx as int].order <= src_pre[b0].order);
                    if a < dst_pre.len() {
                        assert(self.scenes@[s as int].plugins@[a] == dst_pre[a]);
                    } else {
                        assert(self.scenes@[s as int].plugins@[a] == m);
                    }
                }
            }
        }
        proof {
            src@.to_multiset_ensures();
            assert(src@.to_multiset() =~= Multiset::<Plugin>::empty()) by {
                assert forall|x: Plugin| src@.to_multiset().count(x) == 0 by {
                    if src@.to_multiset().count(x) > 0 {
                        assert(src@.contains(x));
                    }
                }
            }
            assert(self.scenes@[s as int].plugins@.to_multiset() =~= orig.to_multiset());
            let ps0 = orig;
            let ps = self.scenes@[s as int].plugins@;
            ps0.to_multiset_ensures();
            ps.to_multiset_ensures();
            assert(w0.scene_ok(s as int));
            assert forall|m: int| 0 <= m < ps.len() implies ps0.contains(#[trigger] ps[m]) by {
                assert(ps.contains(ps[m]));
                assert(ps.to_multiset().count(ps[m]) > 0);
                assert(ps0.to_multiset().count(ps[m]) > 0);
            }
            assert forall|m1: int, m2: int| 0 <= m1 < m2 < ps.len() implies ps[m1].id
                != ps[m2].id by {
                lemma_multiset_two_positions(ps0, ps, m1, m2);
                let (n1, n2) = choose|n1: int, n2: int|
                    0 <= n1 < ps0.len() && 0 <= n2 < ps0.len() && n1 != n2 && ps0[n1] == ps[m1]
                        && ps0[n2] == ps[m2];
                assert(w0.scenes@[s as int].plugins_distinct());
            }
            assert forall|m: int| 0 <= m < ps.len() implies (#[trigger] ps[m]).scene == Some(s) by {
                assert(ps0.contains(ps[m]));
                let n = choose|n: int| 0 <= n < ps0.len() && ps0[n] == ps[m];
                assert(w0.plugins_ok(s as int));
                assert(w0.scenes@[s as int].plugins@[n].scene == Some(s));
            }
            lemma_plugins_only_wf(w0, *self, s);
        }
    }

    /// Initializes scene `s`, once: unless `init` already ran, the managers
    /// and plugins are stably sorted by ascending order, every plugin's
    /// `init` hook and then every manager's `init` hook runs exactly once,
    /// and the scene becomes initialized.  A repeated call performs no
    /// `init` callbacks and changes nothing at all.
    pub fn init(&mut self, s: usize)
        requires
            old(self).wf(),
            old(self).valid_scene(s as int),
        ensures
            final(self).wf(),
            final(self).scenes@[s as int].initted,
            old(self).scenes@[s as int].initted ==> *final(self) == *old(self),
            !old(self).scenes@[s as int].initted ==> {
                let s0 = old(self).scenes@[s as int];
                let sf = final(self).scenes@[s as int];
                &&& final(self).entities == old(self).entities
                &&& final(self).scenes@.len() == old(self).scenes@.len()
                &&& (forall|j: int|
                    0 <= j < old(self).scenes@.len() && j != s ==> final(self).scenes@[j] == old(
                        self,
                    ).scenes@[j])
                &&& sf.ticks == s0.ticks
                &&& sf.roots == s0.roots
                // every manager keeps its identity, order, scene, members and
                // update count, and sees exactly one more `init` call
                &&& sf.managers@.len() == s0.managers@.len()
                &&& (forall|m: int|
                    0 <= m < sf.managers@.len() ==> {
                        let mgr = #[trigger] sf.managers@[m];
                        s0.spec_has_manager(mgr.type_id) && {
                            let n = s0.manager_index(mgr.type_id);
                            &&& mgr.order == s0.managers@[n].order
                            &&& mgr.scene == s0.managers@[n].scene
                            &&& mgr.members == s0.managers@[n].members
                            &&& mgr.update_calls == s0.managers@[n].update_calls
                            &&& mgr.init_calls == spec_bump(s0.managers@[n].init_calls)
                        }
                    })
                &&& (forall|a: int, b: int|
                    0 <= a < b < sf.managers@.len() ==> (#[trigger] sf.managers@[a]).order <= (
                    #[trigger] sf.managers@[b]).order)
                // and so does every plugin
                &&& sf.plugins@.len() == s0.plugins@.len()
                &&& (forall|k: int|
                    0 <= k < sf.plugins@.len() ==> {
                        let p = #[trigger] sf.plugins@[k];
                        s0.spec_has_plugin(p.id) && {
                            let n = s0.plugin_index(p.id);
                            &&& p.order == s0.plugins@[n].order
                            &&& p.scene == s0.plugins@[n].scene
                            &&& p.before_calls == s0.plugins@[n].before_calls
                            &&& p.after_calls == s0.plugins@[n].after_calls
                            &&& p.init_calls == spec_bump(s0.plugins@[n].init_calls)
                        }
                    })
                &&& (forall|a: int, b: int|
                    0 <= a < b < sf.plugins@.len() ==> (#[trigger] sf.plugins@[a]).order <= (
                    #[trigger] sf.plugins@[b]).order)
            },
    {
        if self.scenes[s].initted {
            return ;
        }
        let ghost w0 = *self;
        self.sort_managers(s);
        let ghost wm = *self;
        self.sort_plugins(s);
        let ghost wp = *self;
        proof {
            wp.scenes@[s as int].plugins@.to_multiset_ensures();
            wm.scenes@[s as int].plugins@.to_multiset_ensures();
            w0.scenes@[s as int].plugins@.to_multiset_ensures();
            assert(wp.scenes@[s as int].plugins@.len() == w0.scenes@[s as int].plugins@.len());
            assert(wp.scenes@[s as int].managers@.to_multiset()
                == w0.scenes@[s as int].managers@.to_multiset());
            wp.scenes@[s as int].managers@.to_multiset_ensures();
            w0.scenes@[s as int].managers@.to_multiset_ensures();
            assert(wp.scenes@[s as int].managers@.len() == w0.scenes@[s as int].managers@.len());
        }
        let np = self.scenes[s].plugins.len();
        let mut k: usize = 0;
        while k < np
            invariant
                (s as int) < wp.scenes@.len(),
                k <= np,
                self.entities == wp.entities,
                self.scenes@.len() == wp.scenes@.len(),
                forall|j: int|
                    0 <= j < wp.scenes@.len() && j != s ==> self.scenes@[j] == wp.scenes@[j],
                self.scenes@[s as int].initted == wp.scenes@[s as int].initted,
                self.scenes@[s as int].roots == wp.scenes@[s as int].roots,
                self.scenes@[s as int].managers == wp.scenes@[s as int].managers,
                self.scenes@[s as int].ticks == wp.scenes@[s as int].ticks,
                np == wp.scenes@[s as int].plugins@.len(),
                self.scenes@[s as int].plugins@.len() == np,
                forall|i: int|
                    0 <= i < k ==> {
                        let p0 = wp.scenes@[s as int].plugins@[i];
                        let p = #[trigger] self.scenes@[s as int].plugins@[i];
                        p.id == p0.id && p.order == p0.order && p.scene == p0.scene
                            && p.before_calls == p0.before_calls && p.after_calls == p0.after_calls
                            && p.init_calls == spec_bump(p0.init_calls)
                    },
                forall|i: int|
                    k <= i < np ==> self.scenes@[s as int].plugins@[i]
                        == wp.scenes@[s as int].plugins@[i],
            decreases np - k,
        {
            let ic = self.scenes[s].plugins[k].init_calls;
            self.scenes[s].plugins[k].init_calls = bump(ic);
            k = k + 1;
        }
        let ghost wq = *self;
        let nm = self.scenes[s].managers.len();
        let mut k2: usize = 0;
        while k2 < nm
            invariant
                (s as int) < wq.scenes@.len(),
                k2 <= nm,
                self.entities == wq.entities,
                self.scenes@.len() == wq.scenes@.len(),
                forall|j: int|
                    0 <= j < wq.scenes@.len() && j != s ==> self.scenes@[j] == wq.scenes@[j],
                self.scenes@[s as int].initted == wq.scenes@[s as int].initted,
                self.scenes@[s as int].roots == wq.scenes@[s as int].roots,
                self.scenes@[s as int].plugins == wq.scenes@[s as int].plugins,
                self.scenes@[s as int].ticks == wq.scenes@[s as int].ticks,
                nm == wq.scenes@[s as int].managers@.len(),
                self.scenes@[s as int].managers@.len() == nm,
                forall|i: int|
                    0 <= i < k2 ==> {
                        let m0 = wq.scenes@[s as int].managers@[i];
                        let m = #[trigger] self.scenes@[s as int].managers@[i];
                        m.type_id == m0.type_id && m.order == m0.order && m.scene == m0.scene
                            && m.members == m0.members && m.update_calls == m0.update_calls
                            && m.init_calls == spec_bump(m0.init_calls)
                    },
                forall|i: int|
                    k2 <= i < nm ==> self.scenes@[s as int].managers@[i]
                        == wq.scenes@[s as int].managers@[i],
            decreases nm - k2,
        {
            let ic = self.scenes[s].managers[k2].init_calls;
            self.scenes[s].managers[k2].init_calls = bump(ic);
            k2 = k2 + 1;
        }
        self.scenes[s].initted = true;
        proof {
            lemma_counters_only_wf(wp, *self, s);
            let s0 = w0.scenes@[s as int];
            let sf = self.scenes@[s as int];
            assert forall|m: int| 0 <= m < sf.managers@.len() implies {
                let mgr = #[trigger] sf.managers@[m];
                s0.spec_has_manager(mgr.type_id) && {
                    let n = s0.manager_index(mgr.type_id);
                    &&& mgr.order == s0.managers@[n].order
                    &&& mgr.scene == s0.managers@[n].scene
                    &&& mgr.members == s0.managers@[n].members
                    &&& mgr.update_calls == s0.managers@[n].update_calls
                    &&& mgr.init_calls == spec_bump(s0.managers@[n].init_calls)
                }
            } by {
                assert(wp.mgrs_from(s0, s)) by {
                    assert(wm.mgrs_from(s0, s));
                    assert(wp.scenes@[s as int].managers == wm.scenes@[s as int].managers);
                    assert forall|m2: int|
                        0 <= m2 < wp.scenes@[s as int].managers@.len() implies {
                        let mgr2 = #[trigger] wp.scenes@[s as int].managers@[m2];
                        s0.spec_has_manager(mgr2.type_id) && crate::managers::mgr_same_meta(
                            s0.managers@[s0.manager_index(mgr2.type_id)],
                            mgr2,
                        )
                    } by {
                        assert(wm.scenes@[s as int].managers@[m2]
                            == wp.scenes@[s as int].managers@[m2]);
                    }
                }
                let sorted = wp.scenes@[s as int].managers@[m];
                assert(s0.spec_has_manager(sorted.type_id) && crate::managers::mgr_same_meta(
                    s0.managers@[s0.manager_index(sorted.type_id)],
                    sorted,
                ));
                assert(sf.managers@[m].type_id == sorted.type_id);
                assert(sf.managers@[m].members == sorted.members) by {
                    assert(wq.scenes@[s as int].managers@[m] == sorted);
                }
                // sorting moves whole values, so the member list agrees with the
                // pre-sort manager of the same type
                assert(sorted.members == s0.managers@[s0.manager_index(sorted.type_id)].members)
                    by {
                    assert(wm.scenes@[s as int].managers@.to_multiset()
                        == s0.managers@.to_multiset());
                    wm.scenes@[s as int].managers@.to_multiset_ensures();
                    s0.managers@.to_multiset_ensures();
                    assert(wm.scenes@[s as int].managers@.contains(sorted)) by {
                        assert(wm.scenes@[s as int].managers@[m] == sorted);
                    }
                    assert(s0.managers@.to_multiset().count(sorted) > 0);
                    assert(s0.managers@.contains(sorted));
                    let n2 = choose|n2: int|
                        0 <= n2 < s0.managers@.len() && s0.managers@[n2] == sorted;
                    assert(w0.scene_ok(s as int));
                    assert(s0.managers_distinct());
                    assert(n2 == s0.manager_index(sorted.type_id));
                }
            }
            assert forall|k3: int| 0 <= k3 < sf.plugins@.len() implies {
                let p = #[trigger] sf.plugins@[k3];
                s0.spec_has_plugin(p.id) && {
                    let n = s0.plugin_index(p.id);
                    &&& p.order == s0.plugins@[n].order
                    &&& p.scene == s0.plugins@[n].scene
                    &&& p.before_calls == s0.plugins@[n].before_calls
                    &&& p.after_calls == s0.plugins@[n].after_calls
                    &&& p.init_calls == spec_bump(s0.plugins@[n].init_calls)
                }
            } by {
                let sorted = wp.scenes@[s as int].plugins@[k3];
                assert(wp.scenes@[s as int].plugins@.to_multiset() == s0.plugins@.to_multiset());
                wp.scenes@[s as int].plugins@.to_multiset_ensures();
                s0.plugins@.to_multiset_ensures();
                assert(wp.scenes@[s as int].plugins@.contains(sorted)) by {
                    assert(wp.scenes@[s as int].plugins@[k3] == sorted);
                }
                assert(s0.plugins@.to_multiset().count(sorted) > 0);
                assert(s0.plugins@.contains(sorted));
                let n2 = choose|n2: int| 0 <= n2 < s0.plugins@.len() && s0.plugins@[n2] == sorted;
                assert(s0.spec_has_plugin(sorted.id));
                let n = s0.plugin_index(sorted.id);
                assert(s0.plugins@[n].id == sorted.id);
                assert(w0.scene_ok(s as int));
                assert(w0.plugins_ok(s as int));
                assert(s0.plugins_distinct());
                assert(n == n2);
                assert(sf.plugins@[k3].id == sorted.id);
                assert(wq.scenes@[s as int].plugins@[k3].id == sorted.id);
            }
        }
    }
}

/// A permutation of a scene's managers preserves the global invariant and
/// the managers' provenance.
proof fn lemma_sorted_managers_wf<P>(w0: World<P>, w: World<P>, s: usize)
    requires
        w0.wf(),
        (s as int) < w0.scenes@.len(),
        w.entities == w0.entities,
        w.scenes@.len() == w0.scenes@.len(),
        forall|j: int| 0 <= j < w0.scenes@.len() && j != s ==> w.scenes@[j] == w0.scenes@[j],
        w.scenes@[s as int].roots == w0.scenes@[s as int].roots,
        w.scenes@[s as int].plugins == w0.scenes@[s as int].plugins,
        w.scenes@[s as int].managers@.to_multiset() == w0.scenes@[s as int].managers@.to_multiset(),
    ensures
        w.wf(),
        w.mgrs_from(w0.scenes@[s as int], s),
        forall|m0: int|
            0 <= m0 < w0.scenes@[s as int].managers@.len() ==> w.scenes@[s as int].spec_has_manager(
                (#[trigger] w0.scenes@[s as int].managers@[m0]).type_id,
            ),
{
    let ms0 = w0.scenes@[s as int].managers@;
    let ms = w.scenes@[s as int].managers@;
    vstd::std_specs::vec::axiom_spec_len(&w0.entities);
    vstd::std_specs::vec::axiom_spec_len(&w0.scenes);
    ms0.to_multiset_ensures();
    ms.to_multiset_ensures();
    assert(w0.scene_ok(s as int));
    // every sorted manager is one of the pre-sort managers
    assert forall|m: int| 0 <= m < ms.len() implies ms0.contains(#[trigger] ms[m]) by {
        assert(ms.contains(ms[m]));
        assert(ms.to_multiset().count(ms[m]) > 0);
        assert(ms0.to_multiset().count(ms[m]) > 0);
    }
    assert forall|m1: int, m2: int| 0 <= m1 < m2 < ms.len() implies ms[m1].type_id
        != ms[m2].type_id by {
        lemma_multiset_two_positions(ms0, ms, m1, m2);
        let (n1, n2) = choose|n1: int, n2: int|
            0 <= n1 < ms0.len() && 0 <= n2 < ms0.len() && n1 != n2 && ms0[n1] == ms[m1] && ms0[n2]
                == ms[m2];
        assert(w0.scenes@[s as int].managers_distinct());
    }
    assert forall|m: int| 0 <= m < ms.len() implies #[trigger] w.manager_ok(s as int, m) by {
        assert(ms0.contains(ms[m]));
        let n = choose|n: int| 0 <= n < ms0.len() && ms0[n] == ms[m];
        assert(w0.manager_ok(s as int, n));
    }
    assert forall|i: int, k: int|
        0 <= i < w.es().len() && w.es()[i].scene == Some(s) && 0 <= k
            < w.es()[i].components@.len() implies w.scenes@[s as int].spec_has_manager(
        (#[trigger] w.es()[i].components@[k]).manager_type_id,
    ) by {
        assert(w0.manager_coverage_ok(s as int));
        let mt = w.es()[i].components@[k].manager_type_id;
        assert(w0.scenes@[s as int].spec_has_manager(mt));
        let n = choose|n: int| 0 <= n < ms0.len() && ms0[n].type_id == mt;
        assert(ms0.contains(ms0[n]));
        assert(ms0.to_multiset().count(ms0[n]) > 0);
        assert(ms.to_multiset().count(ms0[n]) > 0);
        assert(ms.contains(ms0[n]));
        let m = choose|m: int| 0 <= m < ms.len() && ms[m] == ms0[n];
        assert(ms[m].type_id == mt);
    }
    assert forall|m0: int|
        0 <= m0 < ms0.len() implies w.scenes@[s as int].spec_has_manager(
        (#[trigger] ms0[m0]).type_id,
    ) by {
        assert(ms0.contains(ms0[m0]));
        assert(ms0.to_multiset().count(ms0[m0]) > 0);
        assert(ms.to_multiset().count(ms0[m0]) > 0);
        assert(ms.contains(ms0[m0]));
        let m = choose|m: int| 0 <= m < ms.len() && ms[m] == ms0[m0];
        assert(ms[m].type_id == ms0[m0].type_id);
    }
    assert(w.mgrs_from(w0.scenes@[s as int], s)) by {
        let s0 = w0.scenes@[s as int];
        assert forall|m: int| 0 <= m < ms.len() implies {
            let mgr = #[trigger] w.scenes@[s as int].managers@[m];
            s0.spec_has_manager(mgr.type_id) && crate::managers::mgr_same_meta(
                s0.managers@[s0.manager_index(mgr.type_id)],
                mgr,
            )
        } by {
            assert(ms0.contains(ms[m]));
            let n = choose|n: int| 0 <= n < ms0.len() && ms0[n] == ms[m];
            assert(s0.managers@[n] == ms[m]);
            assert(s0.spec_has_manager(ms[m].type_id));
            let mi0 = s0.manager_index(ms[m].type_id);
            assert(s0.managers@[mi0].type_id == ms[m].type_id);
            assert(s0.managers_distinct());
            assert(mi0 == n);
        }
    }
    // the rest of the world is untouched
    assert forall|i: int| 0 <= i < w.es().len() implies #[trigger] crate::ancestry::parent_ok(
        w.es(),
        i,
    ) by {
        assert(crate::ancestry::parent_ok(w0.es(), i));
    }
    assert forall|i: int| 0 <= i < w.es().len() implies #[trigger] crate::ancestry::children_ok(
        w.es(),
        i,
    ) by {
        assert(crate::ancestry::children_ok(w0.es(), i));
    }
    assert forall|i: int| 0 <= i < w.es().len() implies #[trigger] w.entity_ok(i) by {
        assert(w0.entity_ok(i));
    }
    assert forall|i: int| 0 <= i < w.es().len() implies #[trigger] w.scene_edge_ok(i) by {
        assert(w0.scene_edge_ok(i));
    }
    assert forall|j: int| 0 <= j < w.scenes@.len() implies #[trigger] w.scene_ok(j) by {
        assert(w0.scene_ok(j));
        if j == s as int {
            assert forall|k: int| 0 <= k < w.scenes@[j].roots@.len() implies (
            #[trigger] w.scenes@[j].roots@[k]) < w.es().len()
                && w.es()[w.scenes@[j].roots@[k] as int].parent is None
                && w.es()[w.scenes@[j].roots@[k] as int].scene == Some(j as usize) by {
                assert(w0.scenes@[j].roots@[k] < w0.es().len());
            }
            assert forall|i: int|
                0 <= i < w.es().len() && (#[trigger] w.es()[i]).scene == Some(j as usize)
                    && w.es()[i].parent is None implies w.scenes@[j].roots@.contains(
                i as usize,
            ) by {
                assert(w0.scenes@[j].roots@.contains(i as usize));
            }
            assert(w.scenes@[j].plugins@ == w0.scenes@[j].plugins@);
            assert forall|k1: int, k2: int|
                0 <= k1 < k2 < w.scenes@[j].plugins@.len() implies w.scenes@[j].plugins@[k1].id
                != w.scenes@[j].plugins@[k2].id by {
                assert(w0.scenes@[j].plugins_distinct());
                assert(w.scenes@[j].plugins@[k1] == w0.scenes@[j].plugins@[k1]);
                assert(w.scenes@[j].plugins@[k2] == w0.scenes@[j].plugins@[k2]);
            }
            assert forall|k: int| 0 <= k < w.scenes@[j].plugins@.len() implies (
            #[trigger] w.scenes@[j].plugins@[k]).scene == Some(j as usize) by {
                assert(w0.scenes@[j].plugins@[k].scene == Some(j as usize));
            }
        } else {
            assert(w.scenes@[j] == w0.scenes@[j]);
            assert forall|m: int|
                0 <= m < w.scenes@[j].managers@.len() implies #[trigger] w.manager_ok(j, m) by {
                assert(w0.manager_ok(j, m));
            }
        }
    }
}

/// A mutation that only touches callback counters and tick counts — every
/// structural field of every entity, root list, manager membership, plugin
/// identity and ordering is unchanged — preserves the global invariant.
proof fn lemma_counters_only_wf<P>(w0: World<P>, w: World<P>, s: usize)
    requires
        w0.wf(),
        (s as int) < w0.scenes@.len(),
        w.entities == w0.entities,
        w.scenes@.len() == w0.scenes@.len(),
        forall|j: int| 0 <= j < w0.scenes@.len() && j != s ==> w.scenes@[j] == w0.scenes@[j],
        w.scenes@[s as int].roots == w0.scenes@[s as int].roots,
        w.scenes@[s as int].plugins@.len() == w0.scenes@[s as int].plugins@.len(),
        forall|k: int|
            0 <= k < w0.scenes@[s as int].plugins@.len() ==> (
            #[trigger] w.scenes@[s as int].plugins@[k]).id == w0.scenes@[s as int].plugins@[k].id
                && w.scenes@[s as int].plugins@[k].scene == w0.scenes@[s as int].plugins@[k].scene,
        w.scenes@[s as int].managers@.len() == w0.scenes@[s as int].managers@.len(),
        forall|k: int|
            0 <= k < w0.scenes@[s as int].managers@.len() ==> (
            #[trigger] w.scenes@[s as int].managers@[k]).type_id
                == w0.scenes@[s as int].managers@[k].type_id
                && w.scenes@[s as int].managers@[k].scene == w0.scenes@[s as int].managers@[k].scene
                && w.scenes@[s as int].managers@[k].members
                == w0.scenes@[s as int].managers@[k].members,
    ensures
        w.wf(),
{
    let es0 = w0.es();
    let es = w.es();
    assert(es == es0);
    assert forall|i: int| 0 <= i < es.len() implies #[trigger] crate::ancestry::parent_ok(es, i)
        && #[trigger] crate::ancestry::children_ok(es, i) by {
        assert(crate::ancestry::parent_ok(es0, i));
        assert(crate::ancestry::children_ok(es0, i));
    }
    assert forall|i: int| 0 <= i < es.len() implies #[trigger] w.entity_ok(i) by {
        assert(w0.entity_ok(i));
    }
    assert forall|i: int| 0 <= i < es.len() implies #[trigger] w.scene_edge_ok(i) by {
        assert(w0.scene_edge_ok(i));
    }
    assert forall|j: int| 0 <= j < w.scenes@.len() implies #[trigger] w.scene_ok(j) by {
        assert(w0.scene_ok(j));
        if j == s as int {
            assert forall|k: int| 0 <= k < w.scenes@[j].roots@.len() implies (
            #[trigger] w.scenes@[j].roots@[k]) < es.len()
                && es[w.scenes@[j].roots@[k] as int].parent is None
                && es[w.scenes@[j].roots@[k] as int].scene == Some(j as usize) by {
                assert(w0.scenes@[j].roots@[k] < es0.len());
            }
            assert forall|i: int|
                0 <= i < es.len() && (#[trigger] es[i]).scene == Some(j as usize) && es[i].parent
                    is None implies w.scenes@[j].roots@.contains(i as usize) by {
                assert(w0.scenes@[j].roots@.contains(i as usize));
            }
            assert forall|m1: int, m2: int|
                0 <= m1 < m2 < w.scenes@[j].managers@.len() implies w.scenes@[j].managers@[m1].type_id
                != w.scenes@[j].managers@[m2].type_id by {
                assert(w0.scenes@[j].managers_distinct());
            }
            assert forall|m: int|
                0 <= m < w.scenes@[j].managers@.len() implies #[trigger] w.manager_ok(j, m) by {
                assert(w0.manager_ok(j, m));
            }
            assert forall|i: int, k: int|
                0 <= i < es.len() && es[i].scene == Some(j as usize) && 0 <= k
                    < es[i].components@.len() implies w.scenes@[j].spec_has_manager(
                (#[trigger] es[i].components@[k]).manager_type_id,
            ) by {
                assert(w0.manager_coverage_ok(j));
                let mt = es0[i].components@[k].manager_type_id;
                assert(w0.scenes@[j].spec_has_manager(mt));
                let m0 = choose|m0: int|
                    0 <= m0 < w0.scenes@[j].managers@.len()
                        && w0.scenes@[j].managers@[m0].type_id == mt;
                assert(w.scenes@[j].managers@[m0].type_id == mt);
            }
            assert forall|k1: int, k2: int|
                0 <= k1 < k2 < w.scenes@[j].plugins@.len() implies w.scenes@[j].plugins@[k1].id
                != w.scenes@[j].plugins@[k2].id by {
                assert(w0.scenes@[j].plugins_distinct());
            }
            assert forall|k: int| 0 <= k < w.scenes@[j].plugins@.len() implies (
            #[trigger] w.scenes@[j].plugins@[k]).scene == Some(j as usize) by {
                assert(w0.scenes@[j].plugins@[k].scene == Some(j as usize));
            }
        } else {
            assert(w.scenes@[j] == w0.scenes@[j]);
            assert forall|m: int|
                0 <= m < w.scenes@[j].managers@.len() implies #[trigger] w.manager_ok(j, m) by {
                assert(w0.manager_ok(j, m));
            }
        }
    }
}

/// A mutation that only touches the plugin list of one scene — keeping the
/// plugin identities distinct and their scene back-references right —
/// preserves the global invariant.
pub(crate) proof fn lemma_plugins_only_wf<P>(w0: World<P>, w: World<P>, s: usize)
    requires
        w0.wf(),
        (s as int) < w0.scenes@.len(),
        w.entities == w0.entities,
        w.scenes@.len() == w0.scenes@.len(),
        forall|j: int| 0 <= j < w0.scenes@.len() && j != s ==> w.scenes@[j] == w0.scenes@[j],
        w.scenes@[s as int].roots == w0.scenes@[s as int].roots,
        w.scenes@[s as int].managers == w0.scenes@[s as int].managers,
        w.scenes@[s as int].plugins_distinct(),
        forall|k: int|
            0 <= k < w.scenes@[s as int].plugins@.len() ==> (
            #[trigger] w.scenes@[s as int].plugins@[k]).scene == Some(s),
    ensures
        w.wf(),
{
    let es0 = w0.es();
    let es = w.es();
    assert(es == es0);
    assert forall|i: int| 0 <= i < es.len() implies #[trigger] crate::ancestry::parent_ok(es, i)
        && #[trigger] crate::ancestry::children_ok(es, i) by {
        assert(crate::ancestry::parent_ok(es0, i));
        assert(crate::ancestry::children_ok(es0, i));
    }
    assert forall|i: int| 0 <= i < es.len() implies #[trigger] w.entity_ok(i) by {
        assert(w0.entity_ok(i));
    }
    assert forall|i: int| 0 <= i < es.len() implies #[trigger] w.scene_edge_ok(i) by {
        assert(w0.scene_edge_ok(i));
    }
    assert forall|j: int| 0 <= j < w.scenes@.len() implies #[trigger] w.scene_ok(j) by {
        assert(w0.scene_ok(j));
        if j == s as int {
            assert forall|k: int| 0 <= k < w.scenes@[j].roots@.len() implies (
            #[trigger] w.scenes@[j].roots@[k]) < es.len()
                && es[w.scenes@[j].roots@[k] as int].parent is None
                && es[w.scenes@[j].roots@[k] as int].scene == Some(j as usize) by {
                assert(w0.scenes@[j].roots@[k] < es0.len());
            }
            assert forall|i: int|
                0 <= i < es.len() && (#[trigger] es[i]).scene == Some(j as usize) && es[i].parent
                    is None implies w.scenes@[j].roots@.contains(i as usize) by {
                assert(w0.scenes@[j].roots@.contains(i as usize));
            }
            assert(w.scenes@[j].managers@ == w0.scenes@[j].managers@);
            assert forall|m1: int, m2: int|
                0 <= m1 < m2 < w.scenes@[j].managers@.len() implies w.scenes@[j].managers@[m1].type_id
                != w.scenes@[j].managers@[m2].type_id by {
                assert(w0.scenes@[j].managers_distinct());
                assert(w.scenes@[j].managers@[m1] == w0.scenes@[j].managers@[m1]);
                assert(w.scenes@[j].managers@[m2] == w0.scenes@[j].managers@[m2]);
            }
            assert forall|m: int|
                0 <= m < w.scenes@[j].managers@.len() implies #[trigger] w.manager_ok(j, m) by {
                assert(w0.manager_ok(j, m));
                assert(w.scenes@[j].managers@[m] == w0.scenes@[j].managers@[m]);
            }
            assert forall|i: int, k: int|
                0 <= i < es.len() && es[i].scene == Some(j as usize) && 0 <= k
                    < es[i].components@.len() implies w.scenes@[j].spec_has_manager(
                (#[trigger] es[i].components@[k]).manager_type_id,
            ) by {
                assert(w0.manager_coverage_ok(j));
                let mt = es0[i].components@[k].manager_type_id;
                assert(w0.scenes@[j].spec_has_manager(mt));
                let m0 = choose|m0: int|
                    0 <= m0 < w0.scenes@[j].managers@.len()
                        && w0.scenes@[j].managers@[m0].type_id == mt;
                assert(w.scenes@[j].managers@[m0].type_id == mt);
            }
        } else {
            assert(w.scenes@[j] == w0.scenes@[j]);
            assert forall|m: int|
                0 <= m < w.scenes@[j].managers@.len() implies #[trigger] w.manager_ok(j, m) by {
                assert(w0.manager_ok(j, m));
            }
        }
    }
}

} // verus!
