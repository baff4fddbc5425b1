//! The ancestor chain of an entity, and the facts about it that the tree
//! operations rely on: every entity's chain runs from the parentless root of
//! its tree down to the entity itself, its indices are distinct, and chains
//! of entities in different trees are disjoint.

use vstd::prelude::*;
use vstd::set_lib::*;
use crate::entity::Entity;

verus! {

/// Local consistency of the parent link and the depth cache at index `i`:
/// a parentless entity has depth 0; a parented one points at a valid other
/// entity, sits in that parent's children list, and caches the parent's
/// depth plus one.
pub open spec fn parent_ok<P>(es: Seq<Entity<P>>, i: int) -> bool {
    match es[i].parent {
        None => es[i].depth == 0,
        Some(p) => p < es.len() && p != i && es[i].depth == es[p as int].depth + 1
            && es[p as int].children@.contains(i as usize),
    }
}

/// Local consistency of the children list at index `i`: no duplicates, and
/// every listed child is a valid other entity whose parent link points back
/// at `i`.
pub open spec fn children_ok<P>(es: Seq<Entity<P>>, i: int) -> bool {
    es[i].children@.no_duplicates() && forall|k: int|
        0 <= k < es[i].children@.len() ==> (#[trigger] es[i].children@[k]) < es.len()
            && es[i].children@[k] != i && es[es[i].children@[k] as int].parent == Some(
            i as usize,
        )
}

/// The forest structure is consistent at every index.
pub open spec fn wf_tree<P>(es: Seq<Entity<P>>) -> bool {
    (forall|i: int| 0 <= i < es.len() ==> #[trigger] parent_ok(es, i)) && (forall|i: int|
        0 <= i < es.len() ==> #[trigger] children_ok(es, i))
}

/// The ancestor chain of `i`, computed with explicit fuel so that the
/// definition terminates on arbitrary input; `chain` supplies the fuel that
/// suffices on well-formed forests.
pub open spec fn chain_r<P>(es: Seq<Entity<P>>, i: int, fuel: nat) -> Seq<int>
    decreases fuel,
{
    match es[i].parent {
        None => seq![i],
        Some(p) => if fuel == 0 {
            seq![i]
        } else {
            chain_r(es, p as int, (fuel - 1) as nat).push(i)
        },
    }
}

/// The ancestor chain of `i`: the indices from the root of `i`'s tree down
/// to `i` itself, in order.
pub open spec fn chain<P>(es: Seq<Entity<P>>, i: int) -> Seq<int> {
    chain_r(es, i, es[i].depth as nat)
}

/// `a` is an ancestor of `i`, or `i` itself.
pub open spec fn in_subtree<P>(es: Seq<Entity<P>>, i: int, a: int) -> bool {
    chain(es, i).contains(a)
}

/// On a well-formed forest the chain unfolds along the parent link.
pub proof fn lemma_chain_unfold<P>(es: Seq<Entity<P>>, i: int)
    requires
        wf_tree(es),
        0 <= i < es.len(),
    ensures
        chain(es, i) == match es[i].parent {
            None => seq![i],
            Some(p) => chain(es, p as int).push(i),
        },
{
    assert(parent_ok(es, i));
}

/// The chain of `i` has length `depth(i) + 1`, its `k`-th element is a valid
/// index of depth `k`, it ends at `i`, starts at a parentless root, and
/// consecutive elements are linked by the parent relation.
pub proof fn lemma_chain_props<P>(es: Seq<Entity<P>>, i: int)
    requires
        wf_tree(es),
        0 <= i < es.len(),
    ensures
        chain(es, i).len() == es[i].depth + 1,
        forall|k: int|
            0 <= k <= es[i].depth ==> 0 <= #[trigger] chain(es, i)[k] < es.len() && es[chain(
                es,
                i,
            )[k]].depth == k,
        chain(es, i)[es[i].depth as int] == i,
        es[chain(es, i)[0]].parent is None,
        forall|k: int|
            0 < k <= es[i].depth ==> es[#[trigger] chain(es, i)[k]].parent == Some(
                chain(es, i)[k - 1] as usize,
            ),
    decreases es[i].depth,
{
    lemma_chain_unfold(es, i);
    assert(parent_ok(es, i));
    match es[i].parent {
        None => {},
        Some(p) => {
            lemma_chain_props(es, p as int);
            assert(chain(es, i) == chain(es, p as int).push(i));
        },
    }
}

/// The chain of `i` holds no duplicate indices.
pub proof fn lemma_chain_no_dup<P>(es: Seq<Entity<P>>, i: int)
    requires
        wf_tree(es),
        0 <= i < es.len(),
    ensures
        chain(es, i).no_duplicates(),
{
    lemma_chain_props(es, i);
    assert forall|k1: int, k2: int|
        0 <= k1 < chain(es, i).len() && 0 <= k2 < chain(es, i).len() && k1 != k2 implies chain(
        es,
        i,
    )[k1] != chain(es, i)[k2] by {
        assert(es[chain(es, i)[k1]].depth == k1);
        assert(es[chain(es, i)[k2]].depth == k2);
    }
}

/// The chain of the `k`-th element of `i`'s chain is the prefix of `i`'s
/// chain that ends there.
pub proof fn lemma_chain_take<P>(es: Seq<Entity<P>>, i: int, k: int)
    requires
        wf_tree(es),
        0 <= i < es.len(),
        0 <= k < chain(es, i).len(),
    ensures
        chain(es, chain(es, i)[k]) == chain(es, i).take(k + 1),
    decreases es[i].depth,
{
    lemma_chain_props(es, i);
    lemma_chain_unfold(es, i);
    if k == chain(es, i).len() - 1 {
        assert(chain(es, i)[k] == i);
        assert(chain(es, chain(es, i)[k]) =~= chain(es, i).take(k + 1));
    } else {
        let p = es[i].parent.unwrap() as int;
        assert(parent_ok(es, i));
        assert(chain(es, i) == chain(es, p).push(i));
        lemma_chain_props(es, p);
        assert(chain(es, i)[k] == chain(es, p)[k]);
        lemma_chain_take(es, p, k);
        assert(chain(es, i).take(k + 1) =~= chain(es, p).take(k + 1));
    }
}

/// A parentless ancestor of `i` is the first element of `i`'s chain.
pub proof fn lemma_chain_root<P>(es: Seq<Entity<P>>, i: int, c: int)
    requires
        wf_tree(es),
        0 <= i < es.len(),
        in_subtree(es, i, c),
        0 <= c < es.len(),
        es[c].parent is None,
    ensures
        chain(es, i)[0] == c,
{
    lemma_chain_props(es, i);
    let k = choose|k: int| 0 <= k < chain(es, i).len() && chain(es, i)[k] == c;
    lemma_chain_take(es, i, k);
    lemma_chain_props(es, c);
    assert(chain(es, c).len() == 1);
    assert(chain(es, i).take(k + 1).len() == k + 1);
    assert(chain(es, i)[0] == chain(es, i).take(k + 1)[0]);
    assert(chain(es, c)[0] == c);
}

/// An ancestor-or-self `c` of `x` is a valid index whose depth is at most
/// the depth of `x`, with equality only for `x` itself.
pub proof fn lemma_subtree_depth_ge<P>(es: Seq<Entity<P>>, x: int, c: int)
    requires
        wf_tree(es),
        0 <= x < es.len(),
        in_subtree(es, x, c),
    ensures
        0 <= c < es.len(),
        es[c].depth <= es[x].depth,
        es[c].depth == es[x].depth ==> c == x,
{
    lemma_chain_props(es, x);
    let k = choose|k: int| 0 <= k < chain(es, x).len() && chain(es, x)[k] == c;
    assert(es[chain(es, x)[k]].depth == k);
    if k == es[x].depth {
        assert(chain(es, x)[es[x].depth as int] == x);
    }
}

/// Every entity is in its own subtree.
pub proof fn lemma_in_own_subtree<P>(es: Seq<Entity<P>>, i: int)
    requires
        wf_tree(es),
        0 <= i < es.len(),
    ensures
        in_subtree(es, i, i),
{
    lemma_chain_props(es, i);
    assert(chain(es, i)[es[i].depth as int] == i);
}

/// A strict member of `c`'s subtree has its parent in `c`'s subtree.
pub proof fn lemma_subtree_step_up<P>(es: Seq<Entity<P>>, x: int, c: int)
    requires
        wf_tree(es),
        0 <= x < es.len(),
        in_subtree(es, x, c),
        x != c,
    ensures
        es[x].parent is Some,
        in_subtree(es, es[x].parent.unwrap() as int, c),
{
    lemma_chain_unfold(es, x);
    lemma_chain_props(es, x);
    if es[x].parent is None {
        assert(chain(es, x) == seq![x]);
        assert(chain(es, x)[0] == x);
        let k = choose|k: int| 0 <= k < chain(es, x).len() && chain(es, x)[k] == c;
        assert(false);
    } else {
        let p = es[x].parent.unwrap() as int;
        assert(chain(es, x) == chain(es, p).push(x));
        let k = choose|k: int| 0 <= k < chain(es, x).len() && chain(es, x)[k] == c;
        assert(k < chain(es, p).len());
        assert(chain(es, p)[k] == c);
    }
}

/// A child of a member of `c`'s subtree is in `c`'s subtree.
pub proof fn lemma_subtree_step_down<P>(es: Seq<Entity<P>>, x: int, c: int)
    requires
        wf_tree(es),
        0 <= x < es.len(),
        es[x].parent is Some,
        in_subtree(es, es[x].parent.unwrap() as int, c),
    ensures
        in_subtree(es, x, c),
{
    let p = es[x].parent.unwrap() as int;
    lemma_chain_unfold(es, x);
    assert(chain(es, x) == chain(es, p).push(x));
    let k = choose|k: int| 0 <= k < chain(es, p).len() && chain(es, p)[k] == c;
    assert(chain(es, x)[k] == c);
}

/// Scene membership is uniform on subtrees: an entity has the same scene as
/// each of its ancestors.
pub proof fn lemma_subtree_same_scene<P>(w: crate::world::World<P>, x: int, c: int)
    requires
        w.wf(),
        0 <= x < w.es().len(),
        in_subtree(w.es(), x, c),
    ensures
        w.es()[x].scene == w.es()[c].scene,
    decreases w.es()[x].depth,
{
    let es = w.es();
    lemma_subtree_depth_ge(es, x, c);
    if x != c {
        lemma_subtree_step_up(es, x, c);
        let q = es[x].parent.unwrap() as int;
        assert(parent_ok(es, x));
        assert(w.scene_edge_ok(x));
        lemma_subtree_same_scene(w, q, c);
    }
}

/// Two equally long forests with the same parent links and depth caches have
/// the same ancestor chains.
pub proof fn lemma_chain_same<P>(es0: Seq<Entity<P>>, es1: Seq<Entity<P>>, i: int)
    requires
        es0.len() == es1.len(),
        forall|k: int|
            0 <= k < es0.len() ==> es1[k].parent == es0[k].parent && es1[k].depth == es0[k].depth,
        0 <= i < es0.len(),
        wf_tree(es0),
    ensures
        chain(es1, i) == chain(es0, i),
    decreases es0[i].depth,
{
    assert(parent_ok(es0, i));
    match es0[i].parent {
        None => {},
        Some(p) => {
            lemma_chain_same(es0, es1, p as int);
        },
    }
}

/// Subtree membership under `c` is stable across a mutation that changes no
/// parent link other than `c`'s own, as long as both sides are well-formed
/// forests.
pub proof fn lemma_subtree_stable<P>(es0: Seq<Entity<P>>, es1: Seq<Entity<P>>, c: int, i: int)
    requires
        wf_tree(es0),
        wf_tree(es1),
        es0.len() == es1.len(),
        0 <= c < es0.len(),
        forall|k: int| 0 <= k < es0.len() && k != c ==> es1[k].parent == es0[k].parent,
        0 <= i < es0.len(),
    ensures
        in_subtree(es1, i, c) == in_subtree(es0, i, c),
    decreases es0[i].depth,
{
    if i == c {
        lemma_in_own_subtree(es0, i);
        lemma_in_own_subtree(es1, i);
    } else {
        assert(parent_ok(es0, i));
        assert(parent_ok(es1, i));
        lemma_chain_unfold(es0, i);
        lemma_chain_unfold(es1, i);
        match es0[i].parent {
            None => {
                assert(chain(es0, i) == seq![i]);
                assert(chain(es1, i) == seq![i]);
                assert(!in_subtree(es0, i, c)) by {
                    if in_subtree(es0, i, c) {
                        let k = choose|k: int|
                            0 <= k < chain(es0, i).len() && chain(es0, i)[k] == c;
                        assert(chain(es0, i)[k] == i);
                    }
                }
                assert(!in_subtree(es1, i, c)) by {
                    if in_subtree(es1, i, c) {
                        let k = choose|k: int|
                            0 <= k < chain(es1, i).len() && chain(es1, i)[k] == c;
                        assert(chain(es1, i)[k] == i);
                    }
                }
            },
            Some(p) => {
                let q = p as int;
                lemma_subtree_stable(es0, es1, c, q);
                crate::seqs::lemma_push_contains(chain(es0, q), i, c);
                crate::seqs::lemma_push_contains(chain(es1, q), i, c);
            },
        }
    }
}

/// The subtree of a childless entity is that entity alone.
pub proof fn lemma_childless_subtree<P>(es: Seq<Entity<P>>, e: int, i: int)
    requires
        wf_tree(es),
        es.len() <= usize::MAX,
        0 <= e < es.len(),
        0 <= i < es.len(),
        es[e].children@.len() == 0,
        in_subtree(es, i, e),
    ensures
        i == e,
{
    lemma_chain_props(es, i);
    let k = choose|k: int| 0 <= k < chain(es, i).len() && chain(es, i)[k] == e;
    if k < chain(es, i).len() - 1 {
        let x = chain(es, i)[k + 1];
        assert(0 <= x < es.len());
        assert(es[x].parent == Some(chain(es, i)[k] as usize));
        assert(es[x].parent == Some(e as usize));
        assert(parent_ok(es, x));
        assert((e as usize) as int == e);
        assert(es[e].children@.contains(x as usize));
    } else {
        assert(chain(es, i)[chain(es, i).len() - 1] == i);
    }
}

/// If `c` is parentless, is an ancestor-or-self of `x`, and is not an
/// ancestor-or-self of `p`, then the chains of `x` and `p` are disjoint, so
/// their lengths together fit in the arena.
pub proof fn lemma_chains_disjoint_bound<P>(es: Seq<Entity<P>>, x: int, p: int, c: int)
    requires
        wf_tree(es),
        0 <= x < es.len(),
        0 <= p < es.len(),
        0 <= c < es.len(),
        es[c].parent is None,
        in_subtree(es, x, c),
        !in_subtree(es, p, c),
    ensures
        es[x].depth + es[p].depth + 2 <= es.len(),
{
    lemma_chain_props(es, x);
    lemma_chain_props(es, p);
    lemma_chain_no_dup(es, x);
    lemma_chain_no_dup(es, p);
    lemma_chain_root(es, x, c);
    let cx = chain(es, x);
    let cp = chain(es, p);
    assert forall|a: int| !(cx.to_set().contains(a) && cp.to_set().contains(a)) by {
        if cx.contains(a) && cp.contains(a) {
            let ka = choose|k: int| 0 <= k < cx.len() && cx[k] == a;
            lemma_chain_take(es, x, ka);
            let kb = choose|k: int| 0 <= k < cp.len() && cp[k] == a;
            lemma_chain_take(es, p, kb);
            assert(chain(es, a) == cx.take(ka + 1));
            assert(chain(es, a)[0] == cx[0]);
            assert(chain(es, a) == cp.take(kb + 1));
            assert(chain(es, a)[0] == cp[0]);
            assert(cp[0] == c);
            assert(cp.contains(c));
            assert(false);
        }
    }
    assert(cx.to_set().disjoint(cp.to_set()));
    cx.unique_seq_to_set();
    cp.unique_seq_to_set();
    lemma_set_disjoint_lens(cx.to_set(), cp.to_set());
    let u = cx.to_set() + cp.to_set();
    assert(u.subset_of(set_int_range(0, es.len() as int))) by {
        assert forall|a: int| u.contains(a) implies set_int_range(0, es.len() as int).contains(
            a,
        ) by {
            if cx.contains(a) {
                let k = choose|k: int| 0 <= k < cx.len() && cx[k] == a;
                assert(0 <= chain(es, x)[k] < es.len());
            } else {
                let k = choose|k: int| 0 <= k < cp.len() && cp[k] == a;
                assert(0 <= chain(es, p)[k] < es.len());
            }
        }
    }
    lemma_int_range(0, es.len() as int);
    lemma_len_subset(u, set_int_range(0, es.len() as int));
}

} // verus!
