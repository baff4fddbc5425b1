//! The global laws of the consistency protocol, stated as proof functions
//! over any well-formed arena: every mutating operation of this library
//! returns a well-formed arena, so each law holds after any mutation.

use vstd::prelude::*;
use crate::ancestry::{chain, in_subtree, lemma_chain_props, lemma_subtree_same_scene, parent_ok};
use crate::id::Id;
use crate::world::{mgr_pairs, World};

verus! {

/// Law: the depth cache is the tree distance — after any mutation, a
/// parentless entity has depth 0 and every other entity's depth is its
/// parent's depth plus one, so the invariant holds recursively over every
/// reachable subtree.
pub proof fn lemma_depth_law<P>(w: World<P>, e: int)
    requires
        w.wf(),
        w.valid_entity(e),
    ensures
        w.es()[e].parent is None ==> w.es()[e].depth == 0,
        w.es()[e].parent matches Some(p) ==> w.valid_entity(p as int) && w.es()[e].depth == w.es()[
            p as int
        ].depth + 1,
{
    assert(parent_ok(w.es(), e));
}

/// Law: scene membership is inherited downward — an entity in the subtree
/// of `a` is a member of exactly the scenes `a` is a member of.
pub proof fn lemma_membership_inherited<P>(w: World<P>, e: int, a: int)
    requires
        w.wf(),
        w.valid_entity(e),
        in_subtree(w.es(), e, a),
    ensures
        w.es()[e].scene == w.es()[a].scene,
{
    lemma_subtree_same_scene(w, e, a);
}

/// Law: an entity is a member of scene `j` iff the parentless root of its
/// tree stands in `j`'s root list — the list to which `add_entity` adds and
/// from which `remove_entity` removes.
pub proof fn lemma_member_iff_root_listed<P>(w: World<P>, e: int, j: usize)
    requires
        w.wf(),
        w.valid_entity(e),
        (j as int) < w.scenes@.len(),
    ensures
        w.es()[e].scene == Some(j) <==> w.scenes@[j as int].roots@.contains(
            chain(w.es(), e)[0] as usize,
        ),
{
    vstd::std_specs::vec::axiom_spec_len(&w.entities);
    lemma_chain_props(w.es(), e);
    let r = chain(w.es(), e)[0];
    assert(chain(w.es(), e).contains(r)) by {
        assert(chain(w.es(), e)[0] == r);
    }
    assert(in_subtree(w.es(), e, r));
    lemma_subtree_same_scene(w, e, r);
    assert(w.scene_ok(j as int));
    assert(w.es()[r].parent is None);
    if w.es()[e].scene == Some(j) {
        assert(w.es()[r].scene == Some(j));
        assert(w.root_coverage_ok(j as int));
        assert(w.scenes@[j as int].roots@.contains(r as usize));
    }
    if w.scenes@[j as int].roots@.contains(r as usize) {
        assert(w.roots_ok(j as int));
        let k = choose|k: int|
            0 <= k < w.scenes@[j as int].roots@.len() && w.scenes@[j as int].roots@[k]
                == r as usize;
        assert(w.es()[w.scenes@[j as int].roots@[k] as int].scene == Some(j));
    }
}

/// Law: a manager for a type exists in a scene iff at least one component
/// of that manager type is attached to a member of the scene; when it
/// exists, its member list is exactly the set of those components.
pub proof fn lemma_manager_iff_registered<P>(w: World<P>, j: usize, mt: Id)
    requires
        w.wf(),
        (j as int) < w.scenes@.len(),
    ensures
        w.scenes@[j as int].spec_has_manager(mt) <==> mgr_pairs(w.es(), j, mt) != Set::<
            (usize, Id),
        >::empty(),
        w.scenes@[j as int].spec_has_manager(mt) ==> w.scenes@[j as int].managers@[w.scenes@[
            j as int
        ].manager_index(mt)].members@.to_set() == mgr_pairs(w.es(), j, mt),
{
    assert(w.scene_ok(j as int));
    if w.scenes@[j as int].spec_has_manager(mt) {
        let m = w.scenes@[j as int].manager_index(mt);
        assert(0 <= m < w.scenes@[j as int].managers@.len() && w.scenes@[j as int].managers@[m].type_id
            == mt);
        assert(w.manager_ok(j as int, m));
        let mgr = w.scenes@[j as int].managers@[m];
        assert(mgr.members@.len() > 0);
        assert(mgr.members@.contains(mgr.members@[0]));
        assert(mgr.members@.to_set().contains(mgr.members@[0]));
        assert(mgr_pairs(w.es(), j, mt).contains(mgr.members@[0]));
        assert(mgr_pairs(w.es(), j, mt) != Set::<(usize, Id)>::empty()) by {
            if mgr_pairs(w.es(), j, mt) == Set::<(usize, Id)>::empty() {
                assert(!Set::<(usize, Id)>::empty().contains(mgr.members@[0]));
            }
        }
    }
    if mgr_pairs(w.es(), j, mt) != Set::<(usize, Id)>::empty() {
        assert(exists|pr: (usize, Id)| mgr_pairs(w.es(), j, mt).contains(pr)) by {
            if forall|pr: (usize, Id)| !(#[trigger] mgr_pairs(w.es(), j, mt).contains(pr)) {
                assert(mgr_pairs(w.es(), j, mt) =~= Set::<(usize, Id)>::empty());
            }
        }
        let pr = choose|pr: (usize, Id)| mgr_pairs(w.es(), j, mt).contains(pr);
        let i = pr.0 as int;
        assert(w.es()[i].scene == Some(j));
        let k = choose|k: int|
            0 <= k < w.es()[i].components@.len() && w.es()[i].components@[k].type_id == pr.1
                && w.es()[i].components@[k].manager_type_id == mt;
        assert(w.manager_coverage_ok(j as int));
        assert(w.scenes@[j as int].spec_has_manager(
            w.es()[i].components@[k].manager_type_id,
        ));
    }
}

} // verus!
