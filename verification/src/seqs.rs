//! Small facts about sequences that the graph operations use: membership
//! after a push, and membership after removing one position from a
//! duplicate-free sequence.

use vstd::prelude::*;

verus! {

/// Membership in a pushed sequence.
pub proof fn lemma_push_contains<A>(s: Seq<A>, x: A, y: A)
    ensures
        s.push(x).contains(y) <==> (s.contains(y) || x == y),
{
    if s.contains(y) {
        let k = choose|k: int| 0 <= k < s.len() && s[k] == y;
        assert(s.push(x)[k] == y);
    }
    if x == y {
        assert(s.push(x)[s.len() as int] == y);
    }
    if s.push(x).contains(y) {
        let k = choose|k: int| 0 <= k < s.push(x).len() && s.push(x)[k] == y;
        if k < s.len() {
            assert(s[k] == y);
        }
    }
}

/// A pushed sequence is duplicate-free iff the base is and the new element
/// is new.
pub proof fn lemma_push_no_dup<A>(s: Seq<A>, x: A)
    requires
        s.no_duplicates(),
        !s.contains(x),
    ensures
        s.push(x).no_duplicates(),
{
    assert forall|k1: int, k2: int|
        0 <= k1 < s.push(x).len() && 0 <= k2 < s.push(x).len() && k1 != k2 implies s.push(x)[k1]
        != s.push(x)[k2] by {
        if k1 < s.len() && k2 < s.len() {
        } else if k1 < s.len() {
            assert(s.contains(s[k1]));
        } else if k2 < s.len() {
            assert(s.contains(s[k2]));
        }
    }
}

/// Membership in a duplicate-free sequence after removing the position that
/// holds `x`: exactly `x` disappears.
pub proof fn lemma_remove_contains<A>(s: Seq<A>, idx: int, y: A)
    requires
        s.no_duplicates(),
        0 <= idx < s.len(),
    ensures
        s.remove(idx).contains(y) <==> (s.contains(y) && y != s[idx]),
{
    s.remove_ensures(idx);
    if s.remove(idx).contains(y) {
        let k = choose|k: int| 0 <= k < s.remove(idx).len() && s.remove(idx)[k] == y;
        if k < idx {
            assert(s[k] == y);
        } else {
            assert(s[k + 1] == y);
        }
    }
    if s.contains(y) && y != s[idx] {
        let k = choose|k: int| 0 <= k < s.len() && s[k] == y;
        if k < idx {
            assert(s.remove(idx)[k] == y);
        } else {
            assert(s.remove(idx)[k - 1] == y);
        }
    }
}

/// Removing a position keeps a sequence duplicate-free.
pub proof fn lemma_remove_no_dup<A>(s: Seq<A>, idx: int)
    requires
        s.no_duplicates(),
        0 <= idx < s.len(),
    ensures
        s.remove(idx).no_duplicates(),
{
    s.remove_ensures(idx);
    assert forall|k1: int, k2: int|
        0 <= k1 < s.remove(idx).len() && 0 <= k2 < s.remove(idx).len() && k1 != k2 implies s.remove(
        idx,
    )[k1] != s.remove(idx)[k2] by {
        let j1: int = if k1 < idx { k1 } else { k1 + 1 };
        let j2: int = if k2 < idx { k2 } else { k2 + 1 };
        assert(s.remove(idx)[k1] == s[j1]);
        assert(s.remove(idx)[k2] == s[j2]);
    }
}

/// Pushing onto a sequence inserts into its set of elements.
pub proof fn lemma_push_to_set<A>(s: Seq<A>, x: A)
    ensures
        s.push(x).to_set() == s.to_set().insert(x),
{
    assert forall|y: A| s.push(x).to_set().contains(y) == s.to_set().insert(x).contains(y) by {
        lemma_push_contains(s, x, y);
    }
    assert(s.push(x).to_set() =~= s.to_set().insert(x));
}

/// Removing the position of a duplicate-free sequence that holds `x`
/// removes `x` from its set of elements.
pub proof fn lemma_remove_to_set<A>(s: Seq<A>, idx: int)
    requires
        s.no_duplicates(),
        0 <= idx < s.len(),
    ensures
        s.remove(idx).to_set() == s.to_set().remove(s[idx]),
{
    assert forall|y: A|
        s.remove(idx).to_set().contains(y) == s.to_set().remove(s[idx]).contains(y) by {
        lemma_remove_contains(s, idx, y);
    }
    assert(s.remove(idx).to_set() =~= s.to_set().remove(s[idx]));
}

/// In a duplicate-free sequence, removing the position that holds `x` is
/// `remove_value(x)`.
pub proof fn lemma_remove_is_remove_value<A>(s: Seq<A>, idx: int)
    requires
        s.no_duplicates(),
        0 <= idx < s.len(),
    ensures
        s.remove(idx) == s.remove_value(s[idx]),
{
    assert(s.contains(s[idx]));
    s.index_of_first_ensures(s[idx]);
    let i0 = s.index_of_first(s[idx]).unwrap();
    assert(s[i0] == s[idx]);
    assert(i0 == idx);
}

} // verus!
