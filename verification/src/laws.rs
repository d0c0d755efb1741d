//! Properties of the lookup stated over the map view: what a leaf's map
//! holds is exactly its entries whatever their storage order, and a key
//! below every entry key of a branch is decided by the first entry's left
//! subtree alone.

use vstd::prelude::*;

use crate::btree::Branch;
use crate::btree::Leaf;
use crate::btree::LeafElt;
use crate::btree::branch_entries_map;
use crate::btree::leaf_entries_map;
use crate::btree::lemma_branch_entries_map_key_range;
use crate::btree::lemma_branch_entries_wf_suffix;

verus! {

/// With pairwise distinct keys from position `i` on, the map of those
/// entries holds exactly their keys, each bound to its own entry's value.
pub(crate) proof fn lemma_leaf_entries_map_entries(elts: Seq<LeafElt>, i: int)
    requires
        0 <= i <= elts.len(),
        forall|a: int, b: int| i <= a < b < elts.len() ==> elts[a].key != elts[b].key,
    ensures
        forall|q: i64| #[trigger]
            leaf_entries_map(elts, i).contains_key(q) ==> exists|j: int|
                i <= j < elts.len() && elts[j].key == q,
        forall|j: int|
            i <= j < elts.len() ==> leaf_entries_map(elts, i).contains_key(
                (#[trigger] elts[j]).key,
            ) && leaf_entries_map(elts, i)[elts[j].key] == elts[j].value,
    decreases elts.len() - i,
{
    if i < elts.len() {
        lemma_leaf_entries_map_entries(elts, i + 1);
        assert forall|q: i64| #[trigger]
            leaf_entries_map(elts, i).contains_key(q) implies exists|j: int|
            i <= j < elts.len() && elts[j].key == q by {
            if q == elts[i].key {
                assert(i <= i < elts.len() && elts[i].key == q);
            } else {
                assert(leaf_entries_map(elts, i + 1).contains_key(q));
                let j = choose|j: int| i + 1 <= j < elts.len() && elts[j].key == q;
                assert(i <= j < elts.len() && elts[j].key == q);
            }
        }
        assert forall|j: int| i <= j < elts.len() implies leaf_entries_map(elts, i).contains_key(
            (#[trigger] elts[j]).key,
        ) && leaf_entries_map(elts, i)[elts[j].key] == elts[j].value by {
            if j > i {
                assert(elts[i].key != elts[j].key);
            }
        }
    }
}

/// For leaves whose entries are sorted ascending by key, the lookup is
/// independent of the order in which the entries sit in storage: two
/// well-formed leaves holding the same set of entries agree, key for key,
/// on whether the key is held and on the value bound to it. An
/// implementation is therefore free to rearrange a leaf's entries, or to
/// search them in any order, without changing what `get` observes.
pub proof fn lemma_leaf_lookup_order_independent(l1: Leaf, l2: Leaf, k: i64)
    requires
        l1.wf(),
        l2.wf(),
        l1.elts@.to_set() == l2.elts@.to_set(),
    ensures
        l1.as_map().contains_key(k) <==> l2.as_map().contains_key(k),
        l1.as_map().contains_key(k) ==> l1.as_map()[k] == l2.as_map()[k],
{
    lemma_leaf_entries_map_entries(l1.elts@, 0);
    lemma_leaf_entries_map_entries(l2.elts@, 0);
    lemma_leaf_lookup_carries_over(l1, l2, k);
    lemma_leaf_lookup_carries_over(l2, l1, k);
}

/// One direction of the order-independence argument: a key held by the
/// first leaf's map is held by the second leaf's map with the same value,
/// when the second holds every entry of the first.
proof fn lemma_leaf_lookup_carries_over(l1: Leaf, l2: Leaf, k: i64)
    requires
        l1.wf(),
        l2.wf(),
        forall|e: LeafElt| l1.elts@.to_set().contains(e) ==> l2.elts@.to_set().contains(e),
    ensures
        l1.as_map().contains_key(k) ==> l2.as_map().contains_key(k) && l2.as_map()[k]
            == l1.as_map()[k],
{
    lemma_leaf_entries_map_entries(l1.elts@, 0);
    lemma_leaf_entries_map_entries(l2.elts@, 0);
    if l1.as_map().contains_key(k) {
        let j1 = choose|j: int| 0 <= j < l1.elts@.len() && l1.elts@[j].key == k;
        let e = l1.elts@[j1];
        assert(l1.elts@.contains(e));
        assert(l1.elts@.to_set().contains(e));
        assert(l2.elts@.to_set().contains(e));
        assert(l2.elts@.contains(e));
        let j2 = choose|j: int| 0 <= j < l2.elts@.len() && l2.elts@[j] == e;
        assert(l2.as_map().contains_key(l2.elts@[j2].key));
        assert(l2.as_map()[l2.elts@[j2].key] == l2.elts@[j2].value);
        assert(l1.as_map()[k] == e.value);
    }
}

/// For a well-formed branch, a queried key lying below the first entry's
/// key — and so below every entry key, as the keys ascend — is decided
/// entirely by the first entry's left subtree: the branch holds the key
/// exactly when that subtree does, with the same value, and the rightmost
/// child never holds such a key.
pub proof fn lemma_branch_small_key_descends_first(b: Branch, k: i64)
    requires
        b.wf(),
        k < b.elts@[0].key,
    ensures
        b.as_map().contains_key(k) <==> b.elts@[0].left.as_map().contains_key(k),
        b.elts@[0].left.as_map().contains_key(k) ==> b.as_map()[k] == b.elts@[0].left.as_map()[k],
        !b.rightmost_child.as_map().contains_key(k),
{
    lemma_branch_entries_wf_suffix(b.elts@, 0, 1);
    lemma_branch_entries_map_key_range(b.elts@, 1);
    assert(!branch_entries_map(b.elts@, 1).contains_key(k));
    assert(b.elts@[0].key <= b.elts@[b.elts@.len() - 1].key);
    assert(!b.rightmost_child.as_map().contains_key(k));
    assert(branch_entries_map(b.elts@, 0).contains_key(k) <==> b.elts@[0].left.as_map().contains_key(
        k,
    ));
}

} // verus!
