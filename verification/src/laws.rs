//! What holds of every tree and of every history of insertions and removals.

use crate::node::{inserted, key_set, keys, ordered, removed, UsizeLink};
use crate::order::{
    lemma_increasing_is_ordered, lemma_inserted, lemma_key_set_of_keys, lemma_keys_increasing,
    lemma_removed, lemma_slot, strictly_increasing,
};
use crate::tree::UsizeTree;
use vstd::prelude::*;

verus! {

/// One step of a history: a key is inserted or removed.
pub enum Edit {
    Insert(usize),
    Remove(usize),
}

/// The tree that an empty tree becomes when the edits are applied in order.
pub open spec fn replay(edits: Seq<Edit>) -> UsizeLink
    decreases edits.len(),
{
    if edits.len() == 0 {
        None
    } else {
        let before = replay(edits.drop_last());
        match edits.last() {
            Edit::Insert(key) => inserted(before, key),
            Edit::Remove(key) => removed(before, key),
        }
    }
}

/// `key` is inserted somewhere in the history and not removed after that.
pub open spec fn held_after(edits: Seq<Edit>, key: usize) -> bool {
    exists|i: int|
        0 <= i < edits.len() && #[trigger] edits[i] == Edit::Insert(key) && forall|j: int|
            i < j < edits.len() ==> #[trigger] edits[j] != Edit::Remove(key)
}

/// Inserting a key that the tree holds changes nothing: no node is created
/// and no key overwritten, so size and traversal stay as they were.
pub proof fn law_insert_present_changes_nothing(link: UsizeLink, key: usize)
    requires
        ordered(link),
        key_set(link).contains(key),
    ensures
        inserted(link, key) == link,
        keys(inserted(link, key)) == keys(link),
        key_set(inserted(link, key)) == key_set(link),
{
    lemma_slot(link, key);
}

/// Inserting a key that the tree does not hold adds that key alone, and one
/// node.
pub proof fn law_insert_absent_adds_one(link: UsizeLink, key: usize)
    requires
        ordered(link),
        !key_set(link).contains(key),
    ensures
        ordered(inserted(link, key)),
        key_set(inserted(link, key)) == key_set(link).insert(key),
        keys(inserted(link, key)).len() == keys(link).len() + 1,
{
    lemma_inserted(link, key);
}

/// Removing a key that the tree holds takes that key alone, and one node:
/// afterwards the key is not in the tree.
pub proof fn law_remove_present_takes_one(link: UsizeLink, key: usize)
    requires
        ordered(link),
        key_set(link).contains(key),
    ensures
        ordered(removed(link, key)),
        !key_set(removed(link, key)).contains(key),
        key_set(removed(link, key)) == key_set(link).remove(key),
        keys(removed(link, key)).len() == keys(link).len() - 1,
{
    lemma_removed(link, key);
}

/// Removing a key that the tree does not hold changes nothing.
pub proof fn law_remove_absent_changes_nothing(link: UsizeLink, key: usize)
    requires
        ordered(link),
        !key_set(link).contains(key),
    ensures
        removed(link, key) == link,
        keys(removed(link, key)) == keys(link),
        key_set(removed(link, key)) == key_set(link),
{
    lemma_slot(link, key);
}

/// A traversal that is strictly increasing before an insertion is strictly
/// increasing after it, whether or not the key was there.
pub proof fn law_insert_keeps_traversal_increasing(link: UsizeLink, key: usize)
    requires
        strictly_increasing(keys(link)),
    ensures
        strictly_increasing(keys(inserted(link, key))),
{
    lemma_increasing_is_ordered(link);
    lemma_inserted(link, key);
    lemma_keys_increasing(inserted(link, key));
}

/// A traversal that is strictly increasing before a removal is strictly
/// increasing after it, whether or not the key was there.
pub proof fn law_remove_keeps_traversal_increasing(link: UsizeLink, key: usize)
    requires
        strictly_increasing(keys(link)),
    ensures
        strictly_increasing(keys(removed(link, key))),
{
    lemma_increasing_is_ordered(link);
    lemma_removed(link, key);
    lemma_keys_increasing(removed(link, key));
}

/// After any history of insertions and removals, starting from the empty
/// tree, the ordering invariant holds, the traversal is strictly increasing,
/// and a key is in the tree exactly when the history inserts it and does not
/// remove it afterwards.
pub proof fn law_membership_follows_history(edits: Seq<Edit>, key: usize)
    ensures
        ordered(replay(edits)),
        strictly_increasing(keys(replay(edits))),
        key_set(replay(edits)).contains(key) <==> held_after(edits, key),
    decreases edits.len(),
{
    if edits.len() > 0 {
        let earlier = edits.drop_last();
        let before = replay(earlier);
        let at = edits.len() - 1;
        law_membership_follows_history(earlier, key);
        match edits.last() {
            Edit::Insert(k) => {
                lemma_inserted(before, k);
            },
            Edit::Remove(k) => {
                lemma_removed(before, k);
            },
        }
        if held_after(earlier, key) && edits.last() != Edit::Remove(key) {
            let i = choose|i: int|
                0 <= i < earlier.len() && #[trigger] earlier[i] == Edit::Insert(key) && forall|
                    j: int,
                | i < j < earlier.len() ==> #[trigger] earlier[j] != Edit::Remove(key);
            assert(edits[i] == Edit::Insert(key));
            assert forall|j: int| i < j < edits.len() implies #[trigger] edits[j] != Edit::Remove(
                key,
            ) by {
                if j < at {
                    assert(earlier[j] != Edit::Remove(key));
                }
            }
        }
        if edits.last() == Edit::Insert(key) {
            assert(edits[at] == Edit::Insert(key));
        }
        if held_after(edits, key) {
            let i = choose|i: int|
                0 <= i < edits.len() && #[trigger] edits[i] == Edit::Insert(key) && forall|j: int|
                    i < j < edits.len() ==> #[trigger] edits[j] != Edit::Remove(key);
            if i < at {
                assert(edits[at] != Edit::Remove(key));
                assert(earlier[i] == Edit::Insert(key));
                assert forall|j: int| i < j < earlier.len() implies #[trigger] earlier[j]
                    != Edit::Remove(key) by {
                    assert(edits[j] != Edit::Remove(key));
                }
                assert(held_after(earlier, key));
            }
        }
    }
    lemma_keys_increasing(replay(edits));
}

/// Two strictly increasing sequences with the same elements are the same
/// sequence.
pub proof fn lemma_increasing_unique(a: Seq<usize>, b: Seq<usize>)
    requires
        strictly_increasing(a),
        strictly_increasing(b),
        forall|k: usize| a.contains(k) <==> b.contains(k),
    ensures
        a == b,
    decreases a.len(),
{
    if a.len() == 0 {
        if b.len() > 0 {
            assert(b.contains(b[0]));
        }
        assert(a =~= b);
    } else {
        assert(a.contains(a.last()));
        assert(b.contains(a.last()));
        assert(b.contains(b.last()));
        assert(a.contains(b.last()));
        let i = choose|i: int| 0 <= i < b.len() && b[i] == a.last();
        let j = choose|j: int| 0 <= j < a.len() && a[j] == b.last();
        assert(a.last() == b.last());
        let a0 = a.drop_last();
        let b0 = b.drop_last();
        assert forall|k: usize| a0.contains(k) <==> b0.contains(k) by {
            if a0.contains(k) {
                let p = choose|p: int| 0 <= p < a0.len() && a0[p] == k;
                assert(a[p] == k);
                assert(a.contains(k));
                let q = choose|q: int| 0 <= q < b.len() && b[q] == k;
                assert(q < b.len() - 1);
                assert(b0[q] == k);
            }
            if b0.contains(k) {
                let q = choose|q: int| 0 <= q < b0.len() && b0[q] == k;
                assert(b[q] == k);
                assert(b.contains(k));
                let p = choose|p: int| 0 <= p < a.len() && a[p] == k;
                assert(p < a.len() - 1);
                assert(a0[p] == k);
            }
        }
        lemma_increasing_unique(a0, b0);
        assert(a =~= a0.push(a.last()));
        assert(b =~= b0.push(b.last()));
    }
}

/// The traversal of a tree is strictly increasing and lists exactly the keys
/// of the set, each once.
pub proof fn law_in_order_strictly_increasing(tree: UsizeTree)
    requires
        tree.well_formed(),
    ensures
        strictly_increasing(tree.in_order()),
        tree.in_order().to_set() == tree@,
        tree.in_order().len() == tree@.len(),
        tree@.finite(),
{
    tree.lemma_ordered();
    lemma_keys_increasing(tree.shape());
    lemma_key_set_of_keys(tree.shape());
}

/// The traversal depends on the keys alone, not on the shape that the order
/// of insertions gave the tree.
pub proof fn law_in_order_determined_by_keys(a: UsizeTree, b: UsizeTree)
    requires
        a.well_formed(),
        b.well_formed(),
        a@ == b@,
    ensures
        a.in_order() == b.in_order(),
{
    law_in_order_strictly_increasing(a);
    law_in_order_strictly_increasing(b);
    assert forall|k: usize| a.in_order().contains(k) <==> b.in_order().contains(k) by {
        assert(a.in_order().to_set().contains(k) <==> a.in_order().contains(k));
        assert(b.in_order().to_set().contains(k) <==> b.in_order().contains(k));
    }
    lemma_increasing_unique(a.in_order(), b.in_order());
}

} // verus!
