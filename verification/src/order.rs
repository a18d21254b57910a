//! Proofs about ordered links: what a descent finds, and what rewriting the
//! slot it reaches does to the keys and to the ordering invariant.

use crate::node::{
    graft, graft_leftmost, inserted, key_set, keys, leaf, leftmost, ordered, removed, slot, spliced,
    UsizeLink,
};
use vstd::prelude::*;

verus! {

/// A sequence in which every element is smaller than all that follow it.
pub open spec fn strictly_increasing(s: Seq<usize>) -> bool {
    forall|i: int, j: int| 0 <= i < j < s.len() ==> s[i] < s[j]
}

/// The key set of a link is finite, and holds exactly the keys of its
/// traversal.
pub proof fn lemma_key_set_of_keys(link: UsizeLink)
    ensures
        key_set(link).finite(),
        keys(link).to_set() == key_set(link),
    decreases link,
{
    match link {
        None => {},
        Some(n) => {
            lemma_key_set_of_keys(n.left);
            lemma_key_set_of_keys(n.right);
            let l = keys(n.left);
            let r = keys(n.right);
            assert forall|k: usize| keys(link).contains(k) <==> key_set(link).contains(k) by {
                if key_set(link).contains(k) {
                    if k == n.elem {
                        assert(keys(link)[l.len() as int] == k);
                    } else if key_set(n.left).contains(k) {
                        let i = choose|i: int| 0 <= i < l.len() && l[i] == k;
                        assert(keys(link)[i] == k);
                    } else {
                        let i = choose|i: int| 0 <= i < r.len() && r[i] == k;
                        assert(keys(link)[l.len() + 1 + i] == k);
                    }
                }
            }
        },
    }
}

/// Under the ordering invariant the traversal is strictly increasing, so it
/// lists each key of the set once.
pub proof fn lemma_keys_increasing(link: UsizeLink)
    requires
        ordered(link),
    ensures
        strictly_increasing(keys(link)),
        keys(link).len() == key_set(link).len(),
    decreases link,
{
    lemma_key_set_of_keys(link);
    match link {
        None => {},
        Some(n) => {
            lemma_keys_increasing(n.left);
            lemma_keys_increasing(n.right);
            lemma_key_set_of_keys(n.left);
            lemma_key_set_of_keys(n.right);
            let l = keys(n.left);
            let r = keys(n.right);
            let all = keys(link);
            assert forall|i: int, j: int| 0 <= i < j < all.len() implies all[i] < all[j] by {
                if i < l.len() {
                    assert(key_set(n.left).contains(all[i]));
                }
                if j > l.len() {
                    assert(key_set(n.right).contains(all[j]));
                }
            }
        },
    }
    keys(link).unique_seq_to_set();
}

/// The converse: a tree whose traversal is strictly increasing satisfies the
/// ordering invariant at every node.
pub proof fn lemma_increasing_is_ordered(link: UsizeLink)
    requires
        strictly_increasing(keys(link)),
    ensures
        ordered(link),
    decreases link,
{
    match link {
        None => {},
        Some(n) => {
            let l = keys(n.left);
            let r = keys(n.right);
            let all = keys(link);
            assert forall|i: int, j: int| 0 <= i < j < l.len() implies l[i] < l[j] by {
                assert(all[i] == l[i] && all[j] == l[j]);
            }
            assert forall|i: int, j: int| 0 <= i < j < r.len() implies r[i] < r[j] by {
                assert(all[l.len() + 1 + i] == r[i] && all[l.len() + 1 + j] == r[j]);
            }
            lemma_increasing_is_ordered(n.left);
            lemma_increasing_is_ordered(n.right);
            lemma_key_set_of_keys(n.left);
            lemma_key_set_of_keys(n.right);
            assert(all[l.len() as int] == n.elem);
            assert forall|k: usize| key_set(n.left).contains(k) implies k < n.elem by {
                assert(l.contains(k));
                let i = choose|i: int| 0 <= i < l.len() && l[i] == k;
                assert(all[i] == k);
            }
            assert forall|k: usize| key_set(n.right).contains(k) implies k > n.elem by {
                assert(r.contains(k));
                let i = choose|i: int| 0 <= i < r.len() && r[i] == k;
                assert(all[l.len() + 1 + i] == k);
            }
        },
    }
}

/// The slot that a descent for `key` reaches in an ordered tree holds an
/// ordered subtree of it, and holds a node exactly when `key` is in the tree;
/// that node then carries `key`.
pub proof fn lemma_slot(link: UsizeLink, key: usize)
    requires
        ordered(link),
    ensures
        ordered(slot(link, key)),
        key_set(slot(link, key)).subset_of(key_set(link)),
        keys(slot(link, key)).len() <= keys(link).len(),
        slot(link, key) is Some <==> key_set(link).contains(key),
        slot(link, key) is Some ==> slot(link, key)->0.elem == key,
    decreases link,
{
    match link {
        None => {},
        Some(n) => {
            if key < n.elem {
                lemma_slot(n.left, key);
                assert(!key_set(n.right).contains(key));
            } else if key > n.elem {
                lemma_slot(n.right, key);
                assert(!key_set(n.left).contains(key));
            }
        },
    }
}

/// Writing back what the slot held leaves the tree as it was.
pub proof fn lemma_graft_same(link: UsizeLink, key: usize)
    ensures
        graft(link, key, slot(link, key)) == link,
    decreases link,
{
    match link {
        None => {},
        Some(n) => {
            if key < n.elem {
                lemma_graft_same(n.left, key);
            } else if key > n.elem {
                lemma_graft_same(n.right, key);
            }
        },
    }
}

/// Rewriting the slot that a descent for `key` reaches keeps the tree
/// ordered, provided the new content is ordered and brings no key but `key`
/// and those that the slot held before. The keys of the old content leave,
/// those of the new content come.
pub proof fn lemma_graft(link: UsizeLink, key: usize, sub: UsizeLink)
    requires
        ordered(link),
        ordered(sub),
        forall|k: usize|
            key_set(sub).contains(k) ==> k == key || key_set(slot(link, key)).contains(k),
    ensures
        ordered(graft(link, key, sub)),
        key_set(graft(link, key, sub)) == key_set(link).difference(
            key_set(slot(link, key)),
        ).union(key_set(sub)),
        keys(graft(link, key, sub)).len() == keys(link).len() - keys(slot(link, key)).len() + keys(
            sub,
        ).len(),
    decreases link,
{
    let out = graft(link, key, sub);
    let gone = key_set(slot(link, key));
    let expected = key_set(link).difference(gone).union(key_set(sub));
    match link {
        None => {},
        Some(n) => {
            if key < n.elem {
                lemma_graft(n.left, key, sub);
                lemma_slot(n.left, key);
                let below = graft(n.left, key, sub);
                assert(key_set(out) == key_set(below).union(key_set(n.right)).insert(n.elem));
                assert forall|k: usize| key_set(out).contains(k) <==> expected.contains(k) by {}
            } else if key > n.elem {
                lemma_graft(n.right, key, sub);
                lemma_slot(n.right, key);
                let below = graft(n.right, key, sub);
                assert(key_set(out) == key_set(n.left).union(key_set(below)).insert(n.elem));
                assert forall|k: usize| key_set(out).contains(k) <==> expected.contains(k) by {}
            }
        },
    }
}

/// The leftmost node of a non-empty ordered tree has no left child and
/// carries the smallest key. Letting its right child take its place removes
/// that key alone and keeps the tree ordered.
pub proof fn lemma_leftmost(link: UsizeLink)
    requires
        link is Some,
        ordered(link),
    ensures
        leftmost(link) is Some,
        leftmost(link)->0.left is None,
        key_set(link).contains(leftmost(link)->0.elem),
        forall|k: usize| key_set(link).contains(k) ==> leftmost(link)->0.elem <= k,
        ordered(graft_leftmost(link, leftmost(link)->0.right)),
        key_set(graft_leftmost(link, leftmost(link)->0.right)) == key_set(link).remove(
            leftmost(link)->0.elem,
        ),
        keys(graft_leftmost(link, leftmost(link)->0.right)).len() + 1 == keys(link).len(),
    decreases link,
{
    let n = link->0;
    let least = leftmost(link)->0;
    let rest = graft_leftmost(link, least.right);
    if n.left is None {
        assert(key_set(n.left) =~= Set::empty());
        assert(key_set(rest) =~= key_set(link).remove(least.elem));
    } else {
        lemma_leftmost(n.left);
        let below = graft_leftmost(n.left, least.right);
        assert(least == leftmost(n.left)->0);
        assert(!key_set(n.right).contains(least.elem));
        assert forall|k: usize| key_set(below).contains(k) implies k < n.elem by {}
    }
}

/// Taking the root node out of a non-empty ordered tree removes its key alone
/// and keeps the tree ordered.
pub proof fn lemma_spliced(link: UsizeLink)
    requires
        link is Some,
        ordered(link),
    ensures
        ordered(spliced(link)),
        key_set(spliced(link)) == key_set(link).remove(link->0.elem),
        keys(spliced(link)).len() + 1 == keys(link).len(),
{
    let n = link->0;
    if n.left is None {
        assert(key_set(n.left) =~= Set::empty());
        assert(keys(n.left) =~= Seq::empty());
    } else if n.right is None {
        assert(key_set(n.right) =~= Set::empty());
        assert(keys(n.right) =~= Seq::empty());
    } else {
        lemma_leftmost(n.right);
        let next = leftmost(n.right)->0;
        let rest = graft_leftmost(n.right, next.right);
        assert(key_set(spliced(link)) == key_set(n.left).union(key_set(rest)).insert(next.elem));
        assert forall|k: usize| key_set(n.left).contains(k) implies k < next.elem by {}
        assert forall|k: usize| key_set(rest).contains(k) implies k > next.elem by {}
    }
}

/// Inserting a key keeps the tree ordered and adds that key to its set; the
/// tree grows by one node exactly when the key was not there.
pub proof fn lemma_inserted(link: UsizeLink, key: usize)
    requires
        ordered(link),
    ensures
        ordered(inserted(link, key)),
        key_set(inserted(link, key)) == key_set(link).insert(key),
        keys(inserted(link, key)).len() == keys(link).len() + if key_set(link).contains(key) {
            0int
        } else {
            1int
        },
{
    lemma_slot(link, key);
    if slot(link, key) is None {
        lemma_graft(link, key, leaf(key));
    }
}

/// Removing a key keeps the tree ordered and takes that key out of its set;
/// the tree shrinks by one node exactly when the key was there.
pub proof fn lemma_removed(link: UsizeLink, key: usize)
    requires
        ordered(link),
    ensures
        ordered(removed(link, key)),
        key_set(removed(link, key)) == key_set(link).remove(key),
        keys(removed(link, key)).len() == keys(link).len() - if key_set(link).contains(key) {
            1int
        } else {
            0int
        },
{
    lemma_slot(link, key);
    if slot(link, key) is Some {
        lemma_spliced(slot(link, key));
        lemma_graft(link, key, spliced(slot(link, key)));
    }
}

} // verus!
