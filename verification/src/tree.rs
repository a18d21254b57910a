//! The ordered set: a root slot and a count of live nodes.

use crate::node::{
    find_link, find_link_mut, inserted, key_set, keys, ordered, removed, unlink, UsizeLink,
    UsizeNode,
};
use crate::order::{
    lemma_graft_same, lemma_inserted, lemma_keys_increasing, lemma_removed, lemma_slot,
    strictly_increasing,
};
use vstd::prelude::*;

verus! {

/// The root slot together with the count of the nodes below it. The two are
/// kept in one field so that an operation can take both out, rewrite slots
/// and adjust the count, and put both back at once.
struct Planting {
    root: UsizeLink,
    len: usize,
}

/// An ordered set of unique `usize` keys, kept in an unbalanced binary search
/// tree. Its view is the set of keys it holds.
pub struct UsizeTree {
    planting: Planting,
}

impl View for UsizeTree {
    type V = Set<usize>;

    open spec fn view(&self) -> Set<usize> {
        key_set(self.shape())
    }
}

/// What is still to be listed once the nodes on `stack` are returned to, the
/// last one first: each node's own key and then its right subtree.
spec fn pending(stack: Seq<&UsizeNode>) -> Seq<usize>
    decreases stack.len(),
{
    if stack.len() == 0 {
        Seq::empty()
    } else {
        seq![stack.last().elem] + keys(stack.last().right) + pending(stack.drop_last())
    }
}

/// Every node on the stack still has at least its own key to list.
proof fn lemma_pending_len(stack: Seq<&UsizeNode>)
    ensures
        stack.len() <= pending(stack).len(),
    decreases stack.len(),
{
    if stack.len() > 0 {
        lemma_pending_len(stack.drop_last());
    }
}

impl UsizeTree {
    /// The content of the root slot: the whole tree as a value.
    pub closed spec fn shape(&self) -> UsizeLink {
        self.planting.root
    }

    /// The keys in traversal order.
    pub open spec fn in_order(&self) -> Seq<usize> {
        keys(self.shape())
    }

    /// The invariant of every tree: the ordering invariant holds at each node
    /// and the count equals the number of nodes reachable from the root.
    #[verifier::type_invariant]
    pub closed spec fn well_formed(&self) -> bool {
        &&& ordered(self.planting.root)
        &&& self.planting.len == keys(self.planting.root).len()
    }

    /// What the invariant says of the tree as a value: the ordering invariant
    /// holds at each of its nodes.
    pub proof fn lemma_ordered(self)
        requires
            self.well_formed(),
        ensures
            ordered(self.shape()),
    {
    }

    /// An empty tree.
    pub fn new() -> (tree: Self)
        ensures
            tree.well_formed(),
            tree.shape() is None,
            tree@ == Set::<usize>::empty(),
            tree.in_order() == Seq::<usize>::empty(),
    {
        UsizeTree { planting: Planting { root: None, len: 0 } }
    }

    /// The number of keys in the tree.
    pub fn len(&self) -> (count: usize)
        ensures
            count == self@.len(),
            count == self.in_order().len(),
    {
        proof {
            use_type_invariant(self);
            lemma_keys_increasing(self.planting.root);
        }
        self.planting.len
    }

    /// Whether the tree holds no key.
    pub fn is_empty(&self) -> (empty: bool)
        ensures
            empty == (self@.len() == 0),
            empty == (self@ == Set::<usize>::empty()),
            empty == (self.shape() is None),
    {
        proof {
            use_type_invariant(self);
            lemma_keys_increasing(self.planting.root);
        }
        self.planting.len == 0
    }

    /// Whether `elem` is one of the keys.
    pub fn contains(&self, elem: &usize) -> (found: bool)
        ensures
            found == self@.contains(*elem),
    {
        proof {
            use_type_invariant(self);
            lemma_slot(self.planting.root, *elem);
        }
        find_link(&self.planting.root, *elem).is_some()
    }

    /// Adds `elem` as a new leaf in the empty slot that the descent for it
    /// ends in. Returns false, and leaves the tree as it is, when `elem` is
    /// already a key. A new key needs room in the count; a key that is
    /// already there needs none.
    pub fn insert(&mut self, elem: usize) -> (added: bool)
        requires
            old(self)@.contains(elem) || old(self)@.len() < usize::MAX,
        ensures
            final(self).well_formed(),
            added == !old(self)@.contains(elem),
            final(self).shape() == inserted(old(self).shape(), elem),
            !added ==> final(self).shape() == old(self).shape(),
            !added ==> final(self).in_order() == old(self).in_order(),
            final(self)@ == old(self)@.insert(elem),
            final(self)@.contains(elem),
            final(self)@.len() == old(self)@.len() + if added { 1int } else { 0int },
            strictly_increasing(final(self).in_order()),
    {
        proof {
            use_type_invariant(&*self);
            lemma_slot(self.planting.root, elem);
            lemma_graft_same(self.planting.root, elem);
            lemma_inserted(self.planting.root, elem);
            lemma_keys_increasing(self.planting.root);
            lemma_keys_increasing(inserted(self.planting.root, elem));
        }
        let mut planting = Planting { root: None, len: 0 };
        core::mem::swap(&mut self.planting, &mut planting);
        let insert_link = find_link_mut(&mut planting.root, elem);
        let added = insert_link.is_none();
        if added {
            *insert_link = Some(Box::new(UsizeNode { elem, left: None, right: None }));
            planting.len += 1;
        }
        core::mem::swap(&mut self.planting, &mut planting);
        added
    }

    /// Removes `elem` by rewriting the one slot that owns its node, or, where
    /// that node has two children, by giving it the key of its in-order
    /// successor and rewriting the slot that owns the successor. Returns
    /// false, and leaves the tree as it is, when `elem` is not a key.
    pub fn remove(&mut self, elem: usize) -> (taken: bool)
        ensures
            final(self).well_formed(),
            taken == old(self)@.contains(elem),
            final(self).shape() == removed(old(self).shape(), elem),
            !taken ==> final(self).shape() == old(self).shape(),
            !taken ==> final(self).in_order() == old(self).in_order(),
            final(self)@ == old(self)@.remove(elem),
            !final(self)@.contains(elem),
            final(self)@.len() == old(self)@.len() - if taken { 1int } else { 0int },
            strictly_increasing(final(self).in_order()),
        opens_invariants none
        no_unwind
    {
        proof {
            use_type_invariant(&*self);
            lemma_slot(self.planting.root, elem);
            lemma_graft_same(self.planting.root, elem);
            lemma_removed(self.planting.root, elem);
            lemma_keys_increasing(self.planting.root);
            lemma_keys_increasing(removed(self.planting.root, elem));
        }
        let mut planting = Planting { root: None, len: 0 };
        core::mem::swap(&mut self.planting, &mut planting);
        let remove_link = find_link_mut(&mut planting.root, elem);
        let taken = match remove_link {
            None => false,
            Some(_) => true,
        };
        if taken {
            unlink(remove_link);
            planting.len -= 1;
        }
        core::mem::swap(&mut self.planting, &mut planting);
        taken
    }

    /// Removes the key held at the root until the root slot is empty.
    pub fn clear(&mut self)
        ensures
            final(self).well_formed(),
            final(self).shape() is None,
            final(self)@ == Set::<usize>::empty(),
            final(self).in_order() == Seq::<usize>::empty(),
        opens_invariants none
        no_unwind
    {
        loop
            ensures
                self.well_formed(),
                self.shape() is None,
            decreases self@.len(),
        {
            let root_elem = match &self.planting.root {
                None => {
                    proof {
                        use_type_invariant(&*self);
                    }
                    break ;
                },
                Some(root_node) => root_node.elem,
            };
            self.remove(root_elem);
        }
    }

    /// The keys in increasing order, listed by a traversal that keeps the
    /// nodes it has to return to on a stack of its own.
    pub fn to_vec(&self) -> (listed: Vec<usize>)
        ensures
            listed@ == self.in_order(),
    {
        let mut listed: Vec<usize> = Vec::new();
        let mut stack: Vec<&UsizeNode> = Vec::new();
        let mut cur: &UsizeLink = &self.planting.root;
        loop
            invariant
                listed@ + keys(*cur) + pending(stack@) == keys(self.planting.root),
            ensures
                listed@ == keys(self.planting.root),
            decreases 2 * keys(*cur).len() + 2 * pending(stack@).len() - stack@.len(),
        {
            proof {
                lemma_pending_len(stack@);
            }
            match cur {
                Some(node) => {
                    proof {
                        let grown = stack@.push(&**node);
                        assert(grown.drop_last() == stack@);
                        lemma_pending_len(grown);
                        assert(listed@ + keys(node.left) + pending(grown) == listed@ + keys(*cur)
                            + pending(stack@));
                    }
                    stack.push(node);
                    cur = &node.left;
                },
                None => {
                    let ghost waiting = stack@;
                    match stack.pop() {
                        None => {
                            break ;
                        },
                        Some(node) => {
                            proof {
                                lemma_pending_len(stack@);
                                assert(listed@.push(node.elem) + keys(node.right) + pending(stack@)
                                    == listed@ + keys(*cur) + pending(waiting));
                            }
                            listed.push(node.elem);
                            cur = &node.right;
                        },
                    }
                },
            }
        }
        listed
    }
}

impl Drop for UsizeTree {
    /// Clears the tree, so that its nodes are freed one at a time, each with
    /// no child attached, and the depth of the tree costs no stack. What is
    /// left for the fields' own disposal is an empty root slot.
    fn drop(&mut self)
        ensures
            final(self).well_formed(),
            final(self).shape() is None,
            final(self)@ == Set::<usize>::empty(),
            final(self).in_order() == Seq::<usize>::empty(),
        opens_invariants none
        no_unwind
    {
        self.clear();
    }
}

} // verus!
