//! Nodes and links of the search tree: the mathematical reading of a link and
//! the slot-level operations that the tree is built from.

use vstd::prelude::*;

verus! {

/// One key and two child slots. A node has no reference to its parent.
#[derive(Debug, PartialEq, Eq)]
pub struct UsizeNode {
    pub elem: usize,
    pub left: UsizeLink,
    pub right: UsizeLink,
}

/// A slot: either empty or the exclusive owner of one node.
pub type UsizeLink = Option<Box<UsizeNode>>;

/// The slot content that holds `key` alone.
pub open spec fn leaf(key: usize) -> UsizeLink {
    Some(Box::new(UsizeNode { elem: key, left: None, right: None }))
}

/// The keys below `link` in traversal order: left subtree, node, right subtree.
pub open spec fn keys(link: UsizeLink) -> Seq<usize>
    decreases link,
{
    match link {
        None => Seq::empty(),
        Some(n) => keys(n.left).push(n.elem) + keys(n.right),
    }
}

/// The keys below `link` as a set.
pub open spec fn key_set(link: UsizeLink) -> Set<usize>
    decreases link,
{
    match link {
        None => Set::empty(),
        Some(n) => key_set(n.left).union(key_set(n.right)).insert(n.elem),
    }
}

/// The ordering invariant: at every node, each key of the left subtree is
/// smaller than the node's key and each key of the right subtree is larger.
pub open spec fn ordered(link: UsizeLink) -> bool
    decreases link,
{
    match link {
        None => true,
        Some(n) => {
            &&& ordered(n.left)
            &&& ordered(n.right)
            &&& forall|k: usize| key_set(n.left).contains(k) ==> k < n.elem
            &&& forall|k: usize| key_set(n.right).contains(k) ==> k > n.elem
        },
    }
}

/// What the slot reached by descending for `key` holds: the subtree rooted at
/// the first node whose key equals `key`, or nothing when the descent runs
/// into an empty slot.
pub open spec fn slot(link: UsizeLink, key: usize) -> UsizeLink
    decreases link,
{
    match link {
        None => None,
        Some(n) => if key == n.elem {
            link
        } else if key < n.elem {
            slot(n.left, key)
        } else {
            slot(n.right, key)
        },
    }
}

/// The tree below `link` after the slot reached by descending for `key` has
/// been rewritten to hold `sub`; every node on the way down stays as it is.
pub open spec fn graft(link: UsizeLink, key: usize, sub: UsizeLink) -> UsizeLink
    decreases link,
{
    match link {
        None => sub,
        Some(n) => if key == n.elem {
            sub
        } else if key < n.elem {
            Some(Box::new(UsizeNode { elem: n.elem, left: graft(n.left, key, sub), right: n.right }))
        } else {
            Some(Box::new(UsizeNode { elem: n.elem, left: n.left, right: graft(n.right, key, sub) }))
        },
    }
}

/// What the slot reached by following left slots holds: the subtree rooted at
/// the first node without a left child.
pub open spec fn leftmost(link: UsizeLink) -> UsizeLink
    decreases link,
{
    match link {
        None => None,
        Some(n) => if n.left is None {
            link
        } else {
            leftmost(n.left)
        },
    }
}

/// The tree below `link` after the slot reached by following left slots has
/// been rewritten to hold `sub`.
pub open spec fn graft_leftmost(link: UsizeLink, sub: UsizeLink) -> UsizeLink
    decreases link,
{
    match link {
        None => sub,
        Some(n) => if n.left is None {
            sub
        } else {
            Some(Box::new(UsizeNode { elem: n.elem, left: graft_leftmost(n.left, sub), right: n.right }))
        },
    }
}

/// The content of a slot after the node it holds has been taken out of the
/// tree. A node without a left child gives way to its right child, a node
/// with only a left child to that child. A node with two children stays and
/// takes over the key of its in-order successor, the leftmost node of its
/// right subtree, which gives way to its own right child.
pub open spec fn spliced(link: UsizeLink) -> UsizeLink {
    match link {
        None => None,
        Some(n) => if n.left is None {
            n.right
        } else if n.right is None {
            n.left
        } else {
            Some(Box::new(UsizeNode {
                elem: leftmost(n.right)->0.elem,
                left: n.left,
                right: graft_leftmost(n.right, leftmost(n.right)->0.right),
            }))
        },
    }
}

/// The tree below `link` after `key` has been inserted: unchanged when the
/// descent finds `key`, else with a new leaf in the empty slot it ends in.
pub open spec fn inserted(link: UsizeLink, key: usize) -> UsizeLink {
    if slot(link, key) is Some {
        link
    } else {
        graft(link, key, leaf(key))
    }
}

/// The tree below `link` after `key` has been removed: unchanged when the
/// descent ends in an empty slot, else with the matched node spliced out.
pub open spec fn removed(link: UsizeLink, key: usize) -> UsizeLink {
    if slot(link, key) is None {
        link
    } else {
        graft(link, key, spliced(slot(link, key)))
    }
}

/// Descends from `link` comparing `key` with each node's key and returns the
/// slot at which the descent stops.
pub fn find_link(link: &UsizeLink, key: usize) -> (found: &UsizeLink)
    ensures
        *found == slot(*link, key),
{
    let mut cur = link;
    loop
        invariant
            slot(*cur, key) == slot(*link, key),
        decreases *cur,
    {
        match cur {
            None => {
                return cur;
            },
            Some(node) => {
                if key == node.elem {
                    return cur;
                }
                cur = if key < node.elem {
                    &node.left
                } else {
                    &node.right
                };
            },
        }
    }
}

/// The same descent as `find_link`, handing out the slot itself: whatever the
/// caller writes into it takes the place of the slot's content in the tree.
pub fn find_link_mut(link: &mut UsizeLink, key: usize) -> (found: &mut UsizeLink)
    ensures
        *found == slot(*old(link), key),
        *final(link) == graft(*old(link), key, *final(found)),
    opens_invariants none
    no_unwind
{
    let mut cur = link;
    loop
        invariant
            slot(*cur, key) == slot(*old(link), key),
            forall|sub: UsizeLink|
                graft(*cur, key, sub) == *final(cur) ==> #[trigger] graft(*old(link), key, sub)
                    == *final(link),
        decreases *cur,
    {
        let go_left = match &*cur {
            None => {
                return cur;
            },
            Some(node) => {
                if key == node.elem {
                    return cur;
                }
                key < node.elem
            },
        };
        match cur {
            None => {
                return cur;
            },
            Some(node) => {
                cur = if go_left {
                    &mut node.left
                } else {
                    &mut node.right
                };
            },
        }
    }
}

/// Follows left slots from `link` and hands out the slot at which no further
/// left slot can be followed: the one that holds the first node without a
/// left child, or `link` itself when it is empty.
pub fn leftmost_link_mut(link: &mut UsizeLink) -> (found: &mut UsizeLink)
    ensures
        *found == leftmost(*old(link)),
        *old(link) is Some ==> *found is Some && found->0.left is None,
        *final(link) == graft_leftmost(*old(link), *final(found)),
    opens_invariants none
    no_unwind
{
    let mut cur = link;
    loop
        invariant
            *old(link) is Some ==> *cur is Some,
            leftmost(*cur) == leftmost(*old(link)),
            forall|sub: UsizeLink|
                graft_leftmost(*cur, sub) == *final(cur) ==> #[trigger] graft_leftmost(
                    *old(link),
                    sub,
                ) == *final(link),
        decreases *cur,
    {
        let has_left = match &*cur {
            None => false,
            Some(node) => match &node.left {
                None => false,
                Some(_) => true,
            },
        };
        if !has_left {
            return cur;
        }
        match cur {
            None => {
                return cur;
            },
            Some(node) => {
                cur = &mut node.left;
            },
        }
    }
}

/// Takes the node that `link` holds out of the tree by rewriting slots only:
/// the slot itself, or, where the node has two children, the slot of its
/// in-order successor. An empty slot stays empty.
pub fn unlink(link: &mut UsizeLink)
    ensures
        *final(link) == spliced(*old(link)),
    opens_invariants none
    no_unwind
{
    match link {
        None => {},
        Some(node) => {
            let mut child: UsizeLink = None;
            match (&node.left, &node.right) {
                (None, _) => {
                    core::mem::swap(&mut child, &mut node.right);
                    *link = child;
                },
                (_, None) => {
                    core::mem::swap(&mut child, &mut node.left);
                    *link = child;
                },
                _ => {
                    let successor_link = leftmost_link_mut(&mut node.right);
                    core::mem::swap(&mut child, successor_link);
                    match child {
                        None => {},
                        Some(mut successor) => {
                            node.elem = successor.elem;
                            core::mem::swap(successor_link, &mut successor.right);
                        },
                    }
                },
            }
        },
    }
}

} // verus!
