use binary_search_tree::tree::UsizeTree;

fn build(keys: &[usize]) -> UsizeTree {
    let mut tree = UsizeTree::new();
    for key in keys {
        tree.insert(*key);
    }
    tree
}

fn strictly_increasing(listed: &[usize]) -> bool {
    listed.windows(2).all(|pair| pair[0] < pair[1])
}

#[test]
fn new_tree_lists_nothing() {
    let tree = UsizeTree::new();
    assert_eq!(tree.to_vec(), Vec::<usize>::new());
    assert_eq!(tree.contains(&0), false);
}

#[test]
fn insert_into_empty_tree_creates_root() {
    let mut tree = UsizeTree::new();
    assert_eq!(tree.insert(9), true);
    assert_eq!(tree.len(), 1);
    assert_eq!(tree.is_empty(), false);
    assert_eq!(tree.contains(&9), true);
    assert_eq!(tree.to_vec(), vec![9]);
}

#[test]
fn seven_keys_scenario() {
    let tree = build(&[4, 2, 6, 1, 3, 5, 7]);
    assert_eq!(tree.len(), 7);
    assert_eq!(tree.to_vec(), vec![1, 2, 3, 4, 5, 6, 7]);
    assert_eq!(tree.contains(&4), true);
    assert_eq!(tree.contains(&17), false);
}

#[test]
fn remove_leaf_scenario() {
    let mut tree = build(&[4, 2, 6, 1, 3, 5, 7]);
    assert_eq!(tree.remove(5), true);
    assert_eq!(tree.len(), 6);
    assert_eq!(tree.contains(&5), false);
    assert_eq!(tree.to_vec(), vec![1, 2, 3, 4, 6, 7]);
}

#[test]
fn remove_node_with_two_children_scenario() {
    let mut tree = build(&[4, 2, 6, 1, 3, 5, 7]);
    assert_eq!(tree.remove(5), true);
    assert_eq!(tree.remove(2), true);
    assert_eq!(tree.len(), 5);
    assert_eq!(tree.contains(&2), false);
    assert_eq!(tree.contains(&3), true);
    assert_eq!(tree.to_vec(), vec![1, 3, 4, 6, 7]);
}

#[test]
fn remove_everything_scenario() {
    let mut tree = build(&[4, 2, 6, 1, 3, 5, 7]);
    assert_eq!(tree.remove(5), true);
    assert_eq!(tree.remove(2), true);
    let mut expected_len = 5;
    for key in [1, 3, 4, 6, 7] {
        assert_eq!(tree.remove(key), true);
        expected_len -= 1;
        assert_eq!(tree.len(), expected_len);
        assert_eq!(tree.contains(&key), false);
    }
    assert_eq!(tree.len(), 0);
    assert_eq!(tree.is_empty(), true);
    assert_eq!(tree.to_vec(), Vec::<usize>::new());
    assert_eq!(tree.remove(4), false);
    assert_eq!(tree.len(), 0);
}

#[test]
fn remove_sole_node_empties_tree() {
    let mut tree = build(&[12]);
    assert_eq!(tree.remove(12), true);
    assert_eq!(tree.len(), 0);
    assert_eq!(tree.is_empty(), true);
    assert_eq!(tree.contains(&12), false);
    assert_eq!(tree.insert(12), true);
    assert_eq!(tree.to_vec(), vec![12]);
}

#[test]
fn remove_root_with_two_children() {
    let mut tree = build(&[4, 2, 6, 1, 3, 5, 7]);
    assert_eq!(tree.remove(4), true);
    assert_eq!(tree.len(), 6);
    assert_eq!(tree.to_vec(), vec![1, 2, 3, 5, 6, 7]);
    assert_eq!(tree.contains(&4), false);
    assert_eq!(tree.contains(&5), true);
}

#[test]
fn remove_node_whose_successor_has_right_child() {
    // 10's successor is 12, the leftmost node under 20; 12 has the right
    // child 15 and no left child.
    let mut tree = build(&[10, 5, 20, 12, 30, 15, 13]);
    assert_eq!(tree.remove(10), true);
    assert_eq!(tree.len(), 6);
    assert_eq!(tree.to_vec(), vec![5, 12, 13, 15, 20, 30]);
    for key in [5, 12, 13, 15, 20, 30] {
        assert_eq!(tree.contains(&key), true);
    }
    assert_eq!(tree.contains(&10), false);
    // The subtree that hung under the successor is still reachable by the
    // ordinary descent, so it can be taken apart key by key.
    assert_eq!(tree.remove(15), true);
    assert_eq!(tree.remove(13), true);
    assert_eq!(tree.to_vec(), vec![5, 12, 20, 30]);
}

#[test]
fn remove_node_with_only_left_child() {
    let mut tree = build(&[8, 4, 2, 1, 3]);
    assert_eq!(tree.remove(4), true);
    assert_eq!(tree.to_vec(), vec![1, 2, 3, 8]);
    assert_eq!(tree.len(), 4);
}

#[test]
fn remove_node_with_only_right_child() {
    let mut tree = build(&[8, 10, 12, 11, 13]);
    assert_eq!(tree.remove(10), true);
    assert_eq!(tree.to_vec(), vec![8, 11, 12, 13]);
    assert_eq!(tree.len(), 4);
}

#[test]
fn duplicate_insert_changes_nothing() {
    let mut tree = build(&[4, 2, 6]);
    let before = tree.to_vec();
    assert_eq!(tree.insert(2), false);
    assert_eq!(tree.insert(4), false);
    assert_eq!(tree.insert(6), false);
    assert_eq!(tree.len(), 3);
    assert_eq!(tree.to_vec(), before);
}

#[test]
fn removing_absent_key_changes_nothing() {
    let mut tree = build(&[4, 2, 6, 1]);
    let before = tree.to_vec();
    assert_eq!(tree.remove(3), false);
    assert_eq!(tree.remove(0), false);
    assert_eq!(tree.remove(usize::MAX), false);
    assert_eq!(tree.len(), 4);
    assert_eq!(tree.to_vec(), before);
}

#[test]
fn successful_remove_shrinks_by_one() {
    let mut tree = build(&[50, 20, 70, 10, 30, 60, 80, 25, 35]);
    for key in [20, 50, 80, 10, 35] {
        let before = tree.len();
        assert_eq!(tree.remove(key), true);
        assert_eq!(tree.len(), before - 1);
        assert_eq!(tree.contains(&key), false);
    }
    assert_eq!(tree.to_vec(), vec![25, 30, 60, 70]);
}

#[test]
fn membership_follows_history() {
    let mut tree = UsizeTree::new();
    let inserts = [3, 1, 3, 9, 1, 7, 9, 9];
    for key in inserts {
        tree.insert(key);
    }
    for key in 0..12 {
        assert_eq!(tree.contains(&key), inserts.contains(&key));
    }
    assert_eq!(tree.remove(9), true);
    assert_eq!(tree.contains(&9), false);
    assert_eq!(tree.insert(9), true);
    assert_eq!(tree.contains(&9), true);
    assert_eq!(tree.remove(3), true);
    assert_eq!(tree.remove(3), false);
    assert_eq!(tree.contains(&3), false);
    assert_eq!(tree.to_vec(), vec![1, 7, 9]);
}

#[test]
fn traversal_is_strictly_increasing_after_every_operation() {
    let mut tree = UsizeTree::new();
    let mut key: usize = 7;
    for step in 0..400 {
        key = (key * 31 + 11) % 101;
        if step % 3 == 2 {
            tree.remove(key);
        } else {
            tree.insert(key);
        }
        let listed = tree.to_vec();
        assert!(strictly_increasing(&listed));
        assert_eq!(listed.len(), tree.len());
    }
}

#[test]
fn clear_empties_any_shape() {
    let shapes: [&[usize]; 5] =
        [&[], &[1], &[1, 2, 3, 4, 5], &[5, 4, 3, 2, 1], &[4, 2, 6, 1, 3, 5, 7]];
    for keys in shapes {
        let mut tree = build(keys);
        tree.clear();
        assert_eq!(tree.len(), 0);
        assert_eq!(tree.is_empty(), true);
        assert_eq!(tree.to_vec(), Vec::<usize>::new());
        for key in keys {
            assert_eq!(tree.contains(key), false);
        }
        assert_eq!(tree.insert(3), true);
        assert_eq!(tree.to_vec(), vec![3]);
    }
}

#[test]
fn extreme_keys() {
    let mut tree = build(&[usize::MAX, 0, 1, usize::MAX - 1]);
    assert_eq!(tree.to_vec(), vec![0, 1, usize::MAX - 1, usize::MAX]);
    assert_eq!(tree.remove(usize::MAX), true);
    assert_eq!(tree.remove(0), true);
    assert_eq!(tree.to_vec(), vec![1, usize::MAX - 1]);
}

#[test]
fn degenerate_chains_are_torn_down() {
    let count: usize = 10000;
    let mut rising = UsizeTree::new();
    let mut falling = UsizeTree::new();
    for key in 0..count {
        assert_eq!(rising.insert(key), true);
        assert_eq!(falling.insert(count - key), true);
    }
    assert_eq!(rising.len(), count);
    assert_eq!(falling.len(), count);
    assert_eq!(rising.to_vec().len(), count);
    falling.clear();
    assert_eq!(falling.is_empty(), true);
    drop(rising);
    drop(falling);
}
