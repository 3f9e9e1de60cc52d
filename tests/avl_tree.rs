use avl::render::row_spacing;
use avl::AvlTree;

const VALUES: [i32; 13] = [21, 34, 14, 11, 15, 16, 22, 23, 35, 24, 25, 1000, 1001];

fn build(values: &[i32]) -> AvlTree<i32> {
    let mut tree = AvlTree::new();
    for v in values {
        tree.insert(*v);
    }
    tree
}

/// Heights of the subtrees rooted at each position of each level, computed
/// from the level layout; panics if some node is out of balance.
fn assert_balanced(tree: &AvlTree<i32>) {
    let h = tree.height();
    let levels: Vec<Vec<Option<&i32>>> = (0..h).map(|d| tree.level_slots(d)).collect();
    let mut below: Vec<usize> = vec![0; 1usize << h];
    for d in (0..h).rev() {
        let mut here = vec![0usize; levels[d].len()];
        for (p, slot) in levels[d].iter().enumerate() {
            if slot.is_some() {
                let (l, r) = (below[2 * p], below[2 * p + 1]);
                assert!(l.abs_diff(r) <= 1, "unbalanced at level {} position {}", d, p);
                here[p] = 1 + l.max(r);
            }
        }
        below = here;
    }
    assert_eq!(below[0], h);
}

#[test]
fn round_trip_yields_ascending_values() {
    let tree = build(&VALUES);
    assert_eq!(
        tree.into_ordered_sequence(),
        vec![11, 14, 15, 16, 21, 22, 23, 24, 25, 34, 35, 1000, 1001]
    );
}

#[test]
fn ascending_inserts_rotate_once() {
    let tree = build(&[1, 2, 3]);
    assert_eq!(tree.level_slots(0), vec![Some(&2)]);
    assert_eq!(tree.level_slots(1), vec![Some(&1), Some(&3)]);
    assert_eq!(tree.height(), 2);
}

#[test]
fn descending_inserts_rotate_once() {
    let tree = build(&[3, 2, 1]);
    assert_eq!(tree.level_slots(0), vec![Some(&2)]);
    assert_eq!(tree.level_slots(1), vec![Some(&1), Some(&3)]);
}

#[test]
fn zigzag_inserts_rotate_twice() {
    let tree = build(&[3, 1, 2]);
    assert_eq!(tree.level_slots(0), vec![Some(&2)]);
    assert_eq!(tree.level_slots(1), vec![Some(&1), Some(&3)]);
    let tree = build(&[1, 3, 2]);
    assert_eq!(tree.level_slots(0), vec![Some(&2)]);
    assert_eq!(tree.level_slots(1), vec![Some(&1), Some(&3)]);
}

#[test]
fn removals_keep_balance_and_members() {
    let mut tree = build(&VALUES);
    assert_balanced(&tree);
    let removed = [23, 35, 34, 1000];
    for (k, v) in removed.iter().enumerate() {
        assert!(tree.remove(v));
        assert_balanced(&tree);
        for gone in &removed[..=k] {
            assert!(!tree.contains(gone));
        }
        for kept in VALUES.iter().filter(|x| !removed[..=k].contains(x)) {
            assert!(tree.contains(kept));
        }
    }
    assert_eq!(
        tree.into_ordered_sequence(),
        vec![11, 14, 15, 16, 21, 22, 24, 25, 1001]
    );
}

#[test]
fn every_insert_and_remove_keeps_balance() {
    let mut tree = AvlTree::new();
    let mut model = std::collections::BTreeSet::new();
    for v in 0..200 {
        let x = (v * 37) % 211;
        tree.insert(x);
        model.insert(x);
        assert_balanced(&tree);
    }
    for v in 0..200 {
        let x = (v * 53) % 211;
        assert_eq!(tree.remove(&x), model.remove(&x));
        assert_balanced(&tree);
    }
    assert_eq!(tree.into_ordered_sequence(), model.into_iter().collect::<Vec<_>>());
}

#[test]
fn inserted_values_are_members() {
    let tree = build(&VALUES);
    for v in VALUES.iter() {
        assert!(tree.contains(v));
    }
    assert!(!tree.contains(&0));
    assert!(!tree.contains(&20));
    assert!(!tree.contains(&2000));
}

#[test]
fn inserting_twice_changes_nothing() {
    let once = build(&[5, 3, 8]);
    let twice = build(&[5, 3, 8, 3, 5, 8]);
    assert_eq!(twice.level_slots(1), once.level_slots(1));
    assert_eq!(twice.into_ordered_sequence(), once.into_ordered_sequence());
}

#[test]
fn removing_absent_value_returns_false() {
    let mut tree = build(&VALUES);
    assert!(!tree.remove(&17));
    assert!(!tree.remove(&0));
    assert!(!tree.remove(&5000));
    assert_eq!(
        tree.into_ordered_sequence(),
        vec![11, 14, 15, 16, 21, 22, 23, 24, 25, 34, 35, 1000, 1001]
    );
    let mut empty: AvlTree<i32> = AvlTree::new();
    assert!(!empty.remove(&1));
}

#[test]
fn removing_a_value_twice() {
    let mut tree = build(&[2, 1, 3]);
    assert!(tree.remove(&2));
    assert!(!tree.remove(&2));
    assert_eq!(tree.into_ordered_sequence(), vec![1, 3]);
}

#[test]
fn removing_a_node_whose_successor_has_a_right_child() {
    // 20 has two children; its successor 25 has a right child 27.
    let mut tree = build(&[20, 10, 30, 5, 25, 40, 27]);
    assert!(tree.remove(&20));
    assert_balanced(&tree);
    assert_eq!(tree.into_ordered_sequence(), vec![5, 10, 25, 27, 30, 40]);
}

#[test]
fn removing_down_to_empty() {
    let mut tree = build(&VALUES);
    for v in VALUES.iter() {
        assert!(tree.remove(v));
        assert_balanced(&tree);
    }
    assert_eq!(tree.height(), 0);
    assert_eq!(tree.min(), None);
    assert_eq!(tree.into_ordered_sequence(), Vec::<i32>::new());
}

#[test]
fn min_and_max() {
    let tree = build(&VALUES);
    assert_eq!(tree.min(), Some(&11));
    assert_eq!(tree.max(), Some(&1001));
    let empty: AvlTree<i32> = AvlTree::new();
    assert_eq!(empty.min(), None);
    assert_eq!(empty.max(), None);
    let single = build(&[-4]);
    assert_eq!(single.min(), Some(&-4));
    assert_eq!(single.max(), Some(&-4));
}

#[test]
fn empty_tree() {
    let tree: AvlTree<u64> = AvlTree::new();
    assert!(!tree.contains(&0));
    assert_eq!(tree.height(), 0);
    assert_eq!(tree.level_slots(0), vec![None]);
    assert_eq!(tree.level_slots(2), vec![None, None, None, None]);
    assert_eq!(tree.into_ordered_sequence(), Vec::<u64>::new());
}

#[test]
fn level_layout_marks_missing_nodes() {
    let tree = build(&[2, 1, 3, 4]);
    assert_eq!(tree.height(), 3);
    assert_eq!(tree.level_slots(2), vec![None, None, None, Some(&4)]);
}

#[test]
fn deletion_rebalances_with_single_rotation() {
    // Removing 1 leaves 2 right-heavy with a balanced right child: the
    // deletion rule takes a single left rotation.
    let mut tree = build(&[2, 1, 4, 3, 5]);
    assert!(tree.remove(&1));
    assert_eq!(tree.level_slots(0), vec![Some(&4)]);
    assert_eq!(tree.level_slots(1), vec![Some(&2), Some(&5)]);
    assert_eq!(tree.level_slots(2), vec![None, Some(&3), None, None]);
}

#[test]
fn deletion_rebalances_with_double_rotation() {
    let mut tree = build(&[2, 1, 4, 3]);
    assert!(tree.remove(&1));
    assert_eq!(tree.level_slots(0), vec![Some(&3)]);
    assert_eq!(tree.level_slots(1), vec![Some(&2), Some(&4)]);
}

#[test]
fn strings_are_ordered_too() {
    let mut tree = AvlTree::new();
    for w in ["pear", "apple", "fig", "kiwi", "apple"] {
        tree.insert(w);
    }
    assert_eq!(tree.into_ordered_sequence(), vec!["apple", "fig", "kiwi", "pear"]);
}

#[test]
fn row_spacing_doubles_per_level() {
    assert_eq!(row_spacing(4, 0, 2), Some((14, 30)));
    assert_eq!(row_spacing(4, 1, 2), Some((6, 14)));
    assert_eq!(row_spacing(4, 3, 2), Some((0, 2)));
    assert_eq!(row_spacing(1, 0, 3), Some((0, 3)));
    assert_eq!(row_spacing(5, 2, 0), Some((0, 0)));
}

#[test]
fn row_spacing_reports_overflow() {
    assert_eq!(row_spacing(64, 0, 1), Some((usize::MAX / 2, usize::MAX)));
    assert_eq!(row_spacing(64, 0, 2), None);
    assert_eq!(row_spacing(70, 0, 1), None);
    assert_eq!(row_spacing(200, 0, 0), Some((0, 0)));
}
