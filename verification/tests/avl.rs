use algorithms::avl::AVL;
use std::cmp::Ordering;

const COMPLEX_TREE_SOURCE: [i64; 9] = [7, 5, 4, 2, 6, 11, 9, 10, 13];

// The binary-search-tree ordering and the balance of every node are proved
// inside the library: `well_formed` holds after every operation. The checks
// here exercise the observable behaviour.
fn test_find(nums: &[i64]) {
    let binary_tree = AVL::from_slice(nums);

    assert_eq!(binary_tree.find(&3), None);

    nums.iter().for_each(|n| {
        assert_eq!(binary_tree.find(n), Some(n));
    });
}

fn test_remove(nums: &[i64]) {
    for removed_num in nums {
        let mut binary_tree = AVL::from_slice(nums);

        nums.iter()
            .for_each(|n| assert_eq!(binary_tree.find(n), Some(n)));

        assert_eq!(binary_tree.remove(removed_num), Some(*removed_num));

        nums.iter().for_each(|n| match n.cmp(removed_num) {
            Ordering::Equal => assert_eq!(binary_tree.find(removed_num), None),
            _ => assert_eq!(binary_tree.find(n), Some(n)),
        });
    }
}

#[test]
fn find_empty_tree() {
    let binary_tree = AVL::new();
    assert_eq!(binary_tree.find(&3), None);
}

#[test]
fn find_root_only_tree() {
    let nums = [7];
    test_find(&nums[..]);
}

#[test]
fn find_root_and_lhs_only_tree() {
    let nums = [7, 2];
    test_find(&nums[..]);
}

#[test]
fn find_root_and_rhs_only_tree() {
    let nums = [7, 11];
    test_find(&nums[..]);
}

#[test]
fn find_complex_tree() {
    test_find(&COMPLEX_TREE_SOURCE[..]);
}

#[test]
fn remove_empty_tree() {
    let mut binary_tree = AVL::new();
    assert_eq!(binary_tree.remove(&7), None);
    assert_eq!(binary_tree.find(&7), None);
}

#[test]
fn remove_root_only_tree() {
    let nums = [7];
    test_remove(&nums[..]);
}

#[test]
fn remove_root_and_lhs_only_tree() {
    let nums = [7, 2];
    test_remove(&nums[..]);
}

#[test]
fn remove_root_and_rhs_only_tree() {
    let nums = [7, 11];
    test_remove(&nums[..]);
}

#[test]
fn remove_complex_tree() {
    let nums = COMPLEX_TREE_SOURCE;
    test_remove(&nums[..]);
}

#[test]
fn scenario_insert_sequence_every_key_findable() {
    let tree = AVL::from_slice(&COMPLEX_TREE_SOURCE[..]);
    for n in COMPLEX_TREE_SOURCE.iter() {
        assert_eq!(tree.find(n), Some(n));
    }
    assert_eq!(tree.find(&3), None);
}

#[test]
fn scenario_remove_root_keeps_others() {
    let mut tree = AVL::from_slice(&COMPLEX_TREE_SOURCE[..]);
    assert_eq!(tree.remove(&7), Some(7));
    assert_eq!(tree.find(&7), None);
    for n in COMPLEX_TREE_SOURCE.iter().filter(|n| **n != 7) {
        assert_eq!(tree.find(n), Some(n));
    }
}

#[test]
fn scenario_single_insert_then_remove_leaves_empty() {
    let mut tree = AVL::new();
    tree.add(1);
    assert_eq!(tree.remove(&1), Some(1));
    assert_eq!(tree.find(&1), None);
    assert_eq!(tree.remove(&1), None);
}

#[test]
fn scenario_remove_leaf_of_two() {
    let mut tree = AVL::new();
    tree.add(7);
    tree.add(11);
    assert_eq!(tree.remove(&11), Some(11));
    assert_eq!(tree.find(&7), Some(&7));
    assert_eq!(tree.find(&11), None);
}

#[test]
fn scenario_empty_tree_is_calm() {
    let mut tree = AVL::new();
    assert_eq!(tree.find(&42), None);
    assert_eq!(tree.find(&-42), None);
    assert_eq!(tree.remove(&42), None);
}

#[test]
fn adding_twice_changes_nothing() {
    let mut tree = AVL::new();
    tree.add(5);
    tree.add(5);
    assert_eq!(tree.find(&5), Some(&5));
    assert_eq!(tree.remove(&5), Some(5));
    assert_eq!(tree.find(&5), None);
    assert_eq!(tree.remove(&5), None);
}

#[test]
fn removing_missing_key_changes_nothing() {
    let mut tree = AVL::from_slice(&[10, 20, 30]);
    assert_eq!(tree.remove(&25), None);
    for n in [10, 20, 30].iter() {
        assert_eq!(tree.find(n), Some(n));
    }
}

#[test]
fn extreme_keys() {
    let mut tree = AVL::from_slice(&[i64::MIN, 0, i64::MAX]);
    assert_eq!(tree.find(&i64::MIN), Some(&i64::MIN));
    assert_eq!(tree.find(&i64::MAX), Some(&i64::MAX));
    assert_eq!(tree.remove(&i64::MIN), Some(i64::MIN));
    assert_eq!(tree.find(&i64::MIN), None);
    assert_eq!(tree.find(&0), Some(&0));
}

#[test]
fn many_inserts_and_removes() {
    let nums: Vec<i64> = (0..100).map(|i| (i * 37) % 101).collect();
    let mut tree = AVL::from_slice(&nums);
    for n in nums.iter() {
        assert_eq!(tree.find(n), Some(n));
    }
    for n in nums.iter().step_by(2) {
        assert_eq!(tree.remove(n), Some(*n));
    }
    for (i, n) in nums.iter().enumerate() {
        if i % 2 == 0 {
            assert_eq!(tree.find(n), None);
        } else {
            assert_eq!(tree.find(n), Some(n));
        }
    }
}
