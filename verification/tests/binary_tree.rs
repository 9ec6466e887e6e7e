use algorithms::binary_tree::BinaryTree;
use std::cmp::Ordering;

//        7
//      /    \
//     5      11
//    / \    /  \
//   4   6  9    13
//  /        \
// 2          10
const COMPLEX_TREE_SOURCE: [i64; 9] = [7, 5, 4, 2, 6, 11, 9, 10, 13];

// The binary-search-tree ordering is proved inside the library:
// `well_formed` holds after every operation.
fn test_find(nums: &[i64]) {
    let binary_tree = BinaryTree::make_tree(nums);

    assert_eq!(binary_tree.find(&3), None);

    for n in nums {
        assert_eq!(binary_tree.find(n), Some(n));
    }
}

fn test_remove(nums: &[i64]) {
    for removed_num in nums {
        let mut binary_tree = BinaryTree::make_tree(nums);

        for n in nums {
            assert_eq!(binary_tree.find(n), Some(n));
        }

        assert_eq!(binary_tree.remove(removed_num), Some(*removed_num));

        for n in nums {
            match n.cmp(removed_num) {
                Ordering::Equal => assert_eq!(binary_tree.find(removed_num), None),
                _ => assert_eq!(binary_tree.find(n), Some(n)),
            }
        }
    }
}

#[test]
fn binary_tree_test_find_empty_tree() {
    let binary_tree = BinaryTree::new();
    assert_eq!(binary_tree.find(&3), None);
}

#[test]
fn binary_tree_test_find_root_only_tree() {
    let nums = [7];
    test_find(&nums[..]);
}

#[test]
fn binary_tree_test_find_root_and_lhs_only_tree() {
    let nums = [7, 2];
    test_find(&nums[..]);
}

#[test]
fn binary_tree_test_find_root_and_rhs_only_tree() {
    let nums = [7, 11];
    test_find(&nums[..]);
}

#[test]
fn binary_tree_test_find_complex_tree() {
    test_find(&COMPLEX_TREE_SOURCE[..]);
}

#[test]
fn binary_tree_test_remove_empty_tree() {
    let mut binary_tree = BinaryTree::new();
    assert_eq!(binary_tree.remove(&7), None);
    assert_eq!(binary_tree.find(&7), None);
}

#[test]
fn binary_tree_test_remove_root_only_tree() {
    let nums = [7];
    test_remove(&nums[..]);
}

#[test]
fn binary_tree_test_remove_root_and_lhs_only_tree() {
    let nums = [7, 2];
    test_remove(&nums[..]);
}

#[test]
fn binary_tree_test_remove_root_and_rhs_only_tree() {
    let nums = [7, 11];
    test_remove(&nums[..]);
}

#[test]
fn binary_tree_test_remove_complex_tree() {
    let nums = COMPLEX_TREE_SOURCE;
    test_remove(&nums[..]);
}
