use algorithms::binary_search::binary_search;
use algorithms::binary_search::is_sorted;
use algorithms::queue::Queue;
use algorithms::stack::Stack;
use algorithms::union_find::UnionFind;

#[test]
fn search_array_with_one_element() {
    let array = vec![1];

    assert_eq!(binary_search(&array, &1), Some(0));
    assert_eq!(binary_search(&array, &5), None);
}

#[test]
fn search_array_with_multi_elements() {
    let array = vec![-12, -3, 1, 3, 8, 10, 21, 105];

    for (i, val) in array.iter().enumerate() {
        assert_eq!(binary_search(&array, val), Some(i));
    }

    assert_eq!(binary_search(&array, &-13), None);
    assert_eq!(binary_search(&array, &9), None);
    assert_eq!(binary_search(&array, &106), None);
}

#[test]
fn search_array_with_duplicate_elements() {
    let array = vec![-12, -3, -3, 1, 3, 3, 3, 8, 8, 10, 21, 21, 105];

    assert_eq!(binary_search(&array, &-12), Some(0));
    assert_eq!(binary_search(&array, &1), Some(3));
    assert_eq!(binary_search(&array, &10), Some(9));
    assert_eq!(binary_search(&array, &105), Some(12));

    assert!(matches!(binary_search(&array, &-3), Some(1..=2)));
    assert!(matches!(binary_search(&array, &3), Some(4..=6)));
    assert!(matches!(binary_search(&array, &8), Some(7..=8)));
    assert!(matches!(binary_search(&array, &21), Some(10..=11)));

    assert_eq!(binary_search(&array, &-13), None);
    assert_eq!(binary_search(&array, &9), None);
    assert_eq!(binary_search(&array, &106), None);
}

#[test]
fn search_empty_array() {
    let array: Vec<i64> = Vec::new();
    assert_eq!(binary_search(&array, &1), None);
}

#[test]
fn is_sorted_reports() {
    assert!(is_sorted(&[]));
    assert!(is_sorted(&[4]));
    assert!(is_sorted(&[-3, -3, 0, 7]));
    assert!(!is_sorted(&[2, 1]));
}

#[test]
fn test_queue() {
    let mut que = Queue::new();

    que.push(5);
    que.push(2);
    que.push(9);

    let que_peek_5 = que.peek();
    assert_eq!(que_peek_5, Some(&5));

    assert_eq!(que.pop(), Some(5));
    assert_eq!(que.pop(), Some(2));
    assert_eq!(que.pop(), Some(9));
    assert_eq!(que.pop(), None);
    assert_eq!(que.pop(), None);
}

#[test]
fn empty_queue() {
    let mut que: Queue<i64> = Queue::new();
    assert_eq!(que.peek(), None);
    assert_eq!(que.pop(), None);
}

#[test]
fn test_stack() {
    let mut stack = Stack::new();
    stack.push(5);
    stack.push(2);
    stack.push(9);

    assert_eq!(stack.peek(), Some(&9));

    assert_eq!(stack.pop(), Some(9));
    assert_eq!(stack.pop(), Some(2));
    assert_eq!(stack.pop(), Some(5));
    assert_eq!(stack.pop(), None);
    assert_eq!(stack.pop(), None);
}

#[test]
fn empty_stack() {
    let mut stack: Stack<i64> = Stack::new();
    assert_eq!(stack.peek(), None);
    assert_eq!(stack.pop(), None);
}

#[test]
fn unite_and_same() {
    let mut uf = UnionFind::new(5);

    assert!(!uf.same(0, 1));
    assert!(!uf.same(0, 2));
    assert!(!uf.same(3, 2));

    uf.unite(0, 1);
    uf.unite(3, 2);
    assert!(uf.same(0, 1));
    assert!(uf.same(3, 2));

    uf.unite(1, 2);
    assert!(uf.same(0, 3));
}

#[test]
fn union_find_reflexive() {
    let mut uf = UnionFind::new(3);
    assert!(uf.same(0, 0));
    assert!(uf.same(2, 2));
    uf.unite(0, 0);
    assert!(uf.same(0, 0));
    assert!(!uf.same(0, 1));
}
