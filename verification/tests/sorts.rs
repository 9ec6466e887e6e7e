use algorithms::heap_sort::Heap;
use algorithms::merge_sort;
use algorithms::quick_sort;

// Walks the heap through its public accessors: every element within the heap
// window is at least as large as its children. (This is also proved in the
// library; the walk exercises the accessors.)
fn is_valid_heap_at(heap: &Heap, index: usize) -> bool {
    let node = match heap.get(index) {
        Some(v) => *v,
        None => return true,
    };

    let li = 2 * index + 1;
    let ri = 2 * index + 2;

    if let Some(l) = heap.get(li) {
        if node < *l {
            return false;
        }
        if !is_valid_heap_at(heap, li) {
            return false;
        }
    }

    if let Some(r) = heap.get(ri) {
        if node < *r {
            return false;
        }
        if !is_valid_heap_at(heap, ri) {
            return false;
        }
    }

    true
}

#[test]
fn make_valid_heap() {
    let data = vec![1, 3, 2, 4, 1, 3];
    let heap = Heap::new(data);

    assert!(is_valid_heap_at(&heap, 0));
}

#[test]
fn swap_test() {
    let data = vec![1, 3, 2, 4, 1, 3];
    let mut heap = Heap::new(data);
    let _ = heap.get_tail_index();

    heap.swap_root_and_tail();
    let _ = heap.get_tail_index();
    heap.fix_root(0);

    assert!(is_valid_heap_at(&heap, 0));
}

#[test]
fn heap_sort_one_number() {
    let data = vec![3];
    let heap = Heap::new(data);

    assert_eq!(heap.sort(), vec![3]);
}

#[test]
fn heap_sort_two_numbers() {
    let data = vec![3, 2];
    let heap = Heap::new(data);

    assert_eq!(heap.sort(), vec![2, 3]);
}

#[test]
fn heap_sort_numbers() {
    let data = vec![2, 9, 4, 10, 3];
    let heap = Heap::new(data);

    assert_eq!(heap.sort(), vec![2, 3, 4, 9, 10]);
}

#[test]
fn heap_sort_continuous_numbers() {
    let data = vec![1, 4, 9, 7, 2, 3, 5, 10, 6, 8];
    let heap = Heap::new(data);

    assert_eq!(heap.sort(), vec![1, 2, 3, 4, 5, 6, 7, 8, 9, 10]);
}

#[test]
fn heap_sort_same_numbers() {
    let data = vec![1, 3, 2, 4, 1, 3];
    let heap = Heap::new(data);

    assert_eq!(heap.sort(), vec![1, 1, 2, 3, 3, 4]);
}

#[test]
fn heap_sort_empty() {
    let heap = Heap::new(Vec::new());
    assert_eq!(heap.sort(), Vec::<i64>::new());
}

#[test]
fn merge_sort_one_number() {
    let data = vec![3];

    assert_eq!(merge_sort::sort(data), vec![3]);
}

#[test]
fn merge_sort_two_numbers() {
    let data = vec![3, 2];

    assert_eq!(merge_sort::sort(data), vec![2, 3]);
}

#[test]
fn merge_sort_numbers() {
    let data = vec![2, 9, 4, 10, 3];

    assert_eq!(merge_sort::sort(data), vec![2, 3, 4, 9, 10]);
}

#[test]
fn merge_sort_continuous_numbers() {
    let data = vec![1, 4, 9, 7, 2, 3, 5, 10, 6, 8];

    assert_eq!(merge_sort::sort(data), vec![1, 2, 3, 4, 5, 6, 7, 8, 9, 10]);
}

#[test]
fn merge_sort_same_numbers() {
    let data = vec![1, 3, 2, 4, 1, 3];

    assert_eq!(merge_sort::sort(data), vec![1, 1, 2, 3, 3, 4]);
}

#[test]
fn merge_sort_same_numbers2() {
    let data = vec![1, 3, 1, 4, 4, 1, 3, 2, 4, 1, 3, 1, 2, 3, 1, 3];

    assert_eq!(
        merge_sort::sort(data),
        vec![1, 1, 1, 1, 1, 1, 2, 2, 3, 3, 3, 3, 3, 4, 4, 4]
    );
}

#[test]
fn merge_sort_empty() {
    assert_eq!(merge_sort::sort(Vec::new()), Vec::<i64>::new());
}

#[test]
fn merge_sort_is_sorted_reports() {
    assert!(merge_sort::is_sorted(&[]));
    assert!(merge_sort::is_sorted(&[1, 1, 2, 9]));
    assert!(!merge_sort::is_sorted(&[1, 3, 2]));
}

#[test]
fn partition_numbers() {
    let data = vec![2, 9, 4, 10, 3];

    assert_eq!(quick_sort::partition(data, 1), (vec![2, 3, 4], vec![10, 9]));
}

#[test]
fn partition_continuaous_numbers() {
    let data = vec![5, 9, 7, 2, 3, 4, 1, 10, 6, 8];

    assert_eq!(
        quick_sort::partition(data, 1),
        (vec![5, 8, 7, 2, 3, 4, 1, 6], vec![10, 9])
    );
}

#[test]
fn quick_sort_one_number() {
    let data = vec![3];

    assert_eq!(quick_sort::sort(data), vec![3]);
}

#[test]
fn quick_sort_two_numbers() {
    let data = vec![3, 2];

    assert_eq!(quick_sort::sort(data), vec![2, 3]);
}

#[test]
fn quick_sort_numbers() {
    let data = vec![2, 9, 4, 10, 3];

    assert_eq!(quick_sort::sort(data), vec![2, 3, 4, 9, 10]);
}

#[test]
fn quick_sort_continuous_numbers() {
    let data = vec![1, 4, 9, 7, 2, 3, 5, 10, 6, 8];

    assert_eq!(quick_sort::sort(data), vec![1, 2, 3, 4, 5, 6, 7, 8, 9, 10]);
}

#[test]
fn quick_sort_same_numbers() {
    let data = vec![1, 3, 2, 4, 1, 3];

    assert_eq!(quick_sort::sort(data), vec![1, 1, 2, 3, 3, 4]);
}

#[test]
fn quick_sort_same_numbers2() {
    let data = vec![1, 3, 1, 4, 4, 1, 3, 2, 4, 1, 3, 1, 2, 3, 1, 3];

    assert_eq!(
        quick_sort::sort(data),
        vec![1, 1, 1, 1, 1, 1, 2, 2, 3, 3, 3, 3, 3, 4, 4, 4]
    );
}

#[test]
fn quick_sort_empty() {
    assert_eq!(quick_sort::sort(Vec::new()), Vec::<i64>::new());
}
