use eight_puzzle::min_heap::MinHeap;

#[test]
fn a_new_heap_is_empty() {
    let mut heap: MinHeap<u32> = MinHeap::new();
    assert!(heap.is_empty());
    assert_eq!(heap.pop(), None);
    assert!(heap.is_empty());
}

#[test]
fn pops_come_in_priority_order() {
    let mut heap: MinHeap<&str> = MinHeap::new();
    heap.insert("five", 5);
    heap.insert("one", 1);
    heap.insert("nine", 9);
    heap.insert("three", 3);
    heap.insert("seven", 7);
    assert!(!heap.is_empty());
    assert_eq!(heap.pop(), Some("one"));
    assert_eq!(heap.pop(), Some("three"));
    assert_eq!(heap.pop(), Some("five"));
    assert_eq!(heap.pop(), Some("seven"));
    assert!(!heap.is_empty());
    assert_eq!(heap.pop(), Some("nine"));
    assert!(heap.is_empty());
    assert_eq!(heap.pop(), None);
}

#[test]
fn n_inserts_then_n_pops_never_descend() {
    let mut heap: MinHeap<u64> = MinHeap::new();
    let mut priorities: Vec<u64> = Vec::new();
    let mut x: u64 = 12345;
    for _ in 0..500 {
        x = x.wrapping_mul(6364136223846793005).wrapping_add(1442695040888963407);
        priorities.push((x >> 33) % 97);
    }
    for &p in &priorities {
        // the item carries its own priority
        heap.insert(p, p);
    }
    let mut popped: Vec<u64> = Vec::new();
    for left in (0..priorities.len()).rev() {
        assert!(!heap.is_empty());
        popped.push(heap.pop().unwrap());
        assert_eq!(heap.is_empty(), left == 0);
    }
    for pair in popped.windows(2) {
        assert!(pair[0] <= pair[1]);
    }
    priorities.sort();
    assert_eq!(popped, priorities);
}

#[test]
fn the_same_item_may_be_queued_twice() {
    let mut heap: MinHeap<char> = MinHeap::new();
    heap.insert('a', 10);
    heap.insert('b', 4);
    heap.insert('a', 2);
    assert_eq!(heap.pop(), Some('a'));
    assert_eq!(heap.pop(), Some('b'));
    assert_eq!(heap.pop(), Some('a'));
    assert_eq!(heap.pop(), None);
}

#[test]
fn ties_leave_in_some_order() {
    let mut heap: MinHeap<u8> = MinHeap::new();
    heap.insert(1, 3);
    heap.insert(2, 3);
    heap.insert(3, 3);
    heap.insert(4, 1);
    assert_eq!(heap.pop(), Some(4));
    let mut rest = vec![heap.pop().unwrap(), heap.pop().unwrap(), heap.pop().unwrap()];
    rest.sort();
    assert_eq!(rest, vec![1, 2, 3]);
    assert!(heap.is_empty());
}

#[test]
fn inserts_and_pops_may_alternate() {
    let mut heap: MinHeap<u32> = MinHeap::new();
    heap.insert(30, 30);
    heap.insert(10, 10);
    assert_eq!(heap.pop(), Some(10));
    heap.insert(20, 20);
    heap.insert(5, 5);
    assert_eq!(heap.pop(), Some(5));
    assert_eq!(heap.pop(), Some(20));
    heap.insert(u32::MAX, u64::MAX);
    heap.insert(0, 0);
    assert_eq!(heap.pop(), Some(0));
    assert_eq!(heap.pop(), Some(30));
    assert_eq!(heap.pop(), Some(u32::MAX));
    assert!(heap.is_empty());
}
