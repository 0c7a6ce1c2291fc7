use fibonacci_heap_rust::FibonacciHeap;

fn drain<T: Ord>(mut fh: FibonacciHeap<T>) -> Vec<T> {
    let mut out = Vec::new();
    while let Some(k) = fh.pop() {
        out.push(k);
    }
    out
}

#[test]
fn scenario_insert_three_then_extract_three() {
    let mut fh: FibonacciHeap<u32> = FibonacciHeap::new();
    fh.push(2);
    fh.push(1);
    fh.push(3);
    assert_eq!(fh.pop(), Some(1));
    assert_eq!(fh.pop(), Some(2));
    assert_eq!(fh.pop(), Some(3));
}

#[test]
fn scenario_insert_then_extract_once_leaves_two() {
    let mut fh: FibonacciHeap<u32> = FibonacciHeap::new();
    fh.push(5);
    fh.push(42);
    fh.push(2);
    assert_eq!(fh.len(), 3);
    assert_eq!(fh.pop(), Some(2));
    assert_eq!(fh.len(), 2);
}

#[test]
fn scenario_meld_two_singletons() {
    let mut a: FibonacciHeap<String> = FibonacciHeap::new();
    let mut b: FibonacciHeap<String> = FibonacciHeap::new();
    a.push("Aloha".to_string());
    b.push("Mundo".to_string());
    let m = FibonacciHeap::from_meld(a, b);
    assert_eq!(drain(m), vec!["Aloha".to_string(), "Mundo".to_string()]);
}

#[test]
fn empty_heap_pops_nothing() {
    let mut fh: FibonacciHeap<i64> = FibonacciHeap::new();
    assert!(fh.is_empty());
    assert_eq!(fh.len(), 0);
    assert_eq!(fh.pop(), None);
    assert_eq!(fh.len(), 0);
}

#[test]
fn equal_keys_all_come_out() {
    let mut fh: FibonacciHeap<i32> = FibonacciHeap::new();
    for _ in 0..50 {
        fh.push(7);
    }
    fh.push(3);
    assert_eq!(fh.pop(), Some(3));
    for _ in 0..50 {
        assert_eq!(fh.pop(), Some(7));
    }
    assert_eq!(fh.pop(), None);
}

#[test]
fn largest_keys_are_kept() {
    let mut fh: FibonacciHeap<u64> = FibonacciHeap::new();
    fh.push(u64::MAX);
    fh.push(0);
    fh.push(u64::MAX - 1);
    assert_eq!(drain(fh), vec![0, u64::MAX - 1, u64::MAX]);
}

#[test]
fn drain_is_sorted_and_keeps_every_key() {
    let mut input: Vec<i64> = Vec::new();
    let mut fh: FibonacciHeap<i64> = FibonacciHeap::new();
    for i in 0..500i64 {
        let k = (i * 7919) % 263 - 100;
        fh.push(k);
        input.push(k);
    }
    let out = fh.into_sorted_vec();
    input.sort();
    assert_eq!(out, input);
}

#[test]
fn successive_pops_never_decrease() {
    let mut fh: FibonacciHeap<i32> = FibonacciHeap::new();
    for i in 0..200 {
        fh.push((i * 37) % 101);
    }
    let mut prev = fh.pop().unwrap();
    while let Some(k) = fh.pop() {
        assert!(prev <= k);
        prev = k;
    }
}

#[test]
fn meld_drains_to_sorted_union() {
    let a = FibonacciHeap::from_vec(vec![9, 1, 5, 5]);
    let b = FibonacciHeap::from_vec(vec![4, 5, 0]);
    let m = FibonacciHeap::from_meld(a, b);
    assert_eq!(m.len(), 7);
    assert_eq!(m.into_sorted_vec(), vec![0, 1, 4, 5, 5, 5, 9]);
}

#[test]
fn meld_with_empty_keeps_contents() {
    let a = FibonacciHeap::from_vec(vec![3, 1, 2]);
    let e: FibonacciHeap<i32> = FibonacciHeap::new();
    let m = FibonacciHeap::from_meld(a, e);
    assert_eq!(m.into_sorted_vec(), vec![1, 2, 3]);
    let e: FibonacciHeap<i32> = FibonacciHeap::new();
    let b = FibonacciHeap::from_vec(vec![6, 4]);
    let m = FibonacciHeap::from_meld(e, b);
    assert_eq!(m.into_sorted_vec(), vec![4, 6]);
}

#[test]
fn meld_keeps_first_heap_handles() {
    let mut a: FibonacciHeap<i32> = FibonacciHeap::new();
    let h = a.push(50);
    a.push(20);
    let b = FibonacciHeap::from_vec(vec![30, 40]);
    let mut m = FibonacciHeap::from_meld(a, b);
    m.decrease_key(&h, 10);
    assert_eq!(m.pop(), Some(10));
    assert_eq!(m.pop(), Some(20));
}

#[test]
fn decrease_key_becomes_next_minimum() {
    let mut fh: FibonacciHeap<i32> = FibonacciHeap::new();
    let mut handles = Vec::new();
    for i in 0..32 {
        handles.push(fh.push(100 + i));
    }
    assert_eq!(fh.pop(), Some(100));
    fh.decrease_key(&handles[31], 1);
    assert_eq!(fh.pop(), Some(1));
    assert_eq!(fh.pop(), Some(101));
}

#[test]
fn decrease_key_cascades_and_stays_sorted() {
    let mut fh: FibonacciHeap<i32> = FibonacciHeap::new();
    let mut handles = Vec::new();
    for i in 0..64 {
        handles.push(fh.push(1000 + i));
    }
    assert_eq!(fh.pop(), Some(1000));
    for (n, i) in [63usize, 62, 61, 59, 55, 47, 31, 30, 29].iter().enumerate() {
        fh.decrease_key(&handles[*i], 10 + n as i32);
    }
    let out = drain(fh);
    let mut sorted = out.clone();
    sorted.sort();
    assert_eq!(out, sorted);
    assert_eq!(out.len(), 63);
    assert_eq!(&out[..9], &[10, 11, 12, 13, 14, 15, 16, 17, 18]);
}

#[test]
fn decrease_key_to_equal_or_larger_is_ignored() {
    let mut fh: FibonacciHeap<i32> = FibonacciHeap::new();
    let h = fh.push(5);
    fh.push(6);
    fh.decrease_key(&h, 5);
    fh.decrease_key(&h, 9);
    assert_eq!(fh.pop(), Some(5));
    assert_eq!(fh.pop(), Some(6));
}

#[test]
fn decrease_key_from_another_heap_is_ignored() {
    let mut fh: FibonacciHeap<String> = FibonacciHeap::new();
    let mut other: FibonacciHeap<String> = FibonacciHeap::new();
    let h = fh.push("b".to_string());
    other.push("c".to_string());
    other.decrease_key(&h, "a".to_string());
    assert_eq!(other.pop(), Some("c".to_string()));
    assert_eq!(fh.pop(), Some("b".to_string()));
}

#[test]
fn delete_from_another_heap_is_ignored() {
    let mut fh: FibonacciHeap<String> = FibonacciHeap::new();
    let mut other: FibonacciHeap<String> = FibonacciHeap::new();
    let h = fh.push("a4".to_string());
    other.push("x".to_string());
    assert_eq!(other.delete(h), None);
    assert_eq!(other.len(), 1);
    assert_eq!(fh.len(), 1);
}

#[test]
fn delete_returns_key_and_shrinks_by_one() {
    let mut fh: FibonacciHeap<i32> = FibonacciHeap::new();
    fh.push(4);
    let h = fh.push(8);
    fh.push(8);
    fh.push(1);
    assert_eq!(fh.delete(h), Some(8));
    assert_eq!(fh.len(), 3);
    assert_eq!(drain(fh), vec![1, 4, 8]);
}

#[test]
fn delete_inside_a_tree() {
    let mut fh: FibonacciHeap<i32> = FibonacciHeap::new();
    let mut handles = Vec::new();
    for i in 0..16 {
        handles.push(fh.push(i));
    }
    assert_eq!(fh.pop(), Some(0));
    assert_eq!(fh.delete(handles[9]), Some(9));
    assert_eq!(fh.delete(handles[15]), Some(15));
    assert_eq!(drain(fh), vec![1, 2, 3, 4, 5, 6, 7, 8, 10, 11, 12, 13, 14]);
}

#[test]
fn spent_handle_is_ignored_again_and_again() {
    let mut fh: FibonacciHeap<i32> = FibonacciHeap::new();
    let h = fh.push(1);
    fh.push(2);
    assert_eq!(fh.delete(h), Some(1));
    assert_eq!(fh.delete(h), None);
    fh.decrease_key(&h, 0);
    assert_eq!(fh.delete(h), None);
    assert_eq!(fh.len(), 1);
    assert_eq!(fh.pop(), Some(2));
}

#[test]
fn popped_handle_is_ignored() {
    let mut fh: FibonacciHeap<i32> = FibonacciHeap::new();
    let h = fh.push(1);
    fh.push(3);
    assert_eq!(fh.pop(), Some(1));
    fh.decrease_key(&h, 0);
    assert_eq!(fh.delete(h), None);
    assert_eq!(fh.pop(), Some(3));
}

#[test]
fn default_heap_is_empty() {
    let fh: FibonacciHeap<u8> = FibonacciHeap::default();
    assert!(fh.is_empty());
}

#[test]
fn meld_ignores_second_heap_handles() {
    let mut a: FibonacciHeap<i32> = FibonacciHeap::new();
    a.push(5);
    let mut b: FibonacciHeap<i32> = FibonacciHeap::new();
    let hb = b.push(7);
    let mut m = FibonacciHeap::from_meld(a, b);
    m.decrease_key(&hb, 1);
    assert_eq!(m.delete(hb), None);
    assert_eq!(m.into_sorted_vec(), vec![5, 7]);
}

#[test]
fn meld_of_consolidated_heaps_keeps_order() {
    let mut a: FibonacciHeap<i32> = FibonacciHeap::new();
    let mut b: FibonacciHeap<i32> = FibonacciHeap::new();
    for i in 0..40 {
        a.push(2 * i);
        b.push(2 * i + 1);
    }
    assert_eq!(a.pop(), Some(0));
    assert_eq!(b.pop(), Some(1));
    let m = FibonacciHeap::from_meld(a, b);
    assert_eq!(m.len(), 78);
    let expected: Vec<i32> = (2..80).collect();
    assert_eq!(m.into_sorted_vec(), expected);
}
