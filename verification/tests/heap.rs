use binary_heap_compare::BinaryHeapCompare;
use std::cmp::Ordering;

fn ascending(a: &i32, b: &i32) -> Ordering {
    a.cmp(b)
}

fn descending(a: &i32, b: &i32) -> Ordering {
    b.cmp(a)
}

fn drain<F: Fn(&i32, &i32) -> Ordering>(h: &mut BinaryHeapCompare<i32, F>) -> Vec<i32> {
    let mut out = Vec::new();
    while let Some(x) = h.pop() {
        out.push(x);
    }
    out
}

#[test]
fn pushed_items_leave_greatest_first() {
    let mut h = BinaryHeapCompare::new(ascending);
    for x in [1, 2, 3, 0] {
        h.push(x);
    }
    assert_eq!(h.pop(), Some(3));
    assert_eq!(h.pop(), Some(2));
    assert_eq!(h.pop(), Some(1));
    assert_eq!(h.pop(), Some(0));
    assert_eq!(h.pop(), None);
}

#[test]
fn from_vec_items_leave_greatest_first() {
    let mut h = BinaryHeapCompare::from_vec(vec![1, 3, 5, 2], ascending);
    assert_eq!(h.pop(), Some(5));
    assert_eq!(h.pop(), Some(3));
    assert_eq!(h.pop(), Some(2));
    assert_eq!(h.pop(), Some(1));
    assert_eq!(h.pop(), None);
}

#[test]
fn new_heap_is_empty() {
    let mut h: BinaryHeapCompare<i32, _> = BinaryHeapCompare::new(ascending);
    assert!(h.is_empty());
    assert_eq!(h.len(), 0);
    assert_eq!(h.peek(), None);
    assert_eq!(h.pop(), None);
}

#[test]
fn from_empty_vec_is_empty() {
    let mut h = BinaryHeapCompare::from_vec(Vec::<i32>::new(), ascending);
    assert!(h.is_empty());
    assert_eq!(h.pop(), None);
}

#[test]
fn len_counts_pushes_and_pops() {
    let mut h = BinaryHeapCompare::new(ascending);
    for (n, x) in [7, -1, 7, 4, 0, 12].into_iter().enumerate() {
        assert_eq!(h.len(), n);
        h.push(x);
    }
    assert_eq!(h.len(), 6);
    assert!(!h.is_empty());
    for k in 1..=6 {
        assert!(h.pop().is_some());
        assert_eq!(h.len(), 6 - k);
    }
    assert!(h.is_empty());
}

#[test]
fn empty_heap_stays_empty_under_pop() {
    let mut h: BinaryHeapCompare<i32, _> = BinaryHeapCompare::new(ascending);
    for _ in 0..5 {
        assert_eq!(h.pop(), None);
        assert_eq!(h.len(), 0);
    }
    h.push(9);
    assert_eq!(h.pop(), Some(9));
    for _ in 0..5 {
        assert_eq!(h.pop(), None);
    }
}

#[test]
fn peek_shows_the_item_that_pop_takes() {
    let mut h = BinaryHeapCompare::from_vec(vec![4, 8, 15, 16, 23, 42], ascending);
    assert_eq!(h.peek(), Some(&42));
    assert_eq!(h.len(), 6);
    assert_eq!(h.pop(), Some(42));
    assert_eq!(h.peek(), Some(&23));
    assert_eq!(h.len(), 5);
}

#[test]
fn comparator_decides_the_order() {
    let mut h = BinaryHeapCompare::from_vec(vec![1, 3, 5, 2], descending);
    h.push(0);
    h.push(4);
    assert_eq!(drain(&mut h), vec![0, 1, 2, 3, 4, 5]);
}

#[test]
fn ties_all_come_out() {
    let by_tens = |a: &i32, b: &i32| (a / 10).cmp(&(b / 10));
    let mut h = BinaryHeapCompare::from_vec(vec![11, 25, 12, 27, 3, 19], by_tens);
    let out = drain(&mut h);
    let tens: Vec<i32> = out.iter().map(|x| x / 10).collect();
    assert_eq!(tens, vec![2, 2, 1, 1, 1, 0]);
    let mut sorted = out.clone();
    sorted.sort();
    assert_eq!(sorted, vec![3, 11, 12, 19, 25, 27]);
}

#[test]
fn push_sifts_past_the_upper_item_of_an_even_position() {
    // The fifth item lands at position 4, below position 1.
    let mut h = BinaryHeapCompare::new(ascending);
    for x in [10, 1, 9, 0, 5] {
        h.push(x);
    }
    assert_eq!(drain(&mut h), vec![10, 9, 5, 1, 0]);
}

#[test]
fn push_then_pop_sorts_many() {
    let mut h = BinaryHeapCompare::new(ascending);
    let mut expect = Vec::new();
    let mut x: i32 = 17;
    for _ in 0..200 {
        x = (x * 73 + 41) % 1009;
        h.push(x);
        expect.push(x);
    }
    expect.sort();
    expect.reverse();
    assert_eq!(drain(&mut h), expect);
}

#[test]
fn from_vec_sorts_many() {
    let mut items = Vec::new();
    let mut x: i32 = 5;
    for _ in 0..257 {
        x = (x * 31 + 7) % 503;
        items.push(x);
    }
    let mut expect = items.clone();
    expect.sort();
    expect.reverse();
    let mut h = BinaryHeapCompare::from_vec(items, ascending);
    assert_eq!(h.len(), 257);
    assert_eq!(drain(&mut h), expect);
}

#[test]
fn retain_keeps_what_the_predicate_accepts() {
    let mut h = BinaryHeapCompare::from_vec((0..20).collect(), ascending);
    h.retain(|x| x % 3 == 0);
    assert_eq!(h.len(), 7);
    assert_eq!(drain(&mut h), vec![18, 15, 12, 9, 6, 3, 0]);
}

#[test]
fn retain_all_and_none() {
    let mut h = BinaryHeapCompare::from_vec(vec![2, 9, 4], ascending);
    h.retain(|_| true);
    assert_eq!(h.len(), 3);
    h.retain(|_| false);
    assert!(h.is_empty());
    assert_eq!(h.peek(), None);
    h.retain(|_| true);
    assert!(h.is_empty());
}

#[test]
fn retain_lets_the_filling_item_rise() {
    // Taking 1 out of position 3 brings 9 from the tail below 2.
    let mut h = BinaryHeapCompare::from_vec(vec![10, 2, 9, 1, 1, 8, 9], ascending);
    h.retain(|x| *x != 1);
    assert_eq!(h.len(), 5);
    assert_eq!(drain(&mut h), vec![10, 9, 9, 8, 2]);
}

#[test]
fn retain_tests_an_item_that_came_down() {
    // 0 leaves position 4, 8 fills it and rises over 1, which comes down to
    // position 4 and has to be tested there.
    let mut h = BinaryHeapCompare::from_vec(vec![10, 1, 9, 0, 0, 8], ascending);
    h.retain(|x| *x > 1);
    assert_eq!(drain(&mut h), vec![10, 9, 8]);
}

#[test]
fn retain_keeps_heap_order_on_many() {
    for modulus in 2..9 {
        let mut items = Vec::new();
        let mut x: i32 = 3;
        for _ in 0..150 {
            x = (x * 57 + 13) % 997;
            items.push(x);
        }
        let mut expect: Vec<i32> = items.iter().copied().filter(|v| v % modulus != 0).collect();
        expect.sort();
        expect.reverse();
        let mut h = BinaryHeapCompare::from_vec(items, ascending);
        h.retain(|v| v % modulus != 0);
        assert_eq!(h.len(), expect.len());
        assert_eq!(drain(&mut h), expect);
    }
}

#[test]
fn clear_then_push_is_as_new() {
    let mut used = BinaryHeapCompare::from_vec(vec![6, 1, 8, 3], ascending);
    used.clear();
    assert!(used.is_empty());
    assert_eq!(used.len(), 0);
    assert_eq!(used.peek(), None);
    let mut fresh = BinaryHeapCompare::new(ascending);
    for x in [5, 2, 9, 2, 7] {
        used.push(x);
        fresh.push(x);
        assert_eq!(used.len(), fresh.len());
        assert_eq!(used.peek(), fresh.peek());
    }
    assert_eq!(drain(&mut used), drain(&mut fresh));
}

#[test]
fn clone_is_its_own_heap() {
    let mut h = BinaryHeapCompare::from_vec(vec![3, 1, 2], ascending as fn(&i32, &i32) -> Ordering);
    let mut c = h.clone();
    assert_eq!(h.pop(), Some(3));
    assert_eq!(c.len(), 3);
    assert_eq!(drain(&mut c), vec![3, 2, 1]);
    assert_eq!(drain(&mut h), vec![2, 1]);
}

#[test]
fn debug_string_lists_the_backing_vector() {
    let mut h = BinaryHeapCompare::from_vec(vec![1, 3, 5, 2], ascending);
    assert_eq!(h.debug_string(), "[5, 3, 1, 2]");
    h.push(4);
    assert_eq!(h.debug_string(), "[5, 4, 1, 2, 3]");
    assert_eq!(h.pop(), Some(5));
    assert_eq!(h.debug_string(), "[4, 3, 1, 2]");
    h.clear();
    assert_eq!(h.debug_string(), "[]");
}

#[test]
fn sift_down_prefers_the_left_child_on_a_tie() {
    let by_tens = |a: &i32, b: &i32| (a / 10).cmp(&(b / 10));
    let h = BinaryHeapCompare::from_vec(vec![5, 21, 22], by_tens);
    assert_eq!(h.debug_string(), "[21, 5, 22]");
    let h = BinaryHeapCompare::from_vec(vec![5, 21, 32], by_tens);
    assert_eq!(h.debug_string(), "[32, 21, 5]");
}

#[test]
fn retain_visits_from_the_last_position() {
    let mut h = BinaryHeapCompare::from_vec(vec![9, 7, 8, 1, 6, 2, 3], ascending);
    assert_eq!(h.debug_string(), "[9, 7, 8, 1, 6, 2, 3]");
    h.retain(|x| *x != 7);
    assert_eq!(h.debug_string(), "[9, 6, 8, 1, 3, 2]");
}
