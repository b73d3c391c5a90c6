use sched_gym::min_prio_queue::MinPrioQueue;
use sched_gym::order::{sort_by_cost, sorted_push_by_key};

#[test]
fn pop_on_empty_queue_is_none() {
    let mut q: MinPrioQueue<usize> = MinPrioQueue::new();
    assert_eq!(q.pop(), None);
}

#[test]
fn queue_pops_smallest_key_first() {
    let mut q = MinPrioQueue::new();
    q.push(7, 'a');
    q.push(3, 'b');
    q.push(9, 'c');
    q.push(1, 'd');
    q.push(5, 'e');
    assert_eq!(q.pop(), Some((1, 'd')));
    assert_eq!(q.pop(), Some((3, 'b')));
    q.push(2, 'f');
    assert_eq!(q.pop(), Some((2, 'f')));
    assert_eq!(q.pop(), Some((5, 'e')));
    assert_eq!(q.pop(), Some((7, 'a')));
    assert_eq!(q.pop(), Some((9, 'c')));
    assert_eq!(q.pop(), None);
}

#[test]
fn queue_keeps_duplicates() {
    let mut q = MinPrioQueue::new();
    q.push(4, 10usize);
    q.push(4, 10usize);
    q.push(4, 11usize);
    let mut got = vec![q.pop().unwrap(), q.pop().unwrap(), q.pop().unwrap()];
    got.sort();
    assert_eq!(got, vec![(4, 10), (4, 10), (4, 11)]);
    assert_eq!(q.pop(), None);
}

#[test]
fn queue_handles_extreme_keys() {
    let mut q = MinPrioQueue::new();
    q.push(u128::MAX, 1u8);
    q.push(0, 2u8);
    assert_eq!(q.pop(), Some((0, 2)));
    assert_eq!(q.pop(), Some((u128::MAX, 1)));
}

#[test]
fn sorted_push_goes_after_equal_costs() {
    let mut v: Vec<(u128, &str)> = vec![(1, "a"), (3, "b"), (3, "c"), (8, "d")];
    sorted_push_by_key(&mut v, (3, "x"));
    assert_eq!(v, vec![(1, "a"), (3, "b"), (3, "c"), (3, "x"), (8, "d")]);
    sorted_push_by_key(&mut v, (0, "y"));
    sorted_push_by_key(&mut v, (9, "z"));
    assert_eq!(v.first(), Some(&(0, "y")));
    assert_eq!(v.last(), Some(&(9, "z")));
}

#[test]
fn sorted_push_into_empty() {
    let mut v: Vec<(u128, u32)> = Vec::new();
    sorted_push_by_key(&mut v, (5, 1));
    assert_eq!(v, vec![(5, 1)]);
}

#[test]
fn sort_by_cost_is_stable() {
    let v: Vec<(u128, char)> = vec![(5, 'a'), (2, 'b'), (5, 'c'), (1, 'd'), (2, 'e'), (5, 'f')];
    let r = sort_by_cost(v);
    assert_eq!(r, vec![(1, 'd'), (2, 'b'), (2, 'e'), (5, 'a'), (5, 'c'), (5, 'f')]);
}

#[test]
fn sort_by_cost_of_nothing() {
    let v: Vec<(u128, char)> = Vec::new();
    assert!(sort_by_cost(v).is_empty());
}

#[test]
fn queue_sorts_many_entries() {
    let mut q = MinPrioQueue::new();
    let mut x: u64 = 12345;
    let mut pushed: Vec<(u128, usize)> = Vec::new();
    for i in 0..300usize {
        x = x.wrapping_mul(6364136223846793005).wrapping_add(1442695040888963407);
        let key = (x >> 40) as u128 % 50;
        q.push(key, i);
        pushed.push((key, i));
        if i % 7 == 3 {
            let (k, t) = q.pop().unwrap();
            let pos = pushed.iter().position(|e| *e == (k, t)).unwrap();
            assert!(pushed.iter().all(|e| e.0 >= k));
            pushed.remove(pos);
        }
    }
    let mut last = 0u128;
    while let Some((k, t)) = q.pop() {
        assert!(k >= last);
        last = k;
        let pos = pushed.iter().position(|e| *e == (k, t)).unwrap();
        pushed.remove(pos);
    }
    assert!(pushed.is_empty());
}

#[test]
fn sorted_push_into_unsorted_vector() {
    let mut v: Vec<(u128, char)> = vec![(9, 'a'), (1, 'b'), (5, 'c')];
    sorted_push_by_key(&mut v, (4, 'x'));
    assert_eq!(v.len(), 4);
    let mut rest = v.clone();
    let pos = rest.iter().position(|e| *e == (4, 'x')).unwrap();
    rest.remove(pos);
    assert_eq!(rest, vec![(9, 'a'), (1, 'b'), (5, 'c')]);
}
