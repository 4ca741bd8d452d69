use simple_nav::queue::MinQueue;

#[test]
fn test_pq() {
    let mut pg = MinQueue::new();
    pg.push(1, 1);
    pg.push(5, 2);
    pg.push(2, 3);

    println!("{:?}", pg.pop());
    println!("{:?}", pg.pop());
    println!("{:?}", pg.pop());
}

#[test]
fn pops_in_ascending_distance() {
    let mut q = MinQueue::new();
    q.push(1, 1);
    q.push(5, 2);
    q.push(2, 3);
    assert_eq!(q.len(), 3);
    assert_eq!(q.pop(), Some((1, 1)));
    assert_eq!(q.pop(), Some((2, 3)));
    assert_eq!(q.pop(), Some((5, 2)));
    assert_eq!(q.pop(), None);
    assert!(q.is_empty());
}

#[test]
fn empty_queue_pops_nothing() {
    let mut q = MinQueue::new();
    assert!(q.is_empty());
    assert_eq!(q.len(), 0);
    assert_eq!(q.pop(), None);
    assert_eq!(q.pop(), None);
}

#[test]
fn keeps_repeated_entries() {
    let mut q = MinQueue::new();
    q.push(4, 9);
    q.push(4, 9);
    q.push(3, 9);
    assert_eq!(q.len(), 3);
    assert_eq!(q.pop(), Some((3, 9)));
    assert_eq!(q.pop(), Some((4, 9)));
    assert_eq!(q.pop(), Some((4, 9)));
    assert_eq!(q.pop(), None);
}

#[test]
fn sorts_many_entries() {
    let mut q = MinQueue::new();
    let mut state: u64 = 12345;
    let mut expected = Vec::new();
    for node in 0..500usize {
        state = state.wrapping_mul(6364136223846793005).wrapping_add(1442695040888963407);
        let d = (state >> 40) % 1000;
        q.push(d, node);
        expected.push(d);
        if node % 7 == 0 {
            let least = *expected.iter().min().unwrap();
            let (got, _) = q.pop().unwrap();
            assert_eq!(got, least);
            let at = expected.iter().position(|&x| x == least).unwrap();
            expected.remove(at);
        }
    }
    expected.sort();
    assert_eq!(q.len(), expected.len());
    for d in expected {
        assert_eq!(q.pop().unwrap().0, d);
    }
    assert!(q.is_empty());
}

#[test]
fn takes_the_extremes() {
    let mut q = MinQueue::new();
    q.push(u64::MAX, usize::MAX);
    q.push(0, 0);
    assert_eq!(q.pop(), Some((0, 0)));
    assert_eq!(q.pop(), Some((u64::MAX, usize::MAX)));
}
