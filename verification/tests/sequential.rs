use calendar_queue::{Bqueue, HasKey};
use rand::Rng;

/// A time value; its key is the whole part, so that a bucket width of 1
/// files it by `floor(value / 1.0)`.
#[derive(Debug, PartialEq, Clone, Copy)]
struct Val(f64);

impl HasKey for Val {
    fn key_spec(&self) -> u64 {
        self.key()
    }

    fn key(&self) -> u64 {
        self.0.floor() as u64
    }
}

#[test]
fn sequentialbucketqueue_it_works() {
    let max = 500;
    let div = 5;
    let total = max * div;
    let value = Val(500.0);

    let mut heap1: Bqueue<&Val> = Bqueue::new(max + 1, 1);
    assert_eq!(heap1.is_empty(), true);
    heap1.push(&value).unwrap();
    assert_eq!(heap1.is_empty(), false);
    assert_eq!(heap1.peek(), Some(&value));
    assert_eq!(heap1.pop(), Some(&value));
    assert_eq!(heap1.is_empty(), true);

    let mut values = Vec::new();
    for i in 1..=total {
        let y = (i as f64) / div as f64;
        values.push(Val(y));
    }
    for i in 0..total {
        heap1.push(&values[i]).unwrap();
        assert_eq!(heap1.peek(), Some(&Val(1.0 / div as f64)));
    }
    for i in 1..=total {
        let y = Val((i as f64) / div as f64);
        assert_eq!(heap1.peek(), Some(&y));
        assert_eq!(heap1.pop(), Some(&y));
    }
    assert_eq!(heap1.is_empty(), true);

    let mut rng = rand::thread_rng();

    let mut vector = Vec::new();

    for _i in 1..=total {
        let n: f64 = rng.gen_range(0.0..=max as f64);
        vector.push(Val(n))
    }
    let mut sortvec = vector.clone();
    sortvec.sort_by(|a, b| a.0.partial_cmp(&b.0).unwrap());

    for i in 1..=total {
        let y = &vector[i - 1];
        heap1.push(y).unwrap();
        let min = &vector[0..i].iter().fold(f64::INFINITY, |a, b| a.min(b.0));
        assert_eq!(heap1.peek().unwrap().0.floor(), min.floor());
    }

    for _ in 1..=total {
        let min = sortvec.remove(0);
        assert_eq!(heap1.peek().unwrap().0.floor(), min.0.floor());
        assert_eq!(heap1.pop().unwrap().0.floor(), min.0.floor());
    }
    assert_eq!(heap1.is_empty(), true);
}

#[test]
fn push_one_then_pop_leaves_the_queue_empty() {
    let value = Val(500.0);
    let mut queue: Bqueue<&Val> = Bqueue::new(501, 1);
    queue.push(&value).unwrap();
    assert_eq!(queue.len(), 1);
    assert_eq!(queue.pop(), Some(&value));
    assert!(queue.is_empty());
    assert_eq!(queue.pop(), None);
    assert_eq!(queue.peek(), None);
    assert_eq!(queue.len(), 0);
}

#[test]
fn fifths_come_out_in_ascending_order() {
    let values: Vec<Val> = (1..=2500).map(|i| Val(i as f64 / 5.0)).collect();
    let mut queue: Bqueue<&Val> = Bqueue::new(501, 1);
    for v in &values {
        queue.push(v).unwrap();
    }
    assert_eq!(queue.len(), 2500);
    let mut out = Vec::new();
    while let Some(v) = queue.pop() {
        out.push(v.0);
    }
    let mut sorted: Vec<f64> = values.iter().map(|v| v.0).collect();
    sorted.sort_by(|a, b| a.partial_cmp(b).unwrap());
    assert_eq!(out, sorted);
    assert_eq!(out[0], 0.2);
    assert_eq!(out[2499], 500.0);
}

#[test]
fn a_key_beyond_the_last_bucket_is_rejected() {
    let inside = Val(9.9);
    let outside = Val(10.0);
    let mut queue: Bqueue<&Val> = Bqueue::new(10, 1);
    queue.push(&inside).unwrap();
    let err = queue.push(&outside).unwrap_err();
    assert_eq!(err.index, 10);
    assert_eq!(err.bucketnum, 10);
    assert_eq!(queue.len(), 1);
    assert_eq!(queue.pop(), Some(&inside));
    assert!(queue.is_empty());
}

#[test]
fn a_queue_without_buckets_rejects_every_key() {
    let zero = Val(0.0);
    let mut queue: Bqueue<&Val> = Bqueue::new(0, 1);
    assert!(queue.is_empty());
    assert!(queue.push(&zero).is_err());
    assert_eq!(queue.pop(), None);
}

#[test]
fn one_bucket_serves_in_push_order_not_in_key_order() {
    let late = Val(3.9);
    let early = Val(3.1);
    let middle = Val(3.5);
    let before = Val(2.7);
    let mut queue: Bqueue<&Val> = Bqueue::new(5, 1);
    queue.push(&late).unwrap();
    queue.push(&early).unwrap();
    queue.push(&middle).unwrap();
    assert_eq!(queue.peek(), Some(&late));
    queue.push(&before).unwrap();
    assert_eq!(queue.peek(), Some(&before));
    assert_eq!(queue.pop(), Some(&before));
    assert_eq!(queue.pop(), Some(&late));
    assert_eq!(queue.pop(), Some(&early));
    assert_eq!(queue.pop(), Some(&middle));
    assert_eq!(queue.pop(), None);
}

/// An element whose key is given in ticks.
#[derive(Debug, PartialEq, Clone, Copy)]
struct Tick(u64);

impl HasKey for Tick {
    fn key_spec(&self) -> u64 {
        self.key()
    }

    fn key(&self) -> u64 {
        self.0
    }
}

#[test]
fn the_bucket_is_the_key_divided_by_the_width() {
    let ticks = [Tick(29), Tick(30), Tick(0), Tick(9), Tick(10), Tick(19)];
    let mut queue: Bqueue<&Tick> = Bqueue::new(4, 10);
    for t in &ticks {
        queue.push(t).unwrap();
    }
    let too_late = Tick(40);
    let err = queue.push(&too_late).unwrap_err();
    assert_eq!(err.index, 4);
    let mut out = Vec::new();
    while let Some(t) = queue.pop() {
        out.push(t.0);
    }
    assert_eq!(out, vec![0, 9, 10, 19, 29, 30]);
}

#[test]
fn pops_match_a_sorted_copy_bucket_for_bucket() {
    let mut rng = rand::thread_rng();
    let keys: Vec<Tick> = (0..1000).map(|_| Tick(rng.gen_range(0..=5000))).collect();
    let mut queue: Bqueue<&Tick> = Bqueue::new(72, 70);
    for k in &keys {
        queue.push(k).unwrap();
    }
    let mut sorted: Vec<u64> = keys.iter().map(|k| k.0).collect();
    sorted.sort();
    let mut pops = 0;
    for reference in sorted {
        assert!(!queue.is_empty());
        let popped = queue.pop().unwrap();
        assert_eq!(popped.0 / 70, reference / 70);
        pops += 1;
    }
    assert_eq!(pops, 1000);
    assert!(queue.is_empty());
    assert_eq!(queue.pop(), None);
}

#[test]
fn a_push_below_the_cursor_lowers_it() {
    let high = Tick(35);
    let low = Tick(5);
    let mut queue: Bqueue<&Tick> = Bqueue::new(4, 10);
    queue.push(&high).unwrap();
    assert_eq!(queue.peek(), Some(&high));
    queue.push(&low).unwrap();
    assert_eq!(queue.peek(), Some(&low));
    assert_eq!(queue.pop(), Some(&low));
    assert_eq!(queue.pop(), Some(&high));
    queue.push(&low).unwrap();
    assert_eq!(queue.pop(), Some(&low));
}
