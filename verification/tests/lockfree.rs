use calendar_queue::segbucketqueue::ParBqueue;
use rand::Rng;

/// The handle of the value at `index`: its whole part as the key, so that a
/// bucket width of 1 files it by `floor(value / 1.0)`.
fn handle(values: &[f64], index: usize) -> (u64, usize) {
    (values[index].floor() as u64, index)
}

#[test]
fn tryingmybesthere_it_works() {
    let max = 500;
    let div = 5;
    let total = max * div;
    let value = [500.0];

    let mut heap1 = ParBqueue::new(max + 1, 1);
    assert_eq!(heap1.is_empty(), true);
    heap1.push(handle(&value, 0)).unwrap();
    assert_eq!(heap1.is_empty(), false);
    assert_eq!(heap1.len(), 1);

    assert_eq!(heap1.pop().map(|h| &value[h.1]), Some(&value[0]));
    assert_eq!(heap1.is_empty(), true);

    let mut values = Vec::new();
    for i in 1..=total {
        let y = (i as f64) / div as f64;
        values.push(y);
    }
    for i in 0..total {
        heap1.push(handle(&values, i)).unwrap();
        assert_eq!(heap1.len(), i + 1);
    }
    assert_eq!(heap1.len(), total);
    for i in 1..=total {
        let y = (i as f64) / div as f64;

        assert_eq!(heap1.pop().map(|h| &values[h.1]), Some(&y));
        assert_eq!(heap1.len(), total - i);
    }
    assert_eq!(heap1.is_empty(), true);

    let mut rng = rand::thread_rng();

    let mut vector = Vec::new();

    for _i in 1..=total {
        let n: f64 = rng.gen_range(0.0..=max as f64);
        vector.push(n)
    }
    let mut sortvec = vector.clone();
    sortvec.sort_by(|a, b| a.partial_cmp(b).unwrap());

    for i in 1..=total {
        heap1.push(handle(&vector, i - 1)).unwrap();
        assert_eq!(heap1.len(), i);
    }
    assert_eq!(heap1.len(), total);

    for i in 1..=total {
        let min = sortvec.remove(0);

        assert_eq!(vector[heap1.pop().unwrap().1].floor(), min.floor());
        assert_eq!(heap1.len(), total - i);
    }
    assert_eq!(heap1.is_empty(), true);
}

#[test]
fn handles_leave_bucket_by_bucket_oldest_first() {
    let mut queue = ParBqueue::new(3, 10);
    assert!(queue.is_empty());
    assert_eq!(queue.pop(), None);
    queue.push((25, 0)).unwrap();
    queue.push((4, 1)).unwrap();
    queue.push((21, 2)).unwrap();
    queue.push((9, 3)).unwrap();
    queue.push((0, 4)).unwrap();
    assert_eq!(queue.len(), 5);
    assert_eq!(queue.pop(), Some((4, 1)));
    assert_eq!(queue.pop(), Some((9, 3)));
    assert_eq!(queue.pop(), Some((0, 4)));
    assert_eq!(queue.len(), 2);
    assert_eq!(queue.pop(), Some((25, 0)));
    assert_eq!(queue.pop(), Some((21, 2)));
    assert_eq!(queue.pop(), None);
    assert!(queue.is_empty());
    assert_eq!(queue.len(), 0);
}

#[test]
fn a_handle_with_a_key_beyond_the_buckets_is_rejected() {
    let mut queue = ParBqueue::new(3, 10);
    let err = queue.push((30, 7)).unwrap_err();
    assert_eq!(err.index, 3);
    assert_eq!(err.bucketnum, 3);
    assert!(queue.is_empty());
    queue.push((29, 8)).unwrap();
    assert_eq!(queue.pop(), Some((29, 8)));
}

#[test]
fn bulk_push_of_handles_files_all_or_nothing() {
    let mut queue = ParBqueue::new(3, 10);
    let err = queue.bulk_push(vec![(1, 0), (55, 1), (2, 2)]).unwrap_err();
    assert_eq!(err.index, 5);
    assert!(queue.is_empty());
    queue.bulk_push(vec![(21, 0), (1, 1), (12, 2), (2, 3)]).unwrap();
    assert_eq!(queue.len(), 4);
    assert_eq!(queue.pop(), Some((1, 1)));
    assert_eq!(queue.pop(), Some((2, 3)));
    assert_eq!(queue.pop(), Some((12, 2)));
    assert_eq!(queue.pop(), Some((21, 0)));
    assert!(queue.is_empty());
}
