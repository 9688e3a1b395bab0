use calendar_queue::batch::discard_none;
use calendar_queue::{HasKey, ParBqueue};
use rand::Rng;

/// A time value; its key is the whole part, so that a bucket width of 1
/// files it by `floor(value / 1.0)`.
#[derive(Debug, PartialEq, Clone, Copy)]
struct Val(f64);

impl HasKey for Val {
    fn key_spec(&self) -> u64 {
        self.key()
    }

    fn key(&self) -> u64 {
        self.0.floor() as u64
    }
}

#[test]
fn parallelbucketqueue_it_works() {
    let max = 500;
    let div = 5;
    let total = max * div;
    let value = Val(500.0);

    let mut heap1: ParBqueue<&Val> = ParBqueue::new(max + 1, 1);
    assert_eq!(heap1.is_empty(), true);
    heap1.push(&value).unwrap();
    assert_eq!(heap1.is_empty(), false);
    assert_eq!(heap1.peek(), Some(&value));
    assert_eq!(heap1.pop(), Some(&value));
    assert_eq!(heap1.is_empty(), true);

    let mut values = Vec::new();
    for i in 1..=total {
        let y = (i as f64) / div as f64;
        values.push(Val(y));
    }
    for i in 0..total {
        heap1.push(&values[i]).unwrap();
        assert_eq!(heap1.peek(), Some(&Val(1.0 / div as f64)));
    }
    for i in 1..=total {
        let y = Val((i as f64) / div as f64);
        assert_eq!(heap1.peek(), Some(&y));
        assert_eq!(heap1.pop(), Some(&y));
    }
    assert_eq!(heap1.is_empty(), true);

    let mut rng = rand::thread_rng();

    let mut vector = Vec::new();

    for _i in 1..=total {
        let n: f64 = rng.gen_range(0.0..=max as f64);
        vector.push(Val(n))
    }
    let mut sortvec = vector.clone();
    sortvec.sort_by(|a, b| a.0.partial_cmp(&b.0).unwrap());

    for i in 1..=total {
        let y = &vector[i - 1];
        heap1.push(y).unwrap();
        let min = &vector[0..i].iter().fold(f64::INFINITY, |a, b| a.min(b.0));
        assert_eq!(heap1.peek().unwrap().0.floor(), min.floor());
    }

    for _ in 1..=total {
        let min = sortvec.remove(0);
        assert_eq!(heap1.peek().unwrap().0.floor(), min.0.floor());
        assert_eq!(heap1.pop().unwrap().0.floor(), min.0.floor());
    }
    assert_eq!(heap1.is_empty(), true);
}

#[test]
fn parwithmutex_it_works() {
    let max = 500;
    let div = 5;
    let total = max * div;
    let value = Val(500.0);

    let mut heap1: ParBqueue<&Val> = ParBqueue::new(max + 1, 1);
    assert_eq!(heap1.is_empty(), true);
    heap1.push(&value).unwrap();
    assert_eq!(heap1.is_empty(), false);
    assert_eq!(heap1.len(), 1);
    assert_eq!(heap1.peek(), Some(&value));
    assert_eq!(heap1.pop(), Some(&value));
    assert_eq!(heap1.is_empty(), true);

    let mut rng = rand::thread_rng();

    let mut vector = Vec::new();

    for _i in 1..=total {
        let n: f64 = rng.gen_range(0.0..=max as f64);
        vector.push(Val(n))
    }
    let mut sortvec = vector.clone();
    sortvec.sort_by(|a, b| a.0.partial_cmp(&b.0).unwrap());

    for i in 1..=total {
        let y = &vector[i - 1];
        heap1.push(y).unwrap();
        assert_eq!(heap1.len(), i);
        let min = &vector[0..i].iter().fold(f64::INFINITY, |a, b| a.min(b.0));
        assert_eq!(heap1.peek().unwrap().0.floor(), min.floor());
    }
    assert_eq!(heap1.len(), total);

    for i in 1..=total {
        let min = sortvec.remove(0);
        assert_eq!(heap1.peek().unwrap().0.floor(), min.0.floor());
        assert_eq!(heap1.pop().unwrap().0.floor(), min.0.floor());
        assert_eq!(heap1.len(), total - i);
    }
    assert_eq!(heap1.is_empty(), true);

    let mut rng = rand::thread_rng();

    let mut vector = Vec::new();

    for _i in 1..=total {
        let n: f64 = rng.gen_range(0.0..=max as f64);
        vector.push(Val(n))
    }
    let mut sortvec = vector.clone();
    sortvec.sort_by(|a, b| a.0.partial_cmp(&b.0).unwrap());

    heap1.bulk_push(vector.iter().collect()).unwrap();
    assert_eq!(heap1.len(), total);

    while !heap1.is_empty() {
        let min = sortvec.remove(0);
        sortvec.retain(|i| ((i.0 / 1.0).floor() as usize) > ((min.0 / 1.0).floor() as usize));
        let bulkpopped = heap1.bulk_pop();
        for pop in bulkpopped {
            assert_eq!(pop.0.floor(), min.0.floor());
        }
    }
    assert_eq!(heap1.is_empty(), true);
}

/// An element whose key is given in ticks, with a tag to tell equal keys apart.
#[derive(Debug, PartialEq, Clone, Copy)]
struct Tick(u64, u32);

impl HasKey for Tick {
    fn key_spec(&self) -> u64 {
        self.key()
    }

    fn key(&self) -> u64 {
        self.0
    }
}

#[test]
fn bulk_pop_returns_whole_buckets_lowest_first() {
    let ticks = [Tick(25, 0), Tick(3, 1), Tick(21, 2), Tick(7, 3), Tick(39, 4), Tick(0, 5)];
    let mut queue: ParBqueue<&Tick> = ParBqueue::new(4, 10);
    queue.bulk_push(ticks.iter().collect()).unwrap();
    assert_eq!(queue.len(), 6);
    assert_eq!(queue.bulk_pop(), vec![&ticks[1], &ticks[3], &ticks[5]]);
    assert_eq!(queue.len(), 3);
    assert_eq!(queue.bulk_pop(), vec![&ticks[0], &ticks[2]]);
    assert_eq!(queue.bulk_pop(), vec![&ticks[4]]);
    assert!(queue.is_empty());
    assert_eq!(queue.bulk_pop(), Vec::<&Tick>::new());
    assert!(queue.is_empty());
}

#[test]
fn bulk_pops_return_every_pushed_element_once() {
    let mut rng = rand::thread_rng();
    let ticks: Vec<Tick> = (0..2000).map(|i| Tick(rng.gen_range(0..1000), i)).collect();
    let mut queue: ParBqueue<&Tick> = ParBqueue::new(100, 10);
    queue.bulk_push(ticks.iter().collect()).unwrap();
    let mut seen = vec![false; ticks.len()];
    let mut last_bucket = None;
    let mut batches = 0;
    while !queue.is_empty() {
        let batch = queue.bulk_pop();
        assert!(!batch.is_empty());
        let bucket = batch[0].0 / 10;
        assert!(last_bucket < Some(bucket));
        last_bucket = Some(bucket);
        for t in batch {
            assert_eq!(t.0 / 10, bucket);
            assert!(!seen[t.1 as usize]);
            seen[t.1 as usize] = true;
        }
        batches += 1;
    }
    assert!(batches <= 100);
    assert!(seen.iter().all(|s| *s));
}

#[test]
fn bulk_push_with_a_misfit_files_nothing() {
    let ticks = [Tick(5, 0), Tick(40, 1), Tick(15, 2), Tick(99, 3)];
    let mut queue: ParBqueue<&Tick> = ParBqueue::new(4, 10);
    let err = queue.bulk_push(ticks.iter().collect()).unwrap_err();
    assert_eq!(err.index, 4);
    assert_eq!(err.bucketnum, 4);
    assert!(queue.is_empty());
    assert_eq!(queue.len(), 0);
}

#[test]
fn a_single_misfit_is_rejected() {
    let late = Tick(40, 0);
    let mut queue: ParBqueue<&Tick> = ParBqueue::new(4, 10);
    let err = queue.push(&late).unwrap_err();
    assert_eq!(err.index, 4);
    assert!(queue.is_empty());
}

#[test]
fn bulk_process_maps_the_lowest_bucket_and_files_the_results() {
    let ticks = [Tick(2, 0), Tick(12, 1), Tick(5, 2), Tick(8, 3), Tick(31, 4)];
    let later = [Tick(22, 10), Tick(35, 12), Tick(9, 13)];
    let mut queue: ParBqueue<&Tick> = ParBqueue::new(4, 10);
    queue.bulk_push(ticks.iter().collect()).unwrap();
    let served = queue
        .bulk_process(|t: &Tick| match t.1 {
            0 => Some(&later[0]),
            2 => Some(&later[1]),
            3 => Some(&later[2]),
            _ => None,
        })
        .unwrap();
    assert_eq!(served, 3);
    assert_eq!(queue.len(), 5);
    assert_eq!(queue.bulk_pop(), vec![&later[2]]);
    assert_eq!(queue.bulk_pop(), vec![&ticks[1]]);
    assert_eq!(queue.bulk_pop(), vec![&later[0]]);
    assert_eq!(queue.bulk_pop(), vec![&ticks[4], &later[1]]);
    assert!(queue.is_empty());
}

#[test]
fn bulk_process_keeps_the_order_of_a_large_batch() {
    let first: Vec<Tick> = (0..5000).map(|i| Tick(3, i)).collect();
    let second: Vec<Tick> = (0..5000).map(|i| Tick(17, i)).collect();
    let mut queue: ParBqueue<&Tick> = ParBqueue::new(2, 10);
    queue.bulk_push(first.iter().collect()).unwrap();
    let served = queue
        .bulk_process(|t: &Tick| if t.1 % 3 == 0 { None } else { Some(&second[t.1 as usize]) })
        .unwrap();
    assert_eq!(served, 5000);
    let batch = queue.bulk_pop();
    let expected: Vec<&Tick> = second.iter().filter(|t| t.1 % 3 != 0).collect();
    assert_eq!(batch, expected);
    assert!(queue.is_empty());
}

#[test]
fn bulk_process_with_a_misfit_result_leaves_the_batch_out() {
    let ticks = [Tick(2, 0), Tick(12, 1)];
    let misfit = Tick(40, 2);
    let mut queue: ParBqueue<&Tick> = ParBqueue::new(4, 10);
    queue.bulk_push(ticks.iter().collect()).unwrap();
    let err = queue.bulk_process(|_t: &Tick| Some(&misfit)).unwrap_err();
    assert_eq!(err.index, 4);
    assert_eq!(queue.len(), 1);
    assert_eq!(queue.pop(), Some(&ticks[1]));
}

#[test]
fn bulk_process_on_an_empty_queue_serves_nothing() {
    let mut queue: ParBqueue<&Tick> = ParBqueue::new(4, 10);
    assert_eq!(queue.bulk_process(|t: &Tick| Some(t)), Ok(0));
    assert!(queue.is_empty());
}

#[test]
fn pop_takes_the_element_that_peek_shows() {
    let ticks = [Tick(14, 0), Tick(11, 1), Tick(19, 2)];
    let mut queue: ParBqueue<&Tick> = ParBqueue::new(4, 10);
    for t in &ticks {
        queue.push(t).unwrap();
    }
    assert_eq!(queue.peek(), Some(&ticks[0]));
    assert_eq!(queue.pop(), Some(&ticks[0]));
    assert_eq!(queue.peek(), Some(&ticks[1]));
    assert_eq!(queue.pop(), Some(&ticks[1]));
    assert_eq!(queue.pop(), Some(&ticks[2]));
    assert_eq!(queue.pop(), None);
    assert_eq!(queue.peek(), None);
}

#[test]
fn discard_none_keeps_what_is_present_in_order() {
    let results = vec![None, Some(4), Some(1), None, None, Some(9)];
    assert_eq!(discard_none(&results), vec![4, 1, 9]);
    assert_eq!(discard_none(&Vec::<Option<u8>>::new()), Vec::<u8>::new());
}
