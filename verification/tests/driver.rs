use calendar_queue::driver::{
    drain_window, pair_code, process_next, process_sequential, process_window, seed_window,
};
use calendar_queue::event::next_same_pair;
use calendar_queue::pardriver::{first_of_each_pair, process_parallel, process_window_parallel};
use calendar_queue::key::bucket_index;
use calendar_queue::windows::{
    max_time, partition, required_buckets, window_of, Occurrence, WindowError, WINDOW_COUNT,
};
use calendar_queue::{BatchedBinaryHeap, BinaryHeap, Bqueue, HasKey, KeyVal, ParBqueue};
use rand::Rng;
use std::cmp::Ordering;

/// A window from `(pair, time)` entries, each record with its position.
fn window(entries: &[((u32, u32), u64)]) -> Vec<KeyVal> {
    entries.iter().enumerate().map(|(index, (id, key))| KeyVal { key: *key, id: *id, index }).collect()
}

/// The window in which pair (1, 2) stands at positions 3 and 7.
fn sample() -> Vec<KeyVal> {
    window(&[
        ((0, 1), 1),
        ((2, 3), 2),
        ((4, 5), 7),
        ((1, 2), 5),
        ((0, 1), 6),
        ((6, 7), 4),
        ((2, 3), 8),
        ((1, 2), 9),
        ((4, 5), 10),
    ])
}

#[test]
fn only_the_first_record_of_a_pair_is_queued_at_first() {
    let w = sample();
    let mut queue: Bqueue<&KeyVal> = Bqueue::new(12, 1);
    seed_window(&w, &mut queue).unwrap();
    assert_eq!(queue.len(), 5);
    let mut queued = Vec::new();
    while let Some(k) = queue.pop() {
        queued.push(k.index);
    }
    assert_eq!(queued, vec![0, 1, 5, 3, 2]);
}

#[test]
fn the_second_record_of_a_pair_is_queued_when_the_first_is_served() {
    let w = sample();
    let mut queue: Bqueue<&KeyVal> = Bqueue::new(12, 1);
    seed_window(&w, &mut queue).unwrap();
    assert_eq!(process_next(&w, &mut queue), Ok(Some(0)));
    assert_eq!(process_next(&w, &mut queue), Ok(Some(1)));
    assert_eq!(process_next(&w, &mut queue), Ok(Some(5)));
    assert_eq!(queue.peek().map(|k| (k.id, k.key, k.index)), Some(((1, 2), 5, 3)));
    assert_eq!(queue.len(), 4);
    assert_eq!(process_next(&w, &mut queue), Ok(Some(3)));
    assert_eq!(queue.len(), 4);
    let mut of_pair = Vec::new();
    let mut rest = Vec::new();
    while let Some(k) = queue.pop() {
        if k.id == (1, 2) {
            of_pair.push((k.key, k.index));
        } else {
            rest.push(k.index);
        }
    }
    assert_eq!(of_pair, vec![(9, 7)]);
    assert_eq!(rest, vec![4, 2, 6]);
}

#[test]
fn a_window_is_served_in_time_order_each_record_once() {
    let w = sample();
    let mut queue: Bqueue<&KeyVal> = Bqueue::new(12, 1);
    let trace = process_window(&w, &mut queue).unwrap();
    assert_eq!(trace, vec![0, 1, 5, 3, 4, 2, 6, 7, 8]);
    assert!(queue.is_empty());
    let mut heap: BinaryHeap<&KeyVal> = BinaryHeap::new();
    assert_eq!(process_window(&w, &mut heap).unwrap(), vec![0, 1, 5, 3, 4, 2, 6, 7, 8]);
    assert!(heap.is_empty());
}

#[test]
fn wide_buckets_serve_a_bucket_in_queueing_order() {
    let w = sample();
    let mut queue: Bqueue<&KeyVal> = Bqueue::new(3, 5);
    let trace = process_window(&w, &mut queue).unwrap();
    assert_eq!(trace, vec![0, 1, 5, 2, 3, 4, 6, 7, 8]);
}

#[test]
fn draining_an_empty_queue_serves_nothing() {
    let w = sample();
    let mut queue: Bqueue<&KeyVal> = Bqueue::new(12, 1);
    assert_eq!(process_next(&w, &mut queue), Ok(None));
    assert_eq!(drain_window(&w, &mut queue), Ok(vec![]));
    let empty: Vec<KeyVal> = Vec::new();
    assert_eq!(process_window(&empty, &mut queue), Ok(vec![]));
    assert_eq!(process_window_parallel(&empty, &mut ParBqueue::new(1, 1)), Ok(0));
}

#[test]
fn a_first_record_without_room_fails_the_seeding() {
    let w = sample();
    let mut queue: Bqueue<&KeyVal> = Bqueue::new(7, 1);
    let err = seed_window(&w, &mut queue).unwrap_err();
    assert_eq!(err.index, 7);
    assert_eq!(err.bucketnum, 7);
    assert_eq!(queue.len(), 2);
}

#[test]
fn a_later_record_without_room_fails_the_run() {
    let w = sample();
    let mut queue: Bqueue<&KeyVal> = Bqueue::new(8, 1);
    seed_window(&w, &mut queue).unwrap();
    let err = drain_window(&w, &mut queue).unwrap_err();
    assert_eq!(err.index, 8);
    let mut queue: Bqueue<&KeyVal> = Bqueue::new(10, 1);
    assert_eq!(process_window(&w, &mut queue).unwrap_err().index, 10);
    let mut queue: ParBqueue<&KeyVal> = ParBqueue::new(10, 1);
    assert_eq!(process_window_parallel(&w, &mut queue).unwrap_err().index, 10);
    let mut queue: ParBqueue<&KeyVal> = ParBqueue::new(11, 1);
    assert_eq!(process_window_parallel(&w, &mut queue), Ok(9));
}

#[test]
fn the_next_record_of_a_pair_is_the_nearest_after_it() {
    let w = sample();
    assert_eq!(next_same_pair(&w, &w[3]).map(|k| k.index), Some(7));
    assert_eq!(next_same_pair(&w, &w[7]).map(|k| k.index), None);
    assert_eq!(next_same_pair(&w, &w[0]).map(|k| k.index), Some(4));
    assert_eq!(next_same_pair(&w, &w[5]).map(|k| k.index), None);
    assert_eq!(next_same_pair(&w, &w[8]).map(|k| k.index), None);
    let beyond = KeyVal { key: 0, id: (0, 1), index: 9 };
    assert_eq!(next_same_pair(&w, &beyond).map(|k| k.index), None);
    let three_times = window(&[((1, 1), 0), ((1, 1), 1), ((1, 1), 2)]);
    assert_eq!(next_same_pair(&three_times, &three_times[0]).map(|k| k.index), Some(1));
}

#[test]
fn the_first_records_of_the_pairs_are_collected_in_window_order() {
    let w = sample();
    let first: Vec<usize> = first_of_each_pair(&w).iter().map(|k| k.index).collect();
    assert_eq!(first, vec![0, 1, 2, 3, 5]);
    assert_eq!(first_of_each_pair(&Vec::new()).len(), 0);
}

#[test]
fn pair_codes_tell_pairs_apart() {
    assert_eq!(pair_code((0, 0)), 0);
    assert_eq!(pair_code((0, 1)), 1);
    assert_eq!(pair_code((1, 0)), 4294967296);
    assert_eq!(pair_code((1, 2)), 4294967298);
    assert_ne!(pair_code((1, 2)), pair_code((2, 1)));
    assert_eq!(pair_code((u32::MAX, u32::MAX)), u64::MAX);
}

#[test]
fn all_windows_are_served_and_counted() {
    let data = vec![sample(), Vec::new(), sample(), window(&[((9, 9), 3)])];
    let mut queue: Bqueue<&KeyVal> = Bqueue::new(11, 1);
    assert_eq!(process_sequential(&data, &mut queue), Ok(19));
    let mut heap: BinaryHeap<&KeyVal> = BinaryHeap::new();
    assert_eq!(process_sequential(&data, &mut heap), Ok(19));
    let mut queue: ParBqueue<&KeyVal> = ParBqueue::new(11, 1);
    assert_eq!(process_sequential(&data, &mut queue), Ok(19));
    assert_eq!(process_parallel(&data, &mut queue), Ok(19));
    let mut heap: BatchedBinaryHeap<KeyVal> = BatchedBinaryHeap::new(24);
    assert_eq!(process_parallel(&data, &mut heap), Ok(19));
    assert_eq!(process_sequential(&data, &mut heap), Ok(19));
    let mut small: ParBqueue<&KeyVal> = ParBqueue::new(10, 1);
    assert!(process_parallel(&data, &mut small).is_err());
    let mut small: Bqueue<&KeyVal> = Bqueue::new(10, 1);
    assert!(process_sequential(&data, &mut small).is_err());
}

#[test]
fn every_record_of_a_random_window_is_served_once_in_pair_order() {
    let mut rng = rand::thread_rng();
    let mut time = 0;
    let entries: Vec<((u32, u32), u64)> = (0..3000)
        .map(|_| {
            time += rng.gen_range(0..4);
            ((rng.gen_range(0..20), rng.gen_range(0..20)), time)
        })
        .collect();
    let w = window(&entries);
    let mut queue: Bqueue<&KeyVal> = Bqueue::new(required_buckets(time, 7).unwrap(), 7);
    let trace = process_window(&w, &mut queue).unwrap();
    assert_eq!(trace.len(), w.len());
    let mut position = vec![usize::MAX; w.len()];
    for (at, p) in trace.iter().enumerate() {
        assert_eq!(position[*p], usize::MAX);
        position[*p] = at;
    }
    for i in 0..w.len() {
        if let Some(k) = next_same_pair(&w, &w[i]) {
            assert!(position[i] < position[k.index]);
        }
    }
    for pair in trace.windows(2) {
        assert!(w[pair[0]].key / 7 <= w[pair[1]].key / 7);
    }
    let mut queue: ParBqueue<&KeyVal> = ParBqueue::new(required_buckets(time, 7).unwrap(), 7);
    assert_eq!(process_window_parallel(&w, &mut queue), Ok(3000));
    assert!(queue.is_empty());
}

#[test]
fn records_are_dealt_into_windows_in_order() {
    let records = vec![
        Occurrence { id: (0, 1), time: 0 },
        Occurrence { id: (2, 3), time: 99 },
        Occurrence { id: (0, 1), time: 25 },
        Occurrence { id: (4, 5), time: 24 },
        Occurrence { id: (2, 3), time: 50 },
        Occurrence { id: (0, 1), time: 1 },
        Occurrence { id: (4, 5), time: 74 },
    ];
    assert_eq!(max_time(&records), 99);
    let data = partition(&records, 100, 4).unwrap();
    assert_eq!(data.len(), 4);
    let shape = |w: &Vec<KeyVal>| w.iter().map(|k| (k.id, k.key, k.index)).collect::<Vec<_>>();
    assert_eq!(shape(&data[0]), vec![((0, 1), 0, 0), ((4, 5), 24, 1), ((0, 1), 1, 2)]);
    assert_eq!(shape(&data[1]), vec![((0, 1), 25, 0)]);
    assert_eq!(shape(&data[2]), vec![((2, 3), 50, 0), ((4, 5), 74, 1)]);
    assert_eq!(shape(&data[3]), vec![((2, 3), 99, 0)]);
    let mut queue: Bqueue<&KeyVal> = Bqueue::new(required_buckets(99, 10).unwrap(), 10);
    assert_eq!(process_sequential(&data, &mut queue), Ok(7));
}

#[test]
fn a_record_at_or_past_the_end_of_the_span_has_no_window() {
    let records = vec![
        Occurrence { id: (0, 1), time: 3 },
        Occurrence { id: (0, 1), time: 10 },
        Occurrence { id: (0, 1), time: 11 },
    ];
    assert_eq!(partition(&records, 10, 5), Err(WindowError { record: 1 }));
    assert_eq!(partition(&records, 11, 5), Err(WindowError { record: 2 }));
    assert_eq!(partition(&records, 12, 5).map(|d| d.len()), Ok(5));
    assert_eq!(partition(&records, 12, 0), Err(WindowError { record: 0 }));
    assert_eq!(partition(&records, 0, 5), Err(WindowError { record: 0 }));
    assert_eq!(partition(&Vec::new(), 0, 3).map(|d| d.len()), Ok(3));
    assert_eq!(max_time(&Vec::new()), 0);
}

#[test]
fn the_window_of_a_time_is_its_share_of_the_span() {
    assert_eq!(window_of(0, 1000, 500), Some(0));
    assert_eq!(window_of(1, 1000, 500), Some(0));
    assert_eq!(window_of(2, 1000, 500), Some(1));
    assert_eq!(window_of(999, 1000, 500), Some(499));
    assert_eq!(window_of(1000, 1000, 500), None);
    assert_eq!(window_of(7, 10, 3), Some(2));
    assert_eq!(window_of(6, 10, 3), Some(1));
    assert_eq!(window_of(u64::MAX - 1, u64::MAX, usize::MAX), Some(usize::MAX - 1));
    assert_eq!(window_of(5, 0, 3), None);
    assert_eq!(window_of(0, 0, 3), None);
    assert_eq!(window_of(0, 5, 0), None);
}

#[test]
fn the_required_buckets_hold_every_key_up_to_the_largest() {
    assert_eq!(required_buckets(500, 1), Some(501));
    assert_eq!(required_buckets(0, 1), Some(1));
    assert_eq!(required_buckets(100, 10), Some(11));
    assert_eq!(required_buckets(101, 10), Some(12));
    assert_eq!(required_buckets(99, 10), Some(11));
    assert_eq!(required_buckets(u64::MAX, 1), None);
    let n = required_buckets(101, 10).unwrap();
    let last = KeyVal { key: 101, id: (0, 0), index: 0 };
    let mut queue: Bqueue<&KeyVal> = Bqueue::new(n, 10);
    assert_eq!(queue.push(&last), Ok(()));
}

#[test]
fn records_compare_by_time_alone() {
    let a = KeyVal { key: 5, id: (1, 2), index: 0 };
    let b = KeyVal { key: 5, id: (3, 4), index: 9 };
    let c = KeyVal { key: 6, id: (1, 2), index: 0 };
    assert!(a == b);
    assert!(a != c);
    assert_eq!(a.partial_cmp(&b), Some(Ordering::Equal));
    assert_eq!(a.partial_cmp(&c), Some(Ordering::Less));
    assert_eq!(c.partial_cmp(&a), Some(Ordering::Greater));
    assert!(a < c);
    assert_eq!(c.key(), 6);
}

#[test]
fn the_bucket_index_is_the_whole_quotient() {
    assert_eq!(bucket_index(0, 7), 0);
    assert_eq!(bucket_index(6, 7), 0);
    assert_eq!(bucket_index(7, 7), 1);
    assert_eq!(bucket_index(500, 1), 500);
    assert_eq!(bucket_index(u64::MAX, 2), 9223372036854775807);
}

#[test]
fn a_run_is_cut_into_five_hundred_windows_by_default() {
    assert_eq!(WINDOW_COUNT, 500);
    let records: Vec<Occurrence> =
        (0..1000).map(|t| Occurrence { id: (t as u32 % 7, 0), time: t }).collect();
    let data = partition(&records, 1000, WINDOW_COUNT).unwrap();
    assert_eq!(data.len(), 500);
    for (v, window) in data.iter().enumerate() {
        let times: Vec<u64> = window.iter().map(|k| k.key).collect();
        assert_eq!(times, vec![2 * v as u64, 2 * v as u64 + 1]);
    }
}
