use calendar_queue::{
    BatchedBinaryHeap, BinaryHeap, HasKey, ParallelPriorityQueue, SeqentialPriorityQueue,
};
use rand::Rng;

/// An element whose key is given in ticks, with a tag to tell equal keys apart.
#[derive(Debug, PartialEq, Clone, Copy)]
struct Tick(u64, u32);

impl HasKey for Tick {
    fn key_spec(&self) -> u64 {
        self.key()
    }

    fn key(&self) -> u64 {
        self.0
    }
}

#[test]
fn the_heap_serves_the_smallest_key_first() {
    let ticks = [Tick(7, 0), Tick(3, 1), Tick(9, 2), Tick(1, 3), Tick(4, 4)];
    let mut heap: BinaryHeap<&Tick> = BinaryHeap::new();
    assert!(heap.is_empty());
    assert_eq!(heap.peek(), None);
    assert_eq!(heap.pop(), None);
    for t in &ticks {
        heap.push(t);
    }
    assert_eq!(heap.len(), 5);
    assert_eq!(heap.peek(), Some(&ticks[3]));
    assert_eq!(heap.len(), 5);
    let mut out = Vec::new();
    while let Some(t) = heap.pop() {
        out.push(t.0);
    }
    assert_eq!(out, vec![1, 3, 4, 7, 9]);
    assert!(heap.is_empty());
    assert_eq!(heap.len(), 0);
}

#[test]
fn the_heap_sorts_random_keys() {
    let mut rng = rand::thread_rng();
    let ticks: Vec<Tick> = (0..3000).map(|i| Tick(rng.gen_range(0..500), i)).collect();
    let mut heap: BinaryHeap<&Tick> = BinaryHeap::new();
    for t in &ticks {
        heap.push(t);
    }
    let mut sorted: Vec<u64> = ticks.iter().map(|t| t.0).collect();
    sorted.sort();
    let mut seen = vec![false; ticks.len()];
    for expected in sorted {
        assert_eq!(heap.peek().map(|t| t.0), Some(expected));
        let t = heap.pop().unwrap();
        assert_eq!(t.0, expected);
        assert!(!seen[t.1 as usize]);
        seen[t.1 as usize] = true;
    }
    assert!(heap.is_empty());
}

#[test]
fn pushes_between_pops_keep_the_order() {
    let ticks = [Tick(5, 0), Tick(8, 1), Tick(2, 2), Tick(6, 3), Tick(1, 4)];
    let mut heap: BinaryHeap<&Tick> = BinaryHeap::new();
    heap.push(&ticks[0]);
    heap.push(&ticks[1]);
    assert_eq!(heap.pop(), Some(&ticks[0]));
    heap.push(&ticks[2]);
    heap.push(&ticks[3]);
    assert_eq!(heap.pop(), Some(&ticks[2]));
    heap.push(&ticks[4]);
    assert_eq!(heap.pop(), Some(&ticks[4]));
    assert_eq!(heap.pop(), Some(&ticks[3]));
    assert_eq!(heap.pop(), Some(&ticks[1]));
    assert_eq!(heap.pop(), None);
}

#[test]
fn the_heap_takes_every_key_as_a_queue() {
    let ticks = [Tick(u64::MAX, 0), Tick(0, 1)];
    let mut heap: BinaryHeap<&Tick> = BinaryHeap::new();
    assert!(SeqentialPriorityQueue::is_empty(&heap));
    assert_eq!(SeqentialPriorityQueue::push(&mut heap, &ticks[0]), Ok(()));
    assert_eq!(SeqentialPriorityQueue::push(&mut heap, &ticks[1]), Ok(()));
    assert_eq!(SeqentialPriorityQueue::pop(&mut heap), Some(&ticks[1]));
    assert_eq!(SeqentialPriorityQueue::pop(&mut heap), Some(&ticks[0]));
    assert_eq!(SeqentialPriorityQueue::pop(&mut heap), None);
}

#[test]
fn a_bulk_pop_of_the_heap_returns_the_smallest_up_to_the_limit() {
    let ticks: Vec<Tick> =
        [9, 2, 7, 4, 1, 8, 3].iter().enumerate().map(|(i, k)| Tick(*k, i as u32)).collect();
    let mut heap: BatchedBinaryHeap<Tick> = BatchedBinaryHeap::new(3);
    heap.bulk_push(ticks.iter().collect()).unwrap();
    let keys = |batch: Vec<&Tick>| batch.iter().map(|t| t.0).collect::<Vec<u64>>();
    assert_eq!(keys(heap.bulk_pop()), vec![1, 2, 3]);
    assert_eq!(keys(heap.bulk_pop()), vec![4, 7, 8]);
    assert!(!heap.is_empty());
    assert_eq!(keys(heap.bulk_pop()), vec![9]);
    assert!(heap.is_empty());
    assert_eq!(keys(heap.bulk_pop()), Vec::<u64>::new());
}

#[test]
fn a_bulk_process_of_the_heap_replaces_the_batch_by_the_results() {
    let ticks = [Tick(4, 0), Tick(1, 1), Tick(6, 2), Tick(2, 3)];
    let later = [Tick(5, 10), Tick(3, 11)];
    let mut heap: BatchedBinaryHeap<Tick> = BatchedBinaryHeap::new(2);
    for t in &ticks {
        heap.push(t).unwrap();
    }
    let served = heap
        .bulk_process(|t: &Tick| match t.1 {
            1 => Some(&later[0]),
            3 => Some(&later[1]),
            _ => None,
        })
        .unwrap();
    assert_eq!(served, 2);
    assert_eq!(heap.pop(), Some(&later[1]));
    assert_eq!(heap.pop(), Some(&ticks[0]));
    assert_eq!(heap.pop(), Some(&later[0]));
    assert_eq!(heap.pop(), Some(&ticks[2]));
    assert_eq!(heap.pop(), None);
    assert_eq!(heap.bulk_process(|t: &Tick| Some(t)), Ok(0));
}
