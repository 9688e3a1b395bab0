//! The exact-order backend with batch operations: a binary heap that gives out
//! up to a fixed number of its smallest elements at a time.

use crate::batch::{answers, discard_none, par_map, present};
use crate::binaryheap::BinaryHeap;
use crate::key::{ConfigurationError, HasKey};
use crate::queue::{
    all_have_room, batch_step, exact_ranking, ParallelPriorityQueue, SeqentialPriorityQueue,
};
use vstd::multiset::Multiset;
use vstd::prelude::*;

verus! {

/// A binary heap whose bulk pop returns at most `bucket_size` elements.
#[derive(Debug)]
pub struct BatchedBinaryHeap<'a, E> {
    heap: BinaryHeap<&'a E>,
    bucket_size: usize,
}

impl<'a, E: HasKey + Send + Sync> BatchedBinaryHeap<'a, E> {
    /// The elements that the heap holds.
    pub closed spec fn view(&self) -> Multiset<&'a E> {
        self.heap@
    }

    /// The largest number of elements that one bulk pop returns.
    pub closed spec fn batch_limit(&self) -> usize {
        self.bucket_size
    }

    /// The invariant: the heap is in order and a batch may hold an element.
    pub closed spec fn wf(&self) -> bool {
        self.heap.wf() && self.bucket_size > 0
    }

    /// Creates an empty heap whose batches hold at most `bucket_size` elements.
    pub fn new(bucket_size: usize) -> (h: Self)
        requires
            bucket_size > 0,
        ensures
            h.wf(),
            h@ == Multiset::<&'a E>::empty(),
            h.batch_limit() == bucket_size,
            h.contents().len() == 0,
    {
        BatchedBinaryHeap { heap: BinaryHeap::new(), bucket_size }
    }
}

impl<'a, E: HasKey + Send + Sync> SeqentialPriorityQueue<'a, E> for BatchedBinaryHeap<'a, E> {
    open spec fn inv(&self) -> bool {
        self.wf()
    }

    open spec fn contents(&self) -> Multiset<&'a E> {
        self@
    }

    open spec fn ranking(&self) -> spec_fn(u64) -> int {
        exact_ranking()
    }

    open spec fn ranks(&self) -> nat {
        0x1_0000_0000_0000_0000
    }

    proof fn lemma_ranking_monotone(&self, a: u64, b: u64) {
    }

    fn push(&mut self, e: &'a E) -> (r: Result<(), ConfigurationError>) {
        self.heap.push(e);
        Ok(())
    }

    fn pop(&mut self) -> (r: Option<&'a E>) {
        self.heap.pop()
    }

    fn is_empty(&self) -> (r: bool) {
        self.heap.is_empty()
    }
}

impl<'a, E: HasKey + Send + Sync> ParallelPriorityQueue<'a, E> for BatchedBinaryHeap<'a, E> {
    fn bulk_push(&mut self, es: Vec<&'a E>) -> (r: Result<(), ConfigurationError>) {
        broadcast use vstd::multiset::group_multiset_axioms;
        let mut i: usize = 0;
        proof {
            broadcast use vstd::seq_lib::group_to_multiset_ensures;
            assert(es@.take(0).to_multiset() =~= Multiset::<&'a E>::empty());
            assert(self@ =~= self@.add(es@.take(0).to_multiset()));
        }
        while i < es.len()
            invariant
                i <= es@.len(),
                self.wf(),
                self.bucket_size == old(self).bucket_size,
                self@ == old(self)@.add(es@.take(i as int).to_multiset()),
            decreases es@.len() - i,
        {
            proof {
                assert(es@.take(i + 1) =~= es@.take(i as int).push(es@[i as int]));
                vstd::seq_lib::to_multiset_build(es@.take(i as int), es@[i as int]);
                assert(old(self)@.add(es@.take(i as int).to_multiset()).insert(es@[i as int])
                    =~= old(self)@.add(es@.take(i + 1).to_multiset()));
            }
            self.heap.push(es[i]);
            i += 1;
        }
        proof {
            assert(es@.take(i as int) =~= es@);
        }
        Ok(())
    }

    fn bulk_pop(&mut self) -> (batch: Vec<&'a E>) {
        broadcast use vstd::multiset::group_multiset_axioms;
        let mut ret: Vec<&'a E> = Vec::new();
        proof {
            broadcast use vstd::seq_lib::group_to_multiset_ensures;
            assert(ret@.to_multiset() =~= Multiset::<&'a E>::empty());
            assert(self@.add(ret@.to_multiset()) =~= self@);
        }
        while ret.len() < self.bucket_size && !self.heap.is_empty()
            invariant
                self.wf(),
                self.bucket_size == old(self).bucket_size,
                old(self)@ == self@.add(ret@.to_multiset()),
                ret@.len() == 0 ==> self@ == old(self)@,
                forall|x: &'a E, y: &'a E|
                    #![trigger ret@.to_multiset().count(x), self@.count(y)]
                    ret@.to_multiset().count(x) > 0 && self@.count(y) > 0 ==> x.key_spec() <= y.key_spec(),
            decreases self@.len(),
        {
            let ghost before = ret@;
            let ghost held = self@;
            let m = self.heap.pop().unwrap();
            ret.push(m);
            proof {
                vstd::seq_lib::to_multiset_build(before, m);
                assert(old(self)@ =~= self@.add(ret@.to_multiset()));
                assert forall|x: &'a E, y: &'a E|
                    #![trigger ret@.to_multiset().count(x), self@.count(y)]
                    ret@.to_multiset().count(x) > 0 && self@.count(y) > 0 implies x.key_spec()
                    <= y.key_spec() by {
                    assert(held.count(y) > 0);
                    if before.to_multiset().count(x) > 0 {
                    } else {
                        assert(x == m);
                    }
                }
            }
        }
        proof {
            broadcast use vstd::seq_lib::group_to_multiset_ensures;
            let q = old(self)@;
            assert(self@ =~= q.sub(ret@.to_multiset()));
            assert(ret@.to_multiset().subset_of(q));
            if ret@.len() == 0 {
                assert(ret@.to_multiset().len() == 0);
            } else {
                assert(q.count(ret@[0]) > 0) by {
                    assert(ret@.to_multiset().count(ret@[0]) > 0);
                }
            }
        }
        ret
    }

    fn bulk_process<F>(&mut self, f: F) -> (r: Result<usize, ConfigurationError>)
        where
            F: Fn(&'a E) -> Option<&'a E> + Sync + Send,
    {
        let ghost q = self@;
        let bucket = self.bulk_pop();
        let ghost batch = bucket@;
        let ghost rest = self@;
        let count = bucket.len();
        proof {
            broadcast use vstd::seq_lib::group_to_multiset_ensures;
            assert forall|i: int| 0 <= i < batch.len() implies call_requires(f, (#[trigger] batch[i],)) by {
                assert(batch.to_multiset().count(batch[i]) > 0);
                assert(q.count(batch[i]) > 0);
            }
        }
        let mapped = par_map(bucket, &f);
        let kept = discard_none(&mapped);
        let pushed = self.bulk_push(kept);
        proof {
            assert(answers(f, batch, mapped@));
            assert(all_have_room(exact_ranking(), self.ranks(), present(mapped@)));
            assert(batch_step(
                q,
                exact_ranking(),
                self.ranks(),
                f,
                batch,
                mapped@,
                Ok::<usize, ConfigurationError>(count),
                self@,
            ));
        }
        Ok(count)
    }
}

} // verus!
