//! The single-threaded bucket queue.

use crate::buckets::{
    after_pop, after_push, cursor_of, drain_order, empty_buckets, filed_by, front,
    lemma_all_empty_total, lemma_cursor_unique, lemma_empty_iff_cursor_at_end, lemma_scan_from,
    lemma_total_of_prefix, total,
};
use crate::key::{bucket_index, key_slots, slot_of, ConfigurationError, HasKey};
use crate::queue::SeqentialPriorityQueue;
use std::collections::VecDeque;
use vstd::prelude::*;

verus! {

/// A priority queue that files each element into the bucket
/// `key / bucketwidth` and serves the lowest non-empty bucket first, oldest
/// element first within a bucket.
#[derive(Debug)]
pub struct Bqueue<T> {
    bucketwidth: u64,
    data: Vec<VecDeque<T>>,
    start: usize,
}

impl<T> View for Bqueue<T> {
    type V = Seq<Seq<T>>;

    /// The buckets, lowest index first, each with its oldest element first.
    closed spec fn view(&self) -> Seq<Seq<T>> {
        Seq::new(self.data@.len(), |i: int| self.data@[i]@)
    }
}

impl<'a, T: HasKey> Bqueue<&'a T> {
    /// The number of keys that one bucket spans.
    pub closed spec fn width(&self) -> u64 {
        self.bucketwidth
    }

    /// The stored cursor.
    pub closed spec fn cursor(&self) -> int {
        self.start as int
    }

    /// The bucket index that this queue assigns to an element.
    pub open spec fn slots(&self) -> spec_fn(&'a T) -> int {
        key_slots::<T>(self.width())
    }

    /// The queue's invariant: buckets have a positive width, the stored cursor
    /// is the lowest non-empty bucket (or the end), and every element sits in
    /// the bucket of its key.
    pub open spec fn wf(&self) -> bool {
        &&& self.width() > 0
        &&& self.cursor() == cursor_of(self@)
        &&& filed_by(self@, self.slots())
    }

    /// Creates a queue of `bucketnum` empty buckets, each `bucketwidth` keys wide.
    pub fn new(bucketnum: usize, bucketwidth: u64) -> (q: Self)
        requires
            bucketwidth > 0,
        ensures
            q.wf(),
            q.width() == bucketwidth,
            q.cursor() == bucketnum,
            q@ == empty_buckets::<&'a T>(bucketnum as nat),
            q.contents().len() == 0,
    {
        let mut data: Vec<VecDeque<&'a T>> = Vec::new();
        let mut i: usize = 0;
        while i < bucketnum
            invariant
                i <= bucketnum,
                data@.len() == i,
                forall|k: int| 0 <= k < i ==> (#[trigger] data@[k])@ == Seq::<&'a T>::empty(),
            decreases bucketnum - i,
        {
            data.push(VecDeque::new());
            i += 1;
        }
        let q = Bqueue { bucketwidth, data, start: bucketnum };
        proof {
            assert(q@ =~= empty_buckets::<&'a T>(bucketnum as nat));
            lemma_cursor_unique(q@, bucketnum as int);
            lemma_all_empty_total(q@);
            drain_order(q@).to_multiset_ensures();
        }
        q
    }

    /// Files `elem` at the back of the bucket of its key. A key whose bucket
    /// index is not below the number of buckets is rejected and the queue is
    /// left as it was.
    pub fn push(&mut self, elem: &'a T) -> (r: Result<(), ConfigurationError>)
        requires
            old(self).wf(),
        ensures
            final(self).wf(),
            final(self).width() == old(self).width(),
            final(self)@.len() == old(self)@.len(),
            match r {
                Ok(_) => {
                    &&& slot_of(elem.key_spec(), old(self).width()) < old(self)@.len()
                    &&& final(self).cursor() == if slot_of(elem.key_spec(), old(self).width()) < old(
                        self,
                    ).cursor() {
                        slot_of(elem.key_spec(), old(self).width())
                    } else {
                        old(self).cursor()
                    }
                    &&& final(self)@ == after_push(
                        old(self)@,
                        slot_of(elem.key_spec(), old(self).width()),
                        elem,
                    )
                },
                Err(e) => {
                    &&& slot_of(elem.key_spec(), old(self).width()) >= old(self)@.len()
                    &&& final(self)@ == old(self)@
                    &&& e.index == slot_of(elem.key_spec(), old(self).width())
                    &&& e.bucketnum == old(self)@.len()
                },
            },
    {
        let index = bucket_index(elem.key(), self.bucketwidth);
        if index >= self.data.len() as u64 {
            return Err(ConfigurationError { index, bucketnum: self.data.len() });
        }
        let i = index as usize;
        proof {
            lemma_scan_from(self@, 0);
        }
        self.data[i].push_back(elem);
        if i < self.start {
            self.start = i;
        }
        proof {
            assert(self@ =~= after_push(old(self)@, i as int, elem));
            lemma_cursor_unique(self@, self.start as int);
        }
        Ok(())
    }

    /// Removes and returns the oldest element of the lowest non-empty bucket,
    /// or returns `None` if the queue is empty.
    pub fn pop(&mut self) -> (r: Option<&'a T>)
        requires
            old(self).wf(),
        ensures
            final(self).wf(),
            final(self).width() == old(self).width(),
            final(self)@.len() == old(self)@.len(),
            final(self).cursor() >= old(self).cursor(),
            r == front(old(self)@),
            final(self)@ == after_pop(old(self)@),
    {
        if self.is_empty() {
            return None;
        }
        proof {
            lemma_scan_from(self@, 0);
        }
        let y = self.data[self.start].pop_front();
        proof {
            assert(self@ =~= after_pop(old(self)@));
        }
        while self.start < self.data.len() && self.data[self.start].len() == 0
            invariant
                old(self).start <= self.start <= self.data@.len(),
                self.bucketwidth == old(self).bucketwidth,
                self@ == after_pop(old(self)@),
                forall|k: int| 0 <= k < self.start ==> (#[trigger] self@[k]).len() == 0,
            decreases self.data@.len() - self.start,
        {
            self.start = self.start + 1;
        }
        proof {
            lemma_cursor_unique(self@, self.start as int);
        }
        y
    }

    /// Returns the element that the next `pop` would return, without removing it.
    pub fn peek(&self) -> (r: Option<&'a T>)
        requires
            self.wf(),
        ensures
            r == front(self@),
    {
        if self.is_empty() {
            None
        } else {
            proof {
                lemma_scan_from(self@, 0);
            }
            Some(self.data[self.start][0])
        }
    }

    /// Tells how many elements the queue holds.
    pub fn len(&self) -> (n: usize)
        requires
            self.wf(),
            total(self@) <= usize::MAX,
        ensures
            n == total(self@),
    {
        let mut n: usize = 0;
        let mut i: usize = 0;
        proof {
            lemma_total_of_prefix(self@, 0);
        }
        while i < self.data.len()
            invariant
                i <= self@.len(),
                self@.len() == self.data@.len(),
                n == total(self@.take(i as int)),
                total(self@) <= usize::MAX,
            decreases self@.len() - i,
        {
            proof {
                lemma_total_of_prefix(self@, i as int);
                lemma_total_of_prefix(self@, i + 1);
            }
            n = n + self.data[i].len();
            i += 1;
        }
        proof {
            lemma_total_of_prefix(self@, i as int);
        }
        n
    }

    /// Tells whether the queue holds no element.
    pub fn is_empty(&self) -> (r: bool)
        requires
            self.wf(),
        ensures
            r == (total(self@) == 0),
            r == front(self@).is_none(),
    {
        proof {
            lemma_empty_iff_cursor_at_end(self@);
        }
        self.start >= self.data.len()
    }
}

} // verus!
