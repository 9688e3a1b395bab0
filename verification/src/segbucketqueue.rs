//! The bucket queue on lock-free buckets: each bucket is a segmented queue
//! that many threads could fill at once, and the queue holds light handles in
//! place of references.

use crate::buckets::{
    after_pop, after_push, after_push_all, all_fit, cursor_of, empty_buckets, filed_by, front,
    lemma_cursor_unique, lemma_empty_iff_cursor_at_end, lemma_misfit_unique, lemma_scan_from,
    lemma_total_of_prefix, misfit_from, total,
};
use crate::key::{bucket_index, lemma_slot_monotone, slot_of, ConfigurationError};
use crossbeam_queue::SegQueue;
use vstd::prelude::*;

verus! {

/// `crossbeam_queue::SegQueue`, an unbounded first-in first-out queue.
#[verifier::external_type_specification]
#[verifier::external_body]
#[verifier::reject_recursive_types(T)]
pub struct ExSegQueue<T>(SegQueue<T>);

/// What a bucket holds, oldest element first: each element is a key and a
/// handle.
pub uninterp spec fn seg_items(q: SegQueue<(u64, usize)>) -> Seq<(u64, usize)>;

/// `SegQueue::new`. Trusted: the new queue holds nothing.
#[verifier::external_body]
fn seg_new() -> (q: SegQueue<(u64, usize)>)
    ensures
        seg_items(q) == Seq::<(u64, usize)>::empty(),
{
    SegQueue::new()
}

/// `SegQueue::push`, on a queue that no other thread can reach. Trusted: the
/// element is added at the tail and the others stay as they are.
#[verifier::external_body]
fn seg_push(q: &mut SegQueue<(u64, usize)>, item: (u64, usize))
    ensures
        seg_items(*final(q)) == seg_items(*old(q)).push(item),
{
    q.push(item)
}

/// `SegQueue::pop`, on a queue that no other thread can reach. Trusted: the
/// head element leaves and is returned, or the queue is empty and `None` is
/// returned.
#[verifier::external_body]
fn seg_pop(q: &mut SegQueue<(u64, usize)>) -> (r: Option<(u64, usize)>)
    ensures
        match r {
            Some(item) => {
                &&& seg_items(*old(q)).len() > 0
                &&& item == seg_items(*old(q))[0]
                &&& seg_items(*final(q)) == seg_items(*old(q)).drop_first()
            },
            None => seg_items(*old(q)).len() == 0 && seg_items(*final(q)) == seg_items(*old(q)),
        },
{
    q.pop()
}

/// `SegQueue::is_empty`. Trusted: tells whether the queue holds no element.
#[verifier::external_body]
fn seg_is_empty(q: &SegQueue<(u64, usize)>) -> (r: bool)
    ensures
        r == (seg_items(*q).len() == 0),
{
    q.is_empty()
}

/// `SegQueue::len`. Trusted: returns the number of elements in the queue.
#[verifier::external_body]
fn seg_len(q: &SegQueue<(u64, usize)>) -> (n: usize)
    ensures
        n == seg_items(*q).len(),
{
    q.len()
}

/// The bucket that a handle's key falls into, for buckets `width` keys wide.
pub open spec fn handle_slots(width: u64) -> spec_fn((u64, usize)) -> int {
    |e: (u64, usize)| slot_of(e.0, width)
}

/// A bucket queue of handles: each element is a key and the index under
/// which its owner finds the event again.
#[derive(Debug)]
pub struct ParBqueue {
    bucketwidth: u64,
    data: Vec<SegQueue<(u64, usize)>>,
    start: usize,
}

impl View for ParBqueue {
    type V = Seq<Seq<(u64, usize)>>;

    /// The buckets, lowest index first, each with its oldest element first.
    closed spec fn view(&self) -> Seq<Seq<(u64, usize)>> {
        Seq::new(self.data@.len(), |i: int| seg_items(self.data@[i]))
    }
}

impl ParBqueue {
    /// The number of keys that one bucket spans.
    pub closed spec fn width(&self) -> u64 {
        self.bucketwidth
    }

    /// The stored cursor.
    pub closed spec fn cursor(&self) -> int {
        self.start as int
    }

    /// The queue's invariant: buckets have a positive width, the stored cursor
    /// is the lowest non-empty bucket (or the end), and every element sits in
    /// the bucket of its key.
    pub open spec fn wf(&self) -> bool {
        &&& self.width() > 0
        &&& self.cursor() == cursor_of(self@)
        &&& filed_by(self@, handle_slots(self.width()))
    }

    /// Creates a queue of `bucketnum` empty buckets, each `bucketwidth` keys wide.
    pub fn new(bucketnum: usize, bucketwidth: u64) -> (q: Self)
        requires
            bucketwidth > 0,
        ensures
            q.wf(),
            q.width() == bucketwidth,
            q.cursor() == bucketnum,
            q@ == empty_buckets::<(u64, usize)>(bucketnum as nat),
    {
        let mut data: Vec<SegQueue<(u64, usize)>> = Vec::with_capacity(bucketnum);
        let mut i: usize = 0;
        while i < bucketnum
            invariant
                i <= bucketnum,
                data@.len() == i,
                forall|k: int| 0 <= k < i ==> seg_items(#[trigger] data@[k]) == Seq::<(u64, usize)>::empty(),
            decreases bucketnum - i,
        {
            data.push(seg_new());
            i += 1;
        }
        let q = ParBqueue { start: bucketnum, bucketwidth, data };
        proof {
            assert(q@ =~= empty_buckets::<(u64, usize)>(bucketnum as nat));
            lemma_cursor_unique(q@, bucketnum as int);
        }
        q
    }

    /// Files `elem` at the back of the bucket of its key. A key whose bucket
    /// index is not below the number of buckets is rejected and the queue is
    /// left as it was.
    pub fn push(&mut self, elem: (u64, usize)) -> (r: Result<(), ConfigurationError>)
        requires
            old(self).wf(),
        ensures
            final(self).wf(),
            final(self).width() == old(self).width(),
            final(self)@.len() == old(self)@.len(),
            match r {
                Ok(_) => {
                    &&& slot_of(elem.0, old(self).width()) < old(self)@.len()
                    &&& final(self).cursor() == if slot_of(elem.0, old(self).width()) < old(self).cursor() {
                        slot_of(elem.0, old(self).width())
                    } else {
                        old(self).cursor()
                    }
                    &&& final(self)@ == after_push(old(self)@, slot_of(elem.0, old(self).width()), elem)
                },
                Err(e) => {
                    &&& slot_of(elem.0, old(self).width()) >= old(self)@.len()
                    &&& final(self)@ == old(self)@
                    &&& e.index == slot_of(elem.0, old(self).width())
                    &&& e.bucketnum == old(self)@.len()
                },
            },
    {
        let index = bucket_index(elem.0, self.bucketwidth);
        if index >= self.data.len() as u64 {
            return Err(ConfigurationError { index, bucketnum: self.data.len() });
        }
        let i = index as usize;
        proof {
            lemma_scan_from(self@, 0);
        }
        seg_push(&mut self.data[i], elem);
        if i < self.start {
            self.start = i;
        }
        proof {
            assert(self@ =~= after_push(old(self)@, i as int, elem));
            lemma_cursor_unique(self@, self.start as int);
        }
        Ok(())
    }

    /// Removes and returns the oldest element of the lowest non-empty bucket,
    /// or returns `None` if the queue is empty.
    pub fn pop(&mut self) -> (r: Option<(u64, usize)>)
        requires
            old(self).wf(),
        ensures
            final(self).wf(),
            final(self).width() == old(self).width(),
            final(self)@.len() == old(self)@.len(),
            final(self).cursor() >= old(self).cursor(),
            r == front(old(self)@),
            final(self)@ == after_pop(old(self)@),
    {
        if self.is_empty() {
            return None;
        }
        proof {
            lemma_scan_from(self@, 0);
        }
        let y = seg_pop(&mut self.data[self.start]);
        proof {
            assert(self@ =~= after_pop(old(self)@));
        }
        while self.start < self.data.len() && seg_is_empty(&self.data[self.start])
            invariant
                old(self).start <= self.start <= self.data@.len(),
                self.bucketwidth == old(self).bucketwidth,
                self@ == after_pop(old(self)@),
                forall|k: int| 0 <= k < self.start ==> (#[trigger] self@[k]).len() == 0,
            decreases self.data@.len() - self.start,
        {
            self.start = self.start + 1;
        }
        proof {
            lemma_cursor_unique(self@, self.start as int);
        }
        y
    }

    /// Files every element of `elem`, in order, at the back of the bucket of
    /// its key. If any element has a key whose bucket index is not below the
    /// number of buckets, nothing is filed and the error names the first such
    /// element's index.
    pub fn bulk_push(&mut self, elem: Vec<(u64, usize)>) -> (r: Result<(), ConfigurationError>)
        requires
            old(self).wf(),
        ensures
            final(self).wf(),
            final(self).width() == old(self).width(),
            final(self)@.len() == old(self)@.len(),
            match r {
                Ok(_) => {
                    &&& all_fit(handle_slots(old(self).width()), elem@, old(self)@.len())
                    &&& final(self)@ == after_push_all(
                        old(self)@,
                        handle_slots(old(self).width()),
                        elem@,
                    )
                },
                Err(e) => {
                    &&& !all_fit(handle_slots(old(self).width()), elem@, old(self)@.len())
                    &&& final(self)@ == old(self)@
                    &&& e.index == slot_of(
                        elem@[misfit_from(handle_slots(old(self).width()), elem@, old(self)@.len(), 0)].0,
                        old(self).width(),
                    )
                    &&& e.bucketnum == old(self)@.len()
                },
            },
    {
        let n = self.data.len();
        let ghost slot = handle_slots(self.bucketwidth);
        let mut j: usize = 0;
        while j < elem.len()
            invariant
                j <= elem@.len(),
                *self == *old(self),
                self.wf(),
                n == self@.len(),
                slot == handle_slots(self.bucketwidth),
                forall|i: int| 0 <= i < j ==> 0 <= slot(#[trigger] elem@[i]) < n,
            decreases elem@.len() - j,
        {
            let index = bucket_index(elem[j].0, self.bucketwidth);
            proof {
                lemma_slot_monotone(elem@[j as int].0, elem@[j as int].0, self.bucketwidth);
            }
            if index >= n as u64 {
                proof {
                    lemma_misfit_unique(slot, elem@, n as nat, j as int);
                }
                return Err(ConfigurationError { index, bucketnum: n });
            }
            j += 1;
        }
        proof {
            lemma_misfit_unique(slot, elem@, n as nat, j as int);
            lemma_scan_from(self@, 0);
        }
        let mut mindex = n;
        let mut i: usize = 0;
        while i < elem.len()
            invariant
                i <= elem@.len(),
                self.data@.len() == n,
                self.bucketwidth == old(self).bucketwidth,
                self.bucketwidth > 0,
                self.start == old(self).start,
                self.start <= n,
                mindex <= n,
                slot == handle_slots(self.bucketwidth),
                all_fit(slot, elem@, n as nat),
                self@ == after_push_all(old(self)@, slot, elem@.take(i as int)),
                filed_by(self@, slot),
                forall|k: int| 0 <= k < self.start && k < mindex ==> (#[trigger] self@[k]).len() == 0,
                mindex < n ==> self@[mindex as int].len() > 0,
                self.start < n ==> self@[self.start as int].len() > 0,
            decreases elem@.len() - i,
        {
            let e = elem[i];
            let index = bucket_index(e.0, self.bucketwidth) as usize;
            let ghost before = self@;
            seg_push(&mut self.data[index], e);
            if index < mindex {
                mindex = index;
            }
            proof {
                assert(elem@.take(i + 1).drop_last() =~= elem@.take(i as int));
                assert(self@ =~= after_push(before, index as int, e));
            }
            i += 1;
        }
        if self.start > mindex {
            self.start = mindex;
        }
        proof {
            assert(elem@.take(i as int) =~= elem@);
            lemma_cursor_unique(self@, self.start as int);
        }
        Ok(())
    }

    /// Tells whether the queue holds no element.
    pub fn is_empty(&self) -> (r: bool)
        requires
            self.wf(),
        ensures
            r == (total(self@) == 0),
            r == front(self@).is_none(),
    {
        proof {
            lemma_empty_iff_cursor_at_end(self@);
        }
        self.start >= self.data.len()
    }

    /// Tells how many elements the queue holds.
    pub fn len(&self) -> (n: usize)
        requires
            self.wf(),
            total(self@) <= usize::MAX,
        ensures
            n == total(self@),
    {
        let mut n: usize = 0;
        let mut i: usize = 0;
        proof {
            lemma_total_of_prefix(self@, 0);
        }
        while i < self.data.len()
            invariant
                i <= self@.len(),
                self@.len() == self.data@.len(),
                n == total(self@.take(i as int)),
                total(self@) <= usize::MAX,
            decreases self@.len() - i,
        {
            proof {
                lemma_total_of_prefix(self@, i as int);
                lemma_total_of_prefix(self@, i + 1);
            }
            n = n + seg_len(&self.data[i]);
            i += 1;
        }
        proof {
            lemma_total_of_prefix(self@, i as int);
        }
        n
    }
}

} // verus!
