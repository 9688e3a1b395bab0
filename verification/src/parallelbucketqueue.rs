//! The bucket queue with batch operations: a whole bucket leaves in one step,
//! is transformed element by element on a thread pool, and what remains is
//! filed again.

use crate::batch::{answers, discard_none, par_map, present};
use crate::buckets::{
    after_bulk_pop, after_pop, after_push, after_push_all, all_fit, cursor_of, drain_order,
    empty_buckets, filed_by, front, front_batch, lemma_all_empty_total, lemma_cursor_unique,
    lemma_empty_iff_cursor_at_end, lemma_misfit_unique, lemma_scan_from, lemma_total_of_prefix,
    misfit_from, total,
};
use crate::key::{
    bucket_index, key_slots, lemma_slot_monotone, slot_of, ConfigurationError, HasKey,
};
use crate::queue::SeqentialPriorityQueue;
use vstd::prelude::*;

verus! {

/// A bucket queue whose buckets can be taken out and refilled a batch at a time.
#[derive(Debug)]
pub struct ParBqueue<T> {
    bucketwidth: u64,
    data: Vec<Vec<T>>,
    start: usize,
}

impl<T> View for ParBqueue<T> {
    type V = Seq<Seq<T>>;

    /// The buckets, lowest index first, each with its oldest element first.
    closed spec fn view(&self) -> Seq<Seq<T>> {
        Seq::new(self.data@.len(), |i: int| self.data@[i]@)
    }
}

impl<'a, T: HasKey + Send + Sync> ParBqueue<&'a T> {
    /// The number of keys that one bucket spans.
    pub closed spec fn width(&self) -> u64 {
        self.bucketwidth
    }

    /// The stored cursor.
    pub closed spec fn cursor(&self) -> int {
        self.start as int
    }

    /// The bucket index that this queue assigns to an element.
    pub open spec fn slots(&self) -> spec_fn(&'a T) -> int {
        key_slots::<T>(self.width())
    }

    /// The queue's invariant: buckets have a positive width, the stored cursor
    /// is the lowest non-empty bucket (or the end), and every element sits in
    /// the bucket of its key.
    pub open spec fn wf(&self) -> bool {
        &&& self.width() > 0
        &&& self.cursor() == cursor_of(self@)
        &&& filed_by(self@, self.slots())
    }

    /// Creates a queue of `bucketnum` empty buckets, each `bucketwidth` keys wide.
    pub fn new(bucketnum: usize, bucketwidth: u64) -> (q: Self)
        requires
            bucketwidth > 0,
        ensures
            q.wf(),
            q.width() == bucketwidth,
            q.cursor() == bucketnum,
            q@ == empty_buckets::<&'a T>(bucketnum as nat),
            q.contents().len() == 0,
    {
        let mut datas: Vec<Vec<&'a T>> = Vec::with_capacity(bucketnum);
        let mut i: usize = 0;
        while i < bucketnum
            invariant
                i <= bucketnum,
                datas@.len() == i,
                forall|k: int| 0 <= k < i ==> (#[trigger] datas@[k])@ == Seq::<&'a T>::empty(),
            decreases bucketnum - i,
        {
            datas.push(Vec::new());
            i += 1;
        }
        let q = ParBqueue { bucketwidth, data: datas, start: bucketnum };
        proof {
            assert(q@ =~= empty_buckets::<&'a T>(bucketnum as nat));
            lemma_cursor_unique(q@, bucketnum as int);
            lemma_all_empty_total(q@);
            drain_order(q@).to_multiset_ensures();
        }
        q
    }

    /// Files `elem` at the back of the bucket of its key. A key whose bucket
    /// index is not below the number of buckets is rejected and the queue is
    /// left as it was.
    pub fn push(&mut self, elem: &'a T) -> (r: Result<(), ConfigurationError>)
        requires
            old(self).wf(),
        ensures
            final(self).wf(),
            final(self).width() == old(self).width(),
            final(self)@.len() == old(self)@.len(),
            match r {
                Ok(_) => {
                    &&& slot_of(elem.key_spec(), old(self).width()) < old(self)@.len()
                    &&& final(self).cursor() == if slot_of(elem.key_spec(), old(self).width()) < old(
                        self,
                    ).cursor() {
                        slot_of(elem.key_spec(), old(self).width())
                    } else {
                        old(self).cursor()
                    }
                    &&& final(self)@ == after_push(
                        old(self)@,
                        slot_of(elem.key_spec(), old(self).width()),
                        elem,
                    )
                },
                Err(e) => {
                    &&& slot_of(elem.key_spec(), old(self).width()) >= old(self)@.len()
                    &&& final(self)@ == old(self)@
                    &&& e.index == slot_of(elem.key_spec(), old(self).width())
                    &&& e.bucketnum == old(self)@.len()
                },
            },
    {
        let index = bucket_index(elem.key(), self.bucketwidth);
        if index >= self.data.len() as u64 {
            return Err(ConfigurationError { index, bucketnum: self.data.len() });
        }
        let i = index as usize;
        proof {
            lemma_scan_from(self@, 0);
        }
        self.data[i].push(elem);
        if i < self.start {
            self.start = i;
        }
        proof {
            assert(self@ =~= after_push(old(self)@, i as int, elem));
            lemma_cursor_unique(self@, self.start as int);
        }
        Ok(())
    }

    /// Removes and returns the oldest element of the lowest non-empty bucket,
    /// or returns `None` if the queue is empty.
    pub fn pop(&mut self) -> (r: Option<&'a T>)
        requires
            old(self).wf(),
        ensures
            final(self).wf(),
            final(self).width() == old(self).width(),
            final(self)@.len() == old(self)@.len(),
            final(self).cursor() >= old(self).cursor(),
            r == front(old(self)@),
            final(self)@ == after_pop(old(self)@),
    {
        if self.is_empty() {
            return None;
        }
        proof {
            lemma_scan_from(self@, 0);
        }
        let y = self.data[self.start].remove(0);
        proof {
            assert(old(self)@[self.start as int].remove(0) =~= old(self)@[self.start as int].drop_first());
            assert(self@ =~= after_pop(old(self)@));
        }
        self.advance_start();
        Some(y)
    }

    /// Returns the element that the next `pop` would return, without removing it.
    pub fn peek(&self) -> (r: Option<&'a T>)
        requires
            self.wf(),
        ensures
            r == front(self@),
    {
        if self.is_empty() {
            None
        } else {
            proof {
                lemma_scan_from(self@, 0);
            }
            Some(self.data[self.start][0])
        }
    }

    /// Tells how many elements the queue holds.
    pub fn len(&self) -> (n: usize)
        requires
            self.wf(),
            total(self@) <= usize::MAX,
        ensures
            n == total(self@),
    {
        let mut n: usize = 0;
        let mut i: usize = 0;
        proof {
            lemma_total_of_prefix(self@, 0);
        }
        while i < self.data.len()
            invariant
                i <= self@.len(),
                self@.len() == self.data@.len(),
                n == total(self@.take(i as int)),
                total(self@) <= usize::MAX,
            decreases self@.len() - i,
        {
            proof {
                lemma_total_of_prefix(self@, i as int);
                lemma_total_of_prefix(self@, i + 1);
            }
            n = n + self.data[i].len();
            i += 1;
        }
        proof {
            lemma_total_of_prefix(self@, i as int);
        }
        n
    }

    /// Tells whether the queue holds no element.
    pub fn is_empty(&self) -> (r: bool)
        requires
            self.wf(),
        ensures
            r == (total(self@) == 0),
            r == front(self@).is_none(),
    {
        proof {
            lemma_empty_iff_cursor_at_end(self@);
        }
        self.start >= self.data.len()
    }

    /// Takes the whole lowest non-empty bucket out in one step and returns its
    /// elements, oldest first. An empty queue gives an empty batch.
    pub fn bulk_pop(&mut self) -> (batch: Vec<&'a T>)
        requires
            old(self).wf(),
        ensures
            final(self).wf(),
            final(self).width() == old(self).width(),
            final(self)@.len() == old(self)@.len(),
            final(self).cursor() >= old(self).cursor(),
            batch@ == front_batch(old(self)@),
            final(self)@ == after_bulk_pop(old(self)@),
    {
        proof {
            lemma_scan_from(self@, 0);
        }
        self.data.push(Vec::new());
        let bucket = self.data.swap_remove(self.start);
        proof {
            assert(self@ =~= after_bulk_pop(old(self)@));
        }
        self.advance_start();
        bucket
    }

    /// Files every element of `es`, in order, at the back of the bucket of its
    /// key. If any element has a key whose bucket index is not below the number
    /// of buckets, nothing is filed and the error names the first such element's
    /// index.
    pub fn bulk_push(&mut self, es: Vec<&'a T>) -> (r: Result<(), ConfigurationError>)
        requires
            old(self).wf(),
        ensures
            final(self).wf(),
            final(self).width() == old(self).width(),
            final(self)@.len() == old(self)@.len(),
            match r {
                Ok(_) => {
                    &&& all_fit(old(self).slots(), es@, old(self)@.len())
                    &&& final(self)@ == after_push_all(old(self)@, old(self).slots(), es@)
                },
                Err(e) => {
                    &&& !all_fit(old(self).slots(), es@, old(self)@.len())
                    &&& final(self)@ == old(self)@
                    &&& e.index == (old(self).slots())(
                        es@[misfit_from(old(self).slots(), es@, old(self)@.len(), 0)],
                    )
                    &&& e.bucketnum == old(self)@.len()
                },
            },
    {
        let n = self.data.len();
        let ghost slot = self.slots();
        let mut j: usize = 0;
        while j < es.len()
            invariant
                j <= es@.len(),
                *self == *old(self),
                self.wf(),
                n == self@.len(),
                slot == key_slots::<T>(self.bucketwidth),
                forall|i: int| 0 <= i < j ==> 0 <= slot(#[trigger] es@[i]) < n,
            decreases es@.len() - j,
        {
            let index = bucket_index(es[j].key(), self.bucketwidth);
            proof {
                lemma_slot_monotone(es@[j as int].key_spec(), es@[j as int].key_spec(), self.bucketwidth);
            }
            if index >= n as u64 {
                proof {
                    lemma_misfit_unique(slot, es@, n as nat, j as int);
                }
                return Err(ConfigurationError { index, bucketnum: n });
            }
            j += 1;
        }
        proof {
            lemma_misfit_unique(slot, es@, n as nat, j as int);
            lemma_scan_from(self@, 0);
        }
        let mut mindex = n;
        let mut i: usize = 0;
        while i < es.len()
            invariant
                i <= es@.len(),
                self.data@.len() == n,
                self.bucketwidth == old(self).bucketwidth,
                self.bucketwidth > 0,
                self.start == old(self).start,
                self.start <= n,
                mindex <= n,
                slot == key_slots::<T>(self.bucketwidth),
                all_fit(slot, es@, n as nat),
                self@ == after_push_all(old(self)@, slot, es@.take(i as int)),
                filed_by(self@, slot),
                forall|k: int| 0 <= k < self.start && k < mindex ==> (#[trigger] self@[k]).len() == 0,
                mindex < n ==> self@[mindex as int].len() > 0,
                self.start < n ==> self@[self.start as int].len() > 0,
            decreases es@.len() - i,
        {
            let e = es[i];
            let index = bucket_index(e.key(), self.bucketwidth) as usize;
            let ghost before = self@;
            self.data[index].push(e);
            if index < mindex {
                mindex = index;
            }
            proof {
                assert(es@.take(i + 1).drop_last() =~= es@.take(i as int));
                assert(self@ =~= after_push(before, index as int, e));
            }
            i += 1;
        }
        if self.start > mindex {
            self.start = mindex;
        }
        proof {
            assert(es@.take(i as int) =~= es@);
            lemma_cursor_unique(self@, self.start as int);
        }
        Ok(())
    }

    /// Files the results that are present, in order, as `bulk_push` does, and
    /// drops the absent ones.
    pub fn bulk_push_present(&mut self, results: Vec<Option<&'a T>>) -> (r: Result<(), ConfigurationError>)
        requires
            old(self).wf(),
        ensures
            final(self).wf(),
            final(self).width() == old(self).width(),
            final(self)@.len() == old(self)@.len(),
            match r {
                Ok(_) => {
                    &&& all_fit(old(self).slots(), present(results@), old(self)@.len())
                    &&& final(self)@ == after_push_all(old(self)@, old(self).slots(), present(results@))
                },
                Err(e) => {
                    &&& !all_fit(old(self).slots(), present(results@), old(self)@.len())
                    &&& final(self)@ == old(self)@
                    &&& e.index == (old(self).slots())(
                        present(results@)[misfit_from(
                            old(self).slots(),
                            present(results@),
                            old(self)@.len(),
                            0,
                        )],
                    )
                    &&& e.bucketnum == old(self)@.len()
                },
            },
    {
        let es = discard_none(&results);
        self.bulk_push(es)
    }

    /// Takes the lowest non-empty bucket out, applies `f` to each of its
    /// elements on the thread pool, and files what `f` returned for them, in
    /// the order of the elements. Returns how many elements were taken out.
    ///
    /// If a returned element has a key whose bucket index is not below the
    /// number of buckets, the batch stays out of the queue, nothing is filed,
    /// and the error names the first such element's index.
    pub fn bulk_process<F>(&mut self, f: F) -> (r: Result<usize, ConfigurationError>)
        where
            F: Fn(&'a T) -> Option<&'a T> + Sync + Send,
        requires
            old(self).wf(),
            forall|i: int|
                0 <= i < front_batch(old(self)@).len() ==> call_requires(
                    f,
                    (#[trigger] front_batch(old(self)@)[i],),
                ),
        ensures
            final(self).wf(),
            final(self).width() == old(self).width(),
            final(self)@.len() == old(self)@.len(),
            exists|results: Seq<Option<&'a T>>| {
                &&& #[trigger] answers(f, front_batch(old(self)@), results)
                &&& match r {
                    Ok(count) => {
                        &&& count == front_batch(old(self)@).len()
                        &&& all_fit(old(self).slots(), present(results), old(self)@.len())
                        &&& final(self)@ == after_push_all(
                            after_bulk_pop(old(self)@),
                            old(self).slots(),
                            present(results),
                        )
                    },
                    Err(e) => {
                        &&& !all_fit(old(self).slots(), present(results), old(self)@.len())
                        &&& final(self)@ == after_bulk_pop(old(self)@)
                        &&& e.index == (old(self).slots())(
                            present(results)[misfit_from(
                                old(self).slots(),
                                present(results),
                                old(self)@.len(),
                                0,
                            )],
                        )
                        &&& e.bucketnum == old(self)@.len()
                    },
                }
            },
    {
        let bucket = self.bulk_pop();
        let count = bucket.len();
        let mapped = par_map(bucket, &f);
        proof {
            assert(answers(f, front_batch(old(self)@), mapped@));
        }
        match self.bulk_push_present(mapped) {
            Ok(_) => Ok(count),
            Err(e) => Err(e),
        }
    }

    /// Moves the cursor forward over empty buckets.
    fn advance_start(&mut self)
        requires
            old(self).start <= old(self).data@.len(),
            forall|k: int| 0 <= k < old(self).start ==> (#[trigger] old(self)@[k]).len() == 0,
        ensures
            final(self)@ == old(self)@,
            final(self).bucketwidth == old(self).bucketwidth,
            final(self).cursor() == cursor_of(final(self)@),
            final(self).cursor() >= old(self).cursor(),
    {
        while self.start < self.data.len() && self.data[self.start].len() == 0
            invariant
                old(self).start <= self.start <= self.data@.len(),
                self.bucketwidth == old(self).bucketwidth,
                self@ == old(self)@,
                forall|k: int| 0 <= k < self.start ==> (#[trigger] self@[k]).len() == 0,
            decreases self.data@.len() - self.start,
        {
            self.start = self.start + 1;
        }
        proof {
            lemma_cursor_unique(self@, self.start as int);
        }
    }
}

} // verus!
