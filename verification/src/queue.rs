//! The interface that the event loop needs of a priority queue, and its
//! implementations by the backends.

use crate::batch::{answers, present};
use crate::binaryheap::BinaryHeap;
use crate::buckets::{
    after_bulk_pop, all_fit, cursor_of, drain_order, front_batch, lemma_bulk_pop_splits,
    lemma_empty_iff_cursor_at_end, lemma_front_is_lowest, lemma_pop_takes_head, lemma_push_all,
    lemma_push_total, total,
};
use crate::key::{key_slots, lemma_slot_monotone, slot_of, ConfigurationError, HasKey};
use crate::parallelbucketqueue::ParBqueue;
use crate::sequentialbucketqueue::Bqueue;
use vstd::multiset::Multiset;
use vstd::prelude::*;

verus! {

/// The rank that a bucket queue with buckets `width` keys wide gives a key.
pub open spec fn bucket_ranking(width: u64) -> spec_fn(u64) -> int {
    |key: u64| slot_of(key, width)
}

/// The rank that an exact-order queue gives a key: the key itself.
pub open spec fn exact_ranking() -> spec_fn(u64) -> int {
    |key: u64| key as int
}

/// The error tells the rank of `key` and the number of ranks of the queue
/// that has no room for it.
pub open spec fn names_key(
    ranking: spec_fn(u64) -> int,
    ranks: nat,
    key: u64,
    err: ConfigurationError,
) -> bool {
    &&& !(ranking(key) < ranks)
    &&& err.index == ranking(key)
    &&& err.bucketnum == ranks
}

/// A priority queue for one thread. It ranks keys, holds elements whose key
/// has a rank below `ranks()`, and always serves an element of the least rank.
pub trait SeqentialPriorityQueue<'a, E: HasKey + 'a> {
    /// The queue's invariant.
    spec fn inv(&self) -> bool;

    /// The elements that the queue holds.
    spec fn contents(&self) -> Multiset<&'a E>;

    /// The rank of each key. An element is served no later than any element
    /// of a higher rank that is in the queue with it.
    spec fn ranking(&self) -> spec_fn(u64) -> int;

    /// The number of ranks that the queue has room for.
    spec fn ranks(&self) -> nat;

    /// A larger key never has a smaller rank, and no rank is negative.
    proof fn lemma_ranking_monotone(&self, a: u64, b: u64)
        requires
            self.inv(),
            a <= b,
        ensures
            0 <= (self.ranking())(a) <= (self.ranking())(b),
    ;

    /// Adds `e`, or rejects it if the rank of its key is not below `ranks()`.
    fn push(&mut self, e: &'a E) -> (r: Result<(), ConfigurationError>)
        requires
            old(self).inv(),
        ensures
            final(self).inv(),
            final(self).ranking() == old(self).ranking(),
            final(self).ranks() == old(self).ranks(),
            match r {
                Ok(_) => {
                    &&& (old(self).ranking())(e.key_spec()) < old(self).ranks()
                    &&& final(self).contents() == old(self).contents().insert(e)
                },
                Err(err) => {
                    &&& !((old(self).ranking())(e.key_spec()) < old(self).ranks())
                    &&& final(self).contents() == old(self).contents()
                    &&& names_key(old(self).ranking(), old(self).ranks(), e.key_spec(), err)
                },
            },
    ;

    /// Removes and returns an element of the least rank, or returns `None` if
    /// the queue is empty.
    fn pop(&mut self) -> (r: Option<&'a E>)
        requires
            old(self).inv(),
        ensures
            final(self).inv(),
            final(self).ranking() == old(self).ranking(),
            final(self).ranks() == old(self).ranks(),
            match r {
                None => old(self).contents().len() == 0 && final(self).contents() == old(
                    self,
                ).contents(),
                Some(m) => {
                    &&& old(self).contents().count(m) > 0
                    &&& final(self).contents() == old(self).contents().remove(m)
                    &&& forall|x: &'a E|
                        old(self).contents().count(x) > 0 ==> (old(self).ranking())(m.key_spec())
                            <= (old(self).ranking())(#[trigger] x.key_spec())
                },
            },
    ;

    /// Tells whether the queue holds no element.
    fn is_empty(&self) -> (r: bool)
        requires
            self.inv(),
        ensures
            r == (self.contents().len() == 0),
    ;
}

impl<'a, E: HasKey> SeqentialPriorityQueue<'a, E> for BinaryHeap<&'a E> {
    open spec fn inv(&self) -> bool {
        self.wf()
    }

    open spec fn contents(&self) -> Multiset<&'a E> {
        self@
    }

    open spec fn ranking(&self) -> spec_fn(u64) -> int {
        exact_ranking()
    }

    open spec fn ranks(&self) -> nat {
        0x1_0000_0000_0000_0000
    }

    proof fn lemma_ranking_monotone(&self, a: u64, b: u64) {
    }

    fn push(&mut self, e: &'a E) -> (r: Result<(), ConfigurationError>) {
        BinaryHeap::push(self, e);
        Ok(())
    }

    fn pop(&mut self) -> (r: Option<&'a E>) {
        BinaryHeap::pop(self)
    }

    fn is_empty(&self) -> (r: bool) {
        BinaryHeap::is_empty(self)
    }
}

impl<'a, E: HasKey> SeqentialPriorityQueue<'a, E> for Bqueue<&'a E> {
    open spec fn inv(&self) -> bool {
        self.wf()
    }

    open spec fn contents(&self) -> Multiset<&'a E> {
        drain_order(self@).to_multiset()
    }

    open spec fn ranking(&self) -> spec_fn(u64) -> int {
        bucket_ranking(self.width())
    }

    open spec fn ranks(&self) -> nat {
        self@.len()
    }

    proof fn lemma_ranking_monotone(&self, a: u64, b: u64) {
        lemma_slot_monotone(a, b, self.width());
    }

    fn push(&mut self, e: &'a E) -> (r: Result<(), ConfigurationError>) {
        proof {
            lemma_slot_monotone(e.key_spec(), e.key_spec(), self.width());
            if slot_of(e.key_spec(), self.width()) < self@.len() {
                lemma_push_total(self@, slot_of(e.key_spec(), self.width()), e);
            }
        }
        Bqueue::push(self, e)
    }

    fn pop(&mut self) -> (r: Option<&'a E>) {
        broadcast use vstd::seq_lib::group_to_multiset_ensures;
        proof {
            if total(self@) > 0 {
                lemma_pop_takes_head(self@);
                lemma_front_is_lowest(self@, key_slots::<E>(self.width()));
                let d = drain_order(self@);
                assert(d =~= seq![d[0]] + d.drop_first());
                vstd::seq_lib::lemma_multiset_commutative(seq![d[0]], d.drop_first());
                assert(seq![d[0]] =~= Seq::<&'a E>::empty().push(d[0]));
                assert(d.drop_first().to_multiset() =~= d.to_multiset().remove(d[0]));
                let slot = key_slots::<E>(self.width());
                assert forall|x: &'a E| self.contents().count(x) > 0 implies (self.ranking())(
                    d[0].key_spec(),
                ) <= (self.ranking())(#[trigger] x.key_spec()) by {
                    assert(d.contains(x));
                    assert(cursor_of(self@) <= slot(x));
                }
            } else {
                crate::buckets::lemma_empty_iff_cursor_at_end(self@);
            }
        }
        Bqueue::pop(self)
    }

    fn is_empty(&self) -> (r: bool) {
        broadcast use vstd::seq_lib::group_to_multiset_ensures;
        Bqueue::is_empty(self)
    }
}

/// The queue has room for the key of every element of `es`.
pub open spec fn all_have_room<'a, E: HasKey>(
    ranking: spec_fn(u64) -> int,
    ranks: nat,
    es: Seq<&'a E>,
) -> bool {
    forall|i: int| 0 <= i < es.len() ==> ranking((#[trigger] es[i]).key_spec()) < ranks
}

/// The error tells of an element of `es` whose key the queue has no room for.
pub open spec fn names_misfit<'a, E: HasKey>(
    ranking: spec_fn(u64) -> int,
    ranks: nat,
    es: Seq<&'a E>,
    err: ConfigurationError,
) -> bool {
    exists|i: int| 0 <= i < es.len() && names_key(ranking, ranks, (#[trigger] es[i]).key_spec(), err)
}

/// `batch` can leave a queue that holds `q` in one step: its elements are
/// among those of `q`, it is empty only if `q` is, and no element that stays
/// behind has a lower rank than one of the batch.
pub open spec fn is_front_batch<'a, E: HasKey>(
    q: Multiset<&'a E>,
    ranking: spec_fn(u64) -> int,
    batch: Seq<&'a E>,
) -> bool {
    &&& batch.to_multiset().subset_of(q)
    &&& batch.len() == 0 <==> q.len() == 0
    &&& forall|x: &'a E, y: &'a E|
        #![trigger batch.to_multiset().count(x), q.sub(batch.to_multiset()).count(y)]
        batch.to_multiset().count(x) > 0 && q.sub(batch.to_multiset()).count(y) > 0 ==> ranking(
            x.key_spec(),
        ) <= ranking(y.key_spec())
}

/// What one batch step does to a queue that held `q`: `batch` left it, `f`
/// answered `results` for the elements of `batch`, and the answers that are
/// present were added if the queue has room for all of them.
pub open spec fn batch_step<'a, E: HasKey, F: Fn(&'a E) -> Option<&'a E>>(
    q: Multiset<&'a E>,
    ranking: spec_fn(u64) -> int,
    ranks: nat,
    f: F,
    batch: Seq<&'a E>,
    results: Seq<Option<&'a E>>,
    r: Result<usize, ConfigurationError>,
    after: Multiset<&'a E>,
) -> bool {
    &&& is_front_batch(q, ranking, batch)
    &&& answers(f, batch, results)
    &&& match r {
        Ok(count) => {
            &&& all_have_room(ranking, ranks, present(results))
            &&& count == batch.len()
            &&& after == q.sub(batch.to_multiset()).add(present(results).to_multiset())
        },
        Err(err) => {
            &&& names_misfit(ranking, ranks, present(results), err)
            &&& after == q.sub(batch.to_multiset())
        },
    }
}

/// A priority queue that can also give out and take in a batch at a time, so
/// that the work on a batch's elements can be spread over threads.
pub trait ParallelPriorityQueue<'a, E: HasKey + Sync + 'a>: SeqentialPriorityQueue<'a, E> {
    /// Adds the elements of `es`, or rejects them all if the queue has no room
    /// for the key of one of them.
    fn bulk_push(&mut self, es: Vec<&'a E>) -> (r: Result<(), ConfigurationError>)
        requires
            old(self).inv(),
        ensures
            final(self).inv(),
            final(self).ranking() == old(self).ranking(),
            final(self).ranks() == old(self).ranks(),
            match r {
                Ok(_) => {
                    &&& all_have_room(old(self).ranking(), old(self).ranks(), es@)
                    &&& final(self).contents() == old(self).contents().add(es@.to_multiset())
                },
                Err(err) => {
                    &&& names_misfit(old(self).ranking(), old(self).ranks(), es@, err)
                    &&& final(self).contents() == old(self).contents()
                },
            },
    ;

    /// Takes a batch of elements of the least ranks out of the queue. The
    /// batch is empty only if the queue is.
    fn bulk_pop(&mut self) -> (batch: Vec<&'a E>)
        requires
            old(self).inv(),
        ensures
            final(self).inv(),
            final(self).ranking() == old(self).ranking(),
            final(self).ranks() == old(self).ranks(),
            is_front_batch(old(self).contents(), old(self).ranking(), batch@),
            final(self).contents() == old(self).contents().sub(batch@.to_multiset()),
    ;

    /// Takes a batch out as `bulk_pop` does, applies `f` to each of its
    /// elements, and adds what `f` returned for them. Returns the size of the
    /// batch. Fails if the queue has no room for the key of a returned
    /// element; the batch is then out of the queue and nothing was added.
    fn bulk_process<F>(&mut self, f: F) -> (r: Result<usize, ConfigurationError>)
        where
            F: Fn(&'a E) -> Option<&'a E> + Sync + Send,
        requires
            old(self).inv(),
            forall|x: &'a E| old(self).contents().count(x) > 0 ==> call_requires(f, (x,)),
        ensures
            final(self).inv(),
            final(self).ranking() == old(self).ranking(),
            final(self).ranks() == old(self).ranks(),
            exists|batch: Seq<&'a E>, results: Seq<Option<&'a E>>| #[trigger]
                batch_step(
                    old(self).contents(),
                    old(self).ranking(),
                    old(self).ranks(),
                    f,
                    batch,
                    results,
                    r,
                    final(self).contents(),
                ),
    ;
}

/// The elements of a row of buckets, taken front first, without their first:
/// the multiset loses that one element.
pub proof fn lemma_drop_first_elements<A>(d: Seq<A>)
    requires
        d.len() > 0,
    ensures
        d.to_multiset().count(d[0]) > 0,
        d.drop_first().to_multiset() == d.to_multiset().remove(d[0]),
{
    broadcast use vstd::seq_lib::group_to_multiset_ensures;
    assert(d =~= seq![d[0]] + d.drop_first());
    vstd::seq_lib::lemma_multiset_commutative(seq![d[0]], d.drop_first());
    assert(seq![d[0]] =~= Seq::<A>::empty().push(d[0]));
    assert(d.drop_first().to_multiset() =~= d.to_multiset().remove(d[0]));
}

/// For keys, to fit a row of `n` buckets is to have room in a queue of `n` ranks.
pub proof fn lemma_fit_is_room<'a, E: HasKey>(width: u64, n: nat, es: Seq<&'a E>)
    requires
        width > 0,
    ensures
        all_fit(key_slots::<E>(width), es, n) <==> all_have_room(bucket_ranking(width), n, es),
{
    assert forall|i: int| 0 <= i < es.len() implies 0 <= slot_of((#[trigger] es[i]).key_spec(), width) by {
        lemma_slot_monotone(es[i].key_spec(), es[i].key_spec(), width);
    }
    if all_fit(key_slots::<E>(width), es, n) {
        assert forall|i: int| 0 <= i < es.len() implies (bucket_ranking(width))(
            (#[trigger] es[i]).key_spec(),
        ) < n by {
            assert(0 <= (key_slots::<E>(width))(es[i]) < n);
        }
    }
    if all_have_room(bucket_ranking(width), n, es) {
        assert forall|i: int| 0 <= i < es.len() implies 0 <= (key_slots::<E>(width))(#[trigger] es[i])
            < n by {
            assert((bucket_ranking(width))(es[i].key_spec()) < n);
        }
    }
}

/// Where not every element fits, the first that does not is one that the
/// queue has no room for.
pub proof fn lemma_first_misfit_named<'a, E: HasKey>(width: u64, n: nat, es: Seq<&'a E>)
    requires
        width > 0,
        !all_fit(key_slots::<E>(width), es, n),
    ensures
        0 <= crate::buckets::misfit_from(key_slots::<E>(width), es, n, 0) < es.len(),
        forall|err: ConfigurationError|
            err.index == (key_slots::<E>(width))(
                es[crate::buckets::misfit_from(key_slots::<E>(width), es, n, 0)],
            ) && err.bucketnum == n ==> #[trigger] names_misfit(bucket_ranking(width), n, es, err),
{
    let slot = key_slots::<E>(width);
    crate::buckets::lemma_misfit_from(slot, es, n, 0);
    let j = crate::buckets::misfit_from(slot, es, n, 0);
    lemma_slot_monotone(es[j].key_spec(), es[j].key_spec(), width);
    assert forall|err: ConfigurationError|
        err.index == slot(es[j]) && err.bucketnum == n implies #[trigger] names_misfit(
        bucket_ranking(width),
        n,
        es,
        err,
    ) by {
        assert(names_key(bucket_ranking(width), n, es[j].key_spec(), err));
    }
}

impl<'a, E: HasKey + Send + Sync> SeqentialPriorityQueue<'a, E> for ParBqueue<&'a E> {
    open spec fn inv(&self) -> bool {
        self.wf()
    }

    open spec fn contents(&self) -> Multiset<&'a E> {
        drain_order(self@).to_multiset()
    }

    open spec fn ranking(&self) -> spec_fn(u64) -> int {
        bucket_ranking(self.width())
    }

    open spec fn ranks(&self) -> nat {
        self@.len()
    }

    proof fn lemma_ranking_monotone(&self, a: u64, b: u64) {
        lemma_slot_monotone(a, b, self.width());
    }

    fn push(&mut self, e: &'a E) -> (r: Result<(), ConfigurationError>) {
        proof {
            lemma_slot_monotone(e.key_spec(), e.key_spec(), self.width());
            if slot_of(e.key_spec(), self.width()) < self@.len() {
                lemma_push_total(self@, slot_of(e.key_spec(), self.width()), e);
            }
        }
        ParBqueue::push(self, e)
    }

    fn pop(&mut self) -> (r: Option<&'a E>) {
        broadcast use vstd::seq_lib::group_to_multiset_ensures;
        proof {
            if total(self@) > 0 {
                lemma_pop_takes_head(self@);
                lemma_front_is_lowest(self@, key_slots::<E>(self.width()));
                let d = drain_order(self@);
                lemma_drop_first_elements(d);
                let slot = key_slots::<E>(self.width());
                assert forall|x: &'a E| self.contents().count(x) > 0 implies (self.ranking())(
                    d[0].key_spec(),
                ) <= (self.ranking())(#[trigger] x.key_spec()) by {
                    assert(d.contains(x));
                    assert(cursor_of(self@) <= slot(x));
                }
            } else {
                lemma_empty_iff_cursor_at_end(self@);
            }
        }
        ParBqueue::pop(self)
    }

    fn is_empty(&self) -> (r: bool) {
        broadcast use vstd::seq_lib::group_to_multiset_ensures;
        ParBqueue::is_empty(self)
    }
}

/// The lowest non-empty bucket of a filed row is a batch that can leave in
/// one step.
pub proof fn lemma_bucket_is_front_batch<'a, E: HasKey>(b: Seq<Seq<&'a E>>, width: u64)
    requires
        width > 0,
        crate::buckets::filed_by(b, key_slots::<E>(width)),
    ensures
        is_front_batch(drain_order(b).to_multiset(), bucket_ranking(width), front_batch(b)),
        drain_order(after_bulk_pop(b)).to_multiset() == drain_order(b).to_multiset().sub(
            front_batch(b).to_multiset(),
        ),
{
    broadcast use vstd::seq_lib::group_to_multiset_ensures;
    broadcast use vstd::multiset::group_multiset_axioms;
    let slot = key_slots::<E>(width);
    let q = drain_order(b).to_multiset();
    let batch = front_batch(b);
    let rest = drain_order(after_bulk_pop(b)).to_multiset();
    lemma_bulk_pop_splits(b, slot);
    assert(rest =~= q.sub(batch.to_multiset()));
    assert(batch.to_multiset().subset_of(q));
    assert forall|x: &'a E, y: &'a E|
        #![trigger batch.to_multiset().count(x), q.sub(batch.to_multiset()).count(y)]
        batch.to_multiset().count(x) > 0 && q.sub(batch.to_multiset()).count(y) > 0 implies (
        bucket_ranking(width))(x.key_spec()) <= (bucket_ranking(width))(y.key_spec()) by {
        let i = choose|i: int| 0 <= i < batch.len() && batch[i] == x;
        assert(slot(batch[i]) == cursor_of(b));
        assert(drain_order(after_bulk_pop(b)).contains(y));
        assert(cursor_of(b) <= slot(y));
    }
}

impl<'a, E: HasKey + Send + Sync> ParallelPriorityQueue<'a, E> for ParBqueue<&'a E> {
    fn bulk_push(&mut self, es: Vec<&'a E>) -> (r: Result<(), ConfigurationError>) {
        proof {
            lemma_fit_is_room::<E>(self.width(), self@.len(), es@);
            if all_fit(self.slots(), es@, self@.len()) {
                lemma_push_all(self@, self.slots(), es@);
            } else {
                lemma_first_misfit_named::<E>(self.width(), self@.len(), es@);
            }
        }
        ParBqueue::bulk_push(self, es)
    }

    fn bulk_pop(&mut self) -> (batch: Vec<&'a E>) {
        proof {
            lemma_bucket_is_front_batch::<E>(self@, self.width());
        }
        ParBqueue::bulk_pop(self)
    }

    fn bulk_process<F>(&mut self, f: F) -> (r: Result<usize, ConfigurationError>)
        where
            F: Fn(&'a E) -> Option<&'a E> + Sync + Send,
    {
        broadcast use vstd::seq_lib::group_to_multiset_ensures;
        proof {
            lemma_bucket_is_front_batch::<E>(self@, self.width());
            let batch = front_batch(self@);
            assert forall|i: int| 0 <= i < batch.len() implies call_requires(f, (#[trigger] batch[i],)) by {
                assert(batch.to_multiset().count(batch[i]) > 0);
                assert(self.contents().count(batch[i]) > 0);
            }
        }
        let r = ParBqueue::bulk_process(self, f);
        proof {
            let b = old(self)@;
            let batch = front_batch(b);
            let results = choose|results: Seq<Option<&'a E>>|
                {
                    &&& #[trigger] answers(f, batch, results)
                    &&& match r {
                        Ok(count) => {
                            &&& count == batch.len()
                            &&& all_fit(old(self).slots(), present(results), b.len())
                            &&& self@ == crate::buckets::after_push_all(
                                after_bulk_pop(b),
                                old(self).slots(),
                                present(results),
                            )
                        },
                        Err(e) => {
                            &&& !all_fit(old(self).slots(), present(results), b.len())
                            &&& self@ == after_bulk_pop(b)
                            &&& e.index == (old(self).slots())(
                                present(results)[crate::buckets::misfit_from(
                                    old(self).slots(),
                                    present(results),
                                    b.len(),
                                    0,
                                )],
                            )
                            &&& e.bucketnum == b.len()
                        },
                    }
                };
            lemma_fit_is_room::<E>(old(self).width(), b.len(), present(results));
            crate::buckets::lemma_pop_keeps_len(b);
            if r is Ok {
                lemma_push_all(after_bulk_pop(b), old(self).slots(), present(results));
            } else {
                lemma_first_misfit_named::<E>(old(self).width(), b.len(), present(results));
            }
            assert(batch_step(
                old(self).contents(),
                old(self).ranking(),
                old(self).ranks(),
                f,
                batch,
                results,
                r,
                self.contents(),
            ));
        }
        r
    }
}

} // verus!
