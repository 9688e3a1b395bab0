//! The event loop in batches: a whole batch of events is served at once, and
//! the next events of their pairs are found on the thread pool.

use crate::batch::present;
use crate::driver::{
    after_step, all_queued_fit, all_records_fit, first_of_pair, fits, frontier, is_first,
    lemma_first_of_pair, lemma_step, lemma_total_records_grows, lemma_waiting_finite,
    names_record, pair_code, pair_code_spec, queued_from, total_records, waiting,
};
use crate::event::{lemma_next_of, next_of, next_same_pair, successor, window_indexed, KeyVal};
use crate::key::{ConfigurationError, HasKey};
use crate::queue::{batch_step, names_key, ParallelPriorityQueue};
use std::collections::HashSet;
use vstd::multiset::Multiset;
use vstd::prelude::*;

verus! {

/// The next record of the pair of `m` after `m`, if the window has one.
pub open spec fn next_record<'a>(w: Seq<KeyVal>, m: &'a KeyVal) -> Option<&'a KeyVal> {
    if successor(w, m.index as int) < w.len() {
        Some(&w[successor(w, m.index as int)])
    } else {
        None
    }
}

/// For each element of the batch, the next record of its pair.
pub open spec fn next_records<'a>(w: Seq<KeyVal>, batch: Seq<&'a KeyVal>) -> Seq<Option<&'a KeyVal>> {
    Seq::new(batch.len(), |i: int| next_record(w, batch[i]))
}

/// The queue after the elements of `batch` were served one by one, as
/// `after_step` serves each.
pub open spec fn after_steps<'a>(
    w: Seq<KeyVal>,
    q: Multiset<&'a KeyVal>,
    batch: Seq<&'a KeyVal>,
) -> Multiset<&'a KeyVal>
    decreases batch.len(),
{
    if batch.len() == 0 {
        q
    } else {
        after_step(w, after_steps(w, q, batch.drop_last()), batch.last())
    }
}

/// The positions of the elements of `batch`.
pub open spec fn positions<'a>(batch: Seq<&'a KeyVal>) -> Set<int> {
    Set::new(|j: int| exists|i: int| 0 <= i < batch.len() && (#[trigger] batch[i]).index == j)
}

/// Serving a batch of queued elements at once is serving them one by one:
/// the state stays a frontier, exactly the batch's records stop waiting, and
/// the queue ends as it does when the batch leaves and the next records of
/// its pairs come in.
pub proof fn lemma_steps<'a>(w: Seq<KeyVal>, q: Multiset<&'a KeyVal>, batch: Seq<&'a KeyVal>)
    requires
        frontier(w, q),
        batch.to_multiset().subset_of(q),
    ensures
        frontier(w, after_steps(w, q, batch)),
        after_steps(w, q, batch) == q.sub(batch.to_multiset()).add(
            present(next_records(w, batch)).to_multiset(),
        ),
        waiting(w, after_steps(w, q, batch)) == waiting(w, q).difference(positions(batch)),
        positions(batch).subset_of(waiting(w, q)),
        waiting(w, after_steps(w, q, batch)).len() + batch.len() == waiting(w, q).len(),
    decreases batch.len(),
{
    broadcast use vstd::seq_lib::group_to_multiset_ensures;
    broadcast use vstd::multiset::group_multiset_axioms;
    lemma_waiting_finite(w, q);
    if batch.len() == 0 {
        assert(batch.to_multiset() =~= Multiset::<&'a KeyVal>::empty());
        assert(next_records(w, batch) =~= Seq::<Option<&'a KeyVal>>::empty());
        assert(present(next_records(w, batch)).to_multiset() =~= Multiset::<&'a KeyVal>::empty());
        assert(q.sub(batch.to_multiset()).add(present(next_records(w, batch)).to_multiset()) =~= q);
        assert(waiting(w, q).difference(positions(batch)) =~= waiting(w, q));
    } else {
        let dl = batch.drop_last();
        let m = batch.last();
        assert(batch =~= dl.push(m));
        assert(dl.to_multiset().subset_of(q)) by {
            assert forall|x: &'a KeyVal| dl.to_multiset().count(x) <= q.count(x) by {
                assert(batch.to_multiset().count(x) <= q.count(x));
            }
        }
        lemma_steps(w, q, dl);
        let mid = after_steps(w, q, dl);
        assert(batch.to_multiset().count(m) <= q.count(m));
        assert(mid.count(m) > 0);
        lemma_step(w, mid, m);
        lemma_waiting_finite(w, mid);
        let end = after_steps(w, q, batch);
        let nr = next_records(w, batch);
        assert(nr.drop_last() =~= next_records(w, dl));
        assert(nr.last() == next_record(w, m));
        assert(end =~= q.sub(batch.to_multiset()).add(present(nr).to_multiset())) by {
            assert forall|x: &'a KeyVal|
                end.count(x) == q.sub(batch.to_multiset()).add(present(nr).to_multiset()).count(x) by {
                assert(batch.to_multiset().count(x) <= q.count(x));
            }
        }
        assert(positions(batch) =~= positions(dl).insert(m.index as int)) by {
            assert forall|j: int| positions(batch).contains(j) <==> positions(dl).insert(
                m.index as int,
            ).contains(j) by {
                if positions(batch).contains(j) {
                    let i = choose|i: int| 0 <= i < batch.len() && (#[trigger] batch[i]).index == j;
                    if i < dl.len() {
                        assert(dl[i].index == j);
                    }
                }
                if positions(dl).contains(j) {
                    let i = choose|i: int| 0 <= i < dl.len() && (#[trigger] dl[i]).index == j;
                    assert(batch[i].index == j);
                }
                if j == m.index {
                    assert(batch[batch.len() - 1].index == j);
                }
            }
        }
        assert(waiting(w, end) =~= waiting(w, q).difference(positions(batch)));
    }
}

/// Collects the first record of each pair of the window, in window order.
pub fn first_of_each_pair<'a>(window: &'a Vec<KeyVal>) -> (initial: Vec<&'a KeyVal>)
    requires
        window_indexed(window@),
    ensures
        frontier(window@, initial@.to_multiset()),
        forall|j: int| 0 <= j < window@.len() ==> waiting(window@, initial@.to_multiset()).contains(j),
        forall|j: int|
            0 <= j < window@.len() ==> (initial@.to_multiset().count(&window@[j]) > 0 <==> is_first(
                window@,
                j,
            )),
        forall|a: int, b: int|
            0 <= a < b < initial@.len() ==> (#[trigger] initial@[a]).index < (#[trigger] initial@[b]).index,
{
    broadcast use vstd::std_specs::hash::group_hash_axioms;
    broadcast use vstd::multiset::group_multiset_axioms;
    broadcast use vstd::seq_lib::group_to_multiset_ensures;
    let ghost w = window@;
    let mut ids: HashSet<u64> = HashSet::new();
    let mut initial: Vec<&'a KeyVal> = Vec::new();
    let mut j: usize = 0;
    while j < window.len()
        invariant
            j <= w.len(),
            w == window@,
            window_indexed(w),
            forall|c: u64|
                ids@.contains(c) <==> exists|i: int|
                    0 <= i < j && pair_code_spec((#[trigger] w[i]).id) == c,
            queued_from(w, initial@.to_multiset()),
            forall|x: &'a KeyVal| #[trigger]
                initial@.to_multiset().count(x) > 0 ==> x.index < j && is_first(w, x.index as int),
            forall|i: int|
                0 <= i < j && is_first(w, i) ==> initial@.to_multiset().count(&#[trigger] w[i]) > 0,
            forall|a: int| 0 <= a < initial@.len() ==> (#[trigger] initial@[a]).index < j,
            forall|a: int, b: int|
                0 <= a < b < initial@.len() ==> (#[trigger] initial@[a]).index < (
                #[trigger] initial@[b]).index,
        decreases w.len() - j,
    {
        let k = &window[j];
        let code = pair_code(k.id);
        let ghost q = initial@.to_multiset();
        let ghost before = initial@;
        if !ids.contains(&code) {
            proof {
                assert(is_first(w, j as int)) by {
                    assert forall|i: int| 0 <= i < j implies (#[trigger] w[i]).id != w[j as int].id by {
                        if w[i].id == w[j as int].id {
                            assert(ids@.contains(pair_code_spec(w[i].id)));
                        }
                    }
                }
                if q.count(k) > 0 {
                    assert(k.index < j);
                }
            }
            initial.push(k);
            ids.insert(code);
            proof {
                assert(initial@ == before.push(k));
                vstd::seq_lib::to_multiset_build(before, k);
                assert(initial@.to_multiset() =~= q.insert(k));
                assert forall|i: int| 0 <= i < j + 1 && is_first(w, i) implies initial@.to_multiset().count(
                    &#[trigger] w[i],
                ) > 0 by {
                    if i < j {
                        assert(q.count(&w[i]) > 0);
                    }
                }
            }
        } else {
            proof {
                let i = choose|i: int| 0 <= i < j && pair_code_spec((#[trigger] w[i]).id) == code;
                assert(w[i].id == w[j as int].id);
                assert(!is_first(w, j as int));
            }
        }
        j += 1;
    }
    proof {
        let q = initial@.to_multiset();
        assert forall|x: &'a KeyVal, y: &'a KeyVal|
            #![trigger q.count(x), q.count(y)]
            q.count(x) > 0 && q.count(y) > 0 && x.id == y.id implies x == y by {
            assert(w[x.index as int] == *x && w[y.index as int] == *y);
            if x.index < y.index {
                assert(w[x.index as int].id != w[y.index as int].id);
            } else if y.index < x.index {
                assert(w[y.index as int].id != w[x.index as int].id);
            }
        }
        assert forall|p: int| 0 <= p < w.len() implies waiting(w, q).contains(p) by {
            lemma_first_of_pair(w, p);
            let i = first_of_pair(w, p);
            let x: &'a KeyVal = &w[i];
            assert(q.count(x) > 0 && x.id == w[p].id && x.index <= p);
        }
        assert forall|p: int| 0 <= p < w.len() && q.count(&w[p]) > 0 implies is_first(w, p) by {
            let x: &'a KeyVal = &w[p];
            assert(q.count(x) > 0);
        }
    }
    initial
}

/// `r` is the next record of the pair of `elem` after the position of `elem`,
/// or nothing where the window has none.
pub open spec fn finds_next<'a>(w: Seq<KeyVal>, elem: &KeyVal, r: Option<&'a KeyVal>) -> bool {
    match r {
        Some(k) => {
            &&& next_of(w, elem.id, elem.index + 1) < w.len()
            &&& *k == w[next_of(w, elem.id, elem.index + 1)]
        },
        None => next_of(w, elem.id, elem.index + 1) == w.len(),
    }
}

/// Every result that is present stands in the results.
pub proof fn lemma_present_source<T>(results: Seq<Option<T>>, i: int) -> (k: int)
    requires
        0 <= i < present(results).len(),
    ensures
        0 <= k < results.len(),
        results[k] == Some(present(results)[i]),
    decreases results.len(),
{
    if results.len() == 0 {
        0
    } else if results.last() is Some && i == present(results.drop_last()).len() {
        results.len() - 1
    } else {
        lemma_present_source(results.drop_last(), i)
    }
}

/// Runs one window through the queue in batches: queues the first record of
/// each pair, then serves batch after batch, each time queueing the next
/// records of the pairs just served, until the queue is empty. Returns how
/// many events were served.
///
/// That number is the number of records of the window: every record is served
/// exactly once. Fails if and only if the queue has no room for the key of
/// some record of the window.
pub fn process_window_parallel<'a, PQ: ParallelPriorityQueue<'a, KeyVal>>(
    window: &'a Vec<KeyVal>,
    heap: &mut PQ,
) -> (r: Result<usize, ConfigurationError>)
    requires
        old(heap).inv(),
        old(heap).contents().len() == 0,
        window_indexed(window@),
    ensures
        final(heap).inv(),
        final(heap).ranking() == old(heap).ranking(),
        final(heap).ranks() == old(heap).ranks(),
        r is Ok <==> all_records_fit(old(heap), window@),
        match r {
            Ok(count) => count == window@.len() && final(heap).contents().len() == 0,
            Err(err) => names_record(old(heap), window@, err),
        },
{
    let ghost w = window@;
    let ghost ranking = heap.ranking();
    let ghost ranks = heap.ranks();
    let initial = first_of_each_pair(window);
    let ghost first = initial@;
    match heap.bulk_push(initial) {
        Err(e) => {
            proof {
                broadcast use vstd::seq_lib::group_to_multiset_ensures;
                let i = choose|i: int|
                    0 <= i < first.len() && names_key(
                        ranking,
                        ranks,
                        (#[trigger] first[i]).key_spec(),
                        e,
                    );
                assert(first.to_multiset().count(first[i]) > 0);
                assert(w[first[i].index as int] == *first[i]);
                assert(!fits(old(heap), w[first[i].index as int]));
                assert(names_key(ranking, ranks, w[first[i].index as int].key, e));
            }
            return Err(e);
        },
        Ok(_) => {},
    }
    proof {
        broadcast use vstd::seq_lib::group_to_multiset_ensures;
        broadcast use vstd::multiset::group_multiset_axioms;
        let q = heap.contents();
        assert(old(heap).contents() =~= Multiset::<&'a KeyVal>::empty());
        assert(q =~= first.to_multiset());
        assert forall|x: &'a KeyVal| #[trigger] q.count(x) > 0 implies fits(heap, *x) by {
            let i = choose|i: int| 0 <= i < first.len() && first[i] == x;
            assert(ranking(first[i].key_spec()) < ranks);
        }
        vstd::set_lib::lemma_int_range(0, w.len() as int);
        assert(waiting(w, q) =~= vstd::set_lib::set_int_range(0, w.len() as int));
    }
    let len = window.len();
    let mut count: usize = 0;
    while !heap.is_empty()
        invariant
            w == window@,
            w.len() == len,
            heap.inv(),
            heap.ranking() == ranking,
            heap.ranks() == ranks,
            ranking == old(heap).ranking(),
            ranks == old(heap).ranks(),
            frontier(w, heap.contents()),
            all_queued_fit(heap),
            waiting(w, heap.contents()).finite(),
            count + waiting(w, heap.contents()).len() == w.len(),
            forall|j: int|
                0 <= j < w.len() && !waiting(w, heap.contents()).contains(j) ==> fits(
                    heap,
                    #[trigger] w[j],
                ),
        decreases waiting(w, heap.contents()).len(),
    {
        let ghost q = heap.contents();
        let f = |elem: &'a KeyVal| -> (r: Option<&'a KeyVal>)
            ensures
                finds_next(window@, elem, r),
            { next_same_pair(window, elem) };
        let outcome = heap.bulk_process(f);
        proof {
            broadcast use vstd::seq_lib::group_to_multiset_ensures;
            broadcast use vstd::multiset::group_multiset_axioms;
            let q2 = heap.contents();
            let (batch, results) = choose|batch: Seq<&'a KeyVal>, results: Seq<Option<&'a KeyVal>>| #[trigger]
                batch_step(q, ranking, ranks, f, batch, results, outcome, q2);
            assert(results =~= next_records(w, batch)) by {
                assert forall|i: int| 0 <= i < batch.len() implies results[i] == next_record(w, batch[i]) by {
                    assert(call_ensures(f, (batch[i],), results[i]));
                    assert(finds_next(w, batch[i], results[i]));
                    assert(batch.to_multiset().count(batch[i]) > 0);
                    assert(q.count(batch[i]) > 0);
                    assert(w[batch[i].index as int] == *batch[i]);
                }
            }
            lemma_steps(w, q, batch);
            lemma_waiting_finite(w, q2);
            if outcome is Err {
                let i = choose|i: int|
                    0 <= i < present(results).len() && names_key(
                        ranking,
                        ranks,
                        (#[trigger] present(results)[i]).key_spec(),
                        outcome->Err_0,
                    );
                let k = lemma_present_source(results, i);
                let m = batch[k];
                assert(batch.to_multiset().count(m) > 0);
                assert(q.count(m) > 0);
                assert(w[m.index as int] == *m);
                lemma_next_of(w, m.id, m.index + 1);
                let s = successor(w, m.index as int);
                assert(results[k] == next_record(w, m));
                assert(!fits(old(heap), w[s]));
                assert(names_key(ranking, ranks, w[s].key, outcome->Err_0));
                assert(names_record(old(heap), w, outcome->Err_0));
            } else {
                assert(q2 == after_steps(w, q, batch));
                assert(count + outcome.unwrap() + waiting(w, q2).len() == w.len());
                assert forall|x: &'a KeyVal| #[trigger] q2.count(x) > 0 implies fits(heap, *x) by {
                    if q.sub(batch.to_multiset()).count(x) > 0 {
                        assert(q.count(x) > 0);
                    } else {
                        assert(present(results).to_multiset().count(x) > 0);
                        let i = choose|i: int| 0 <= i < present(results).len() && present(results)[i] == x;
                        assert(ranking(present(results)[i].key_spec()) < ranks);
                    }
                }
                assert forall|j: int| 0 <= j < w.len() && !waiting(w, q2).contains(j) implies fits(
                    heap,
                    #[trigger] w[j],
                ) by {
                    if waiting(w, q).contains(j) {
                        assert(positions(batch).contains(j));
                        let i = choose|i: int| 0 <= i < batch.len() && (#[trigger] batch[i]).index == j;
                        assert(batch.to_multiset().count(batch[i]) > 0);
                        assert(q.count(batch[i]) > 0);
                        assert(w[j] == *batch[i]);
                    }
                }
            }
        }
        match outcome {
            Err(e) => {
                return Err(e);
            },
            Ok(n) => {
                count = count + n;
            },
        }
    }
    proof {
        let q = heap.contents();
        assert(waiting(w, q) =~= Set::<int>::empty()) by {
            assert forall|j: int| !waiting(w, q).contains(j) by {
                if waiting(w, q).contains(j) {
                    let x = choose|x: &'a KeyVal| #[trigger]
                        q.count(x) > 0 && x.id == w[j].id && x.index <= j;
                    assert(q.count(x) <= q.len()) by {
                        broadcast use vstd::multiset::group_multiset_axioms;
                    }
                }
            }
        }
    }
    Ok(count)
}

/// Runs the windows through the queue one after the other, as
/// `process_window_parallel` does each, and returns how many events were
/// served.
///
/// That number is the number of records in all windows. Fails if and only if
/// the queue has no room for the key of some record.
pub fn process_parallel<'a, PQ: ParallelPriorityQueue<'a, KeyVal>>(
    data: &'a Vec<Vec<KeyVal>>,
    heap: &mut PQ,
) -> (r: Result<u64, ConfigurationError>)
    requires
        old(heap).inv(),
        old(heap).contents().len() == 0,
        forall|i: int| 0 <= i < data@.len() ==> window_indexed(#[trigger] data@[i]@),
        total_records(data@) <= u64::MAX,
    ensures
        final(heap).inv(),
        final(heap).ranking() == old(heap).ranking(),
        final(heap).ranks() == old(heap).ranks(),
        r is Ok <==> forall|i: int| 0 <= i < data@.len() ==> all_records_fit(old(heap), #[trigger] data@[i]@),
        match r {
            Ok(count) => count == total_records(data@) && final(heap).contents().len() == 0,
            Err(err) => exists|i: int|
                {
                    &&& 0 <= i < data@.len()
                    &&& names_record(old(heap), (#[trigger] data@[i])@, err)
                    &&& forall|k: int| 0 <= k < i ==> all_records_fit(old(heap), (#[trigger] data@[k])@)
                },
        },
{
    let mut count: u64 = 0;
    let mut i: usize = 0;
    while i < data.len()
        invariant
            i <= data@.len(),
            heap.inv(),
            heap.ranking() == old(heap).ranking(),
            heap.ranks() == old(heap).ranks(),
            heap.contents().len() == 0,
            forall|k: int| 0 <= k < data@.len() ==> window_indexed(#[trigger] data@[k]@),
            total_records(data@) <= u64::MAX,
            count == total_records(data@.take(i as int)),
            forall|k: int| 0 <= k < i ==> all_records_fit(old(heap), #[trigger] data@[k]@),
        decreases data@.len() - i,
    {
        proof {
            lemma_total_records_grows(data@, i + 1);
            assert(data@.take(i + 1).drop_last() =~= data@.take(i as int));
        }
        match process_window_parallel(&data[i], heap) {
            Err(e) => {
                proof {
                    assert(names_record(old(heap), data@[i as int]@, e));
                }
                return Err(e);
            },
            Ok(served) => {
                count = count + served as u64;
            },
        }
        i += 1;
    }
    proof {
        assert(data@.take(i as int) =~= data@);
    }
    Ok(count)
}

} // verus!
