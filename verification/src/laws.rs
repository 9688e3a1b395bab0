//! What holds of every run of a queue: the order in which elements leave, and
//! that none is lost or served twice.

use crate::buckets::{
    after_bulk_pop, after_pop, after_push_all, all_fit, cursor_of, drain_order, empty_buckets,
    filed_by, front, front_batch, lemma_all_empty_total, lemma_bulk_pop_takes_prefix,
    lemma_empty_iff_cursor_at_end, lemma_pop_takes_head, lemma_push_all, lemma_scan_from, total,
};
use crate::driver::{
    after_step, frontier, lemma_step, pair_ordered, pairs_ascend, state_of, waiting, EventState,
};
use crate::event::{lemma_next_of, successor};
use crate::event::KeyVal;
use crate::key::{key_slots, lemma_slot_monotone, HasKey};
use vstd::multiset::Multiset;
use vstd::prelude::*;

verus! {

/// The row after `n` pops.
pub open spec fn after_pops<T>(b: Seq<Seq<T>>, n: nat) -> Seq<Seq<T>>
    decreases n,
{
    if n == 0 {
        b
    } else {
        after_pop(after_pops(b, (n - 1) as nat))
    }
}

/// What `n` pops return, in order: each an element, or nothing once the row
/// is empty.
pub open spec fn popped<T>(b: Seq<Seq<T>>, n: nat) -> Seq<Option<T>>
    decreases n,
{
    if n == 0 {
        Seq::empty()
    } else {
        popped(b, (n - 1) as nat).push(front(after_pops(b, (n - 1) as nat)))
    }
}

/// The row after `n` bulk pops.
pub open spec fn after_bulk_pops<T>(b: Seq<Seq<T>>, n: nat) -> Seq<Seq<T>>
    decreases n,
{
    if n == 0 {
        b
    } else {
        after_bulk_pop(after_bulk_pops(b, (n - 1) as nat))
    }
}

/// The batches that `n` bulk pops return, in order.
pub open spec fn bulk_popped<T>(b: Seq<Seq<T>>, n: nat) -> Seq<Seq<T>>
    decreases n,
{
    if n == 0 {
        Seq::empty()
    } else {
        bulk_popped(b, (n - 1) as nat).push(front_batch(after_bulk_pops(b, (n - 1) as nat)))
    }
}

/// The test for an element that `slot` assigns to bucket `k`.
pub open spec fn slot_is<T>(slot: spec_fn(T) -> int, k: int) -> spec_fn(T) -> bool {
    |e: T| slot(e) == k
}

/// The elements of `es` that `slot` assigns to bucket `k`, in the order of `es`.
pub open spec fn of_slot<T>(es: Seq<T>, slot: spec_fn(T) -> int, k: int) -> Seq<T> {
    es.filter(slot_is(slot, k))
}

/// The first `n` pops of a row return the first `n` elements of its drain
/// order, and leave the rest of it.
pub proof fn lemma_pops_take_prefix<T>(b: Seq<Seq<T>>, n: nat)
    requires
        n <= total(b),
    ensures
        popped(b, n) == Seq::new(n, |i: int| Some(drain_order(b)[i])),
        drain_order(after_pops(b, n)) == drain_order(b).skip(n as int),
        total(after_pops(b, n)) == total(b) - n,
    decreases n,
{
    if n == 0 {
        assert(popped(b, n) =~= Seq::new(n, |i: int| Some(drain_order(b)[i])));
        assert(drain_order(b).skip(0) =~= drain_order(b));
    } else {
        let m = (n - 1) as nat;
        lemma_pops_take_prefix(b, m);
        let mid = after_pops(b, m);
        lemma_pop_takes_head(mid);
        assert(drain_order(b).skip(m as int).drop_first() =~= drain_order(b).skip(n as int));
        assert(popped(b, n) =~= Seq::new(n, |i: int| Some(drain_order(b)[i])));
    }
}

/// Once a row is empty, it stays empty and every pop returns nothing.
pub proof fn lemma_pops_past_the_end<T>(b: Seq<Seq<T>>, n: nat)
    requires
        n >= total(b),
    ensures
        total(after_pops(b, n)) == 0,
        front(after_pops(b, n)) is None,
    decreases n,
{
    if n == total(b) {
        lemma_pops_take_prefix(b, n);
    } else {
        lemma_pops_past_the_end(b, (n - 1) as nat);
    }
    lemma_empty_iff_cursor_at_end(after_pops(b, n));
    lemma_empty_iff_cursor_at_end(after_pops(b, (n - 1) as nat));
}

/// Bucket `k` of a row that was filled by pushes, starting empty, holds the
/// pushed elements of slot `k`, in push order.
pub proof fn lemma_buckets_hold_slots<T>(n: nat, slot: spec_fn(T) -> int, es: Seq<T>, k: int)
    requires
        all_fit(slot, es, n),
        0 <= k < n,
    ensures
        after_push_all(empty_buckets::<T>(n), slot, es).len() == n,
        after_push_all(empty_buckets::<T>(n), slot, es)[k] == of_slot(es, slot, k),
    decreases es.len(),
{
    let pred = slot_is(slot, k);
    if es.len() == 0 {
        assert(es.filter(pred) =~= Seq::<T>::empty());
    } else {
        let rest = es.drop_last();
        let e = es.last();
        assert(all_fit(slot, rest, n)) by {
            assert forall|i: int| 0 <= i < rest.len() implies 0 <= slot(#[trigger] rest[i]) < n by {
                assert(rest[i] == es[i]);
            }
        }
        lemma_buckets_hold_slots(n, slot, rest, k);
        assert(es =~= rest.push(e));
        rest.lemma_filter_push(e, pred);
        assert(0 <= slot(es[es.len() - 1]) < n);
    }
}

/// In the drain order of a filed row, slots never fall, and the elements of
/// slot `k` are those of bucket `k`, in its order.
pub proof fn lemma_drain_order_sorted<T>(b: Seq<Seq<T>>, slot: spec_fn(T) -> int)
    requires
        filed_by(b, slot),
    ensures
        forall|i: int, j: int|
            0 <= i < j < drain_order(b).len() ==> slot(#[trigger] drain_order(b)[i]) <= slot(
                #[trigger] drain_order(b)[j],
            ),
        forall|i: int| 0 <= i < drain_order(b).len() ==> 0 <= slot(#[trigger] drain_order(b)[i]) < b.len(),
        forall|k: int| 0 <= k < b.len() ==> #[trigger] of_slot(drain_order(b), slot, k) == b[k],
        forall|k: int|
            !(0 <= k < b.len()) ==> #[trigger] of_slot(drain_order(b), slot, k) == Seq::<T>::empty(),
    decreases b.len(),
{
    if b.len() == 0 {
        assert forall|k: int| #[trigger] of_slot(drain_order(b), slot, k) == Seq::<T>::empty() by {
            assert(drain_order(b).filter(slot_is(slot, k)) =~= Seq::<T>::empty());
        }
    } else {
        let dl = b.drop_last();
        let last = b.last();
        let d = drain_order(b);
        let rest = drain_order(dl);
        assert(filed_by(dl, slot)) by {
            assert forall|i: int, j: int| 0 <= i < dl.len() && 0 <= j < dl[i].len() implies slot(
                #[trigger] dl[i][j],
            ) == i by {
                assert(dl[i][j] == b[i][j]);
            }
        }
        lemma_drain_order_sorted(dl, slot);
        assert forall|i: int| 0 <= i < d.len() implies 0 <= slot(#[trigger] d[i]) < b.len() by {
            if i < rest.len() {
                assert(d[i] == rest[i]);
            } else {
                assert(d[i] == b[b.len() - 1][i - rest.len()]);
            }
        }
        assert forall|i: int, j: int| 0 <= i < j < d.len() implies slot(#[trigger] d[i]) <= slot(
            #[trigger] d[j],
        ) by {
            if j < rest.len() {
                assert(d[i] == rest[i] && d[j] == rest[j]);
            } else {
                assert(d[j] == b[b.len() - 1][j - rest.len()]);
                if i < rest.len() {
                    assert(d[i] == rest[i]);
                } else {
                    assert(d[i] == b[b.len() - 1][i - rest.len()]);
                }
            }
        }
        assert forall|k: int| #[trigger] of_slot(d, slot, k) == (if 0 <= k < b.len() {
            b[k]
        } else {
            Seq::<T>::empty()
        }) by {
            let pred = slot_is(slot, k);
            Seq::filter_distributes_over_add(rest, last, pred);
            assert(of_slot(rest, slot, k) == rest.filter(pred));
            if k == b.len() - 1 {
                assert(last.filter(pred) =~= last) by {
                    lemma_filter_all(last, pred);
                }
                assert(rest.filter(pred) == Seq::<T>::empty());
                assert(Seq::<T>::empty() + last =~= last);
            } else {
                assert(last.filter(pred) =~= Seq::<T>::empty()) by {
                    lemma_filter_none(last, pred);
                }
                assert(rest.filter(pred) + Seq::<T>::empty() =~= rest.filter(pred));
                if 0 <= k < dl.len() {
                    assert(of_slot(rest, slot, k) == dl[k]);
                    assert(dl[k] == b[k]);
                }
            }
        }
    }
}

/// A filter that every element passes keeps the sequence.
pub proof fn lemma_filter_all<T>(s: Seq<T>, pred: spec_fn(T) -> bool)
    requires
        forall|i: int| 0 <= i < s.len() ==> pred(#[trigger] s[i]),
    ensures
        s.filter(pred) == s,
    decreases s.len(),
{
    reveal(Seq::filter);
    if s.len() > 0 {
        lemma_filter_all(s.drop_last(), pred);
        assert(s =~= s.drop_last().push(s.last()));
    }
}

/// A filter that no element passes leaves nothing.
pub proof fn lemma_filter_none<T>(s: Seq<T>, pred: spec_fn(T) -> bool)
    requires
        forall|i: int| 0 <= i < s.len() ==> !pred(#[trigger] s[i]),
    ensures
        s.filter(pred) == Seq::<T>::empty(),
    decreases s.len(),
{
    reveal(Seq::filter);
    if s.len() > 0 {
        lemma_filter_none(s.drop_last(), pred);
    }
}

/// Pushes followed by pops until the queue is empty: the bucket indices of the
/// elements that leave never fall, and the elements of one bucket index leave
/// in the order in which they were pushed.
///
/// `es` are the elements pushed, in order, onto a new queue of `n` buckets
/// that files by `slot`; as many pops follow as there were pushes.
pub proof fn law_pop_order<T>(n: nat, slot: spec_fn(T) -> int, es: Seq<T>)
    requires
        all_fit(slot, es, n),
    ensures
        ({
            let b = after_push_all(empty_buckets::<T>(n), slot, es);
            let out = drain_order(b);
            &&& out.len() == es.len()
            &&& popped(b, es.len()) == Seq::new(es.len(), |i: int| Some(out[i]))
            &&& forall|i: int, j: int|
                0 <= i < j < out.len() ==> slot(#[trigger] out[i]) <= slot(#[trigger] out[j])
            &&& forall|k: int| #[trigger] of_slot(out, slot, k) == of_slot(es, slot, k)
        }),
{
    let b0 = empty_buckets::<T>(n);
    let b = after_push_all(b0, slot, es);
    let out = drain_order(b);
    lemma_all_empty_total(b0);
    lemma_push_all(b0, slot, es);
    lemma_pops_take_prefix(b, es.len());
    lemma_drain_order_sorted(b, slot);
    assert forall|k: int| #[trigger] of_slot(out, slot, k) == of_slot(es, slot, k) by {
        if 0 <= k < n {
            lemma_buckets_hold_slots(n, slot, es, k);
        } else {
            let pred = slot_is(slot, k);
            lemma_filter_none(es, pred);
        }
    }
}

/// After `count` pushes onto a new queue, exactly `count` pops return an
/// element: the queue is empty after the last of them and not before, and
/// every later pop returns nothing.
pub proof fn law_pop_count<T>(n: nat, slot: spec_fn(T) -> int, es: Seq<T>, pops: nat)
    requires
        all_fit(slot, es, n),
    ensures
        ({
            let b = after_push_all(empty_buckets::<T>(n), slot, es);
            &&& pops <= es.len() ==> total(after_pops(b, pops)) == es.len() - pops
            &&& pops < es.len() ==> front(after_pops(b, pops)) is Some
            &&& pops >= es.len() ==> total(after_pops(b, pops)) == 0 && front(after_pops(b, pops)) is None
        }),
{
    let b0 = empty_buckets::<T>(n);
    let b = after_push_all(b0, slot, es);
    lemma_all_empty_total(b0);
    lemma_push_all(b0, slot, es);
    if pops <= es.len() {
        lemma_pops_take_prefix(b, pops);
        lemma_empty_iff_cursor_at_end(after_pops(b, pops));
    }
    if pops >= es.len() {
        lemma_pops_past_the_end(b, pops);
    }
}

/// Two sequences of the same elements still have the same elements after a
/// function was applied to each.
pub proof fn lemma_map_keeps_elements<A, B>(a: Seq<A>, b: Seq<A>, f: spec_fn(A) -> B)
    requires
        a.to_multiset() == b.to_multiset(),
    ensures
        a.map_values(f).to_multiset() == b.map_values(f).to_multiset(),
    decreases a.len(),
{
    broadcast use vstd::seq_lib::group_to_multiset_ensures;
    broadcast use vstd::multiset::group_multiset_axioms;
    a.to_multiset_ensures();
    b.to_multiset_ensures();
    assert(a.len() == b.len());
    if a.len() == 0 {
        assert(a.map_values(f) =~= b.map_values(f));
    } else {
        let x = a.last();
        let rest = a.drop_last();
        assert(a =~= rest.push(x));
        assert(a.to_multiset().count(x) > 0) by {
            assert(a[a.len() - 1] == x);
        }
        assert(b.contains(x));
        let i = choose|i: int| 0 <= i < b.len() && b[i] == x;
        let others = b.remove(i);
        vstd::seq_lib::to_multiset_remove(b, i);
        assert(rest.to_multiset() =~= others.to_multiset());
        lemma_map_keeps_elements(rest, others, f);
        assert(a.map_values(f) =~= rest.map_values(f).push(f(x)));
        assert(b.map_values(f) =~= others.map_values(f).insert(i, f(x)));
        vstd::seq_lib::to_multiset_insert(others.map_values(f), i, f(x));
        assert(a.map_values(f).to_multiset() =~= b.map_values(f).to_multiset());
    }
}

/// The order of the integers.
pub open spec fn int_leq() -> spec_fn(int, int) -> bool {
    |x: int, y: int| x <= y
}

/// The bucket indices of the elements that leave the queue are those of a
/// copy of the pushed elements sorted by key, in the same order.
///
/// `es` are the elements pushed, in order, onto a new queue of `n` buckets
/// `width` keys wide; `sorted` holds the same elements with keys that never
/// fall.
pub proof fn law_matches_sorted_reference<'a, E: HasKey>(
    n: nat,
    width: u64,
    es: Seq<&'a E>,
    sorted: Seq<&'a E>,
)
    requires
        width > 0,
        all_fit(key_slots::<E>(width), es, n),
        sorted.to_multiset() == es.to_multiset(),
        forall|i: int, j: int|
            0 <= i < j < sorted.len() ==> (#[trigger] sorted[i]).key_spec() <= (
            #[trigger] sorted[j]).key_spec(),
    ensures
        drain_order(after_push_all(empty_buckets::<&'a E>(n), key_slots::<E>(width), es)).map_values(
            key_slots::<E>(width),
        ) == sorted.map_values(key_slots::<E>(width)),
{
    broadcast use vstd::multiset::group_multiset_axioms;
    let slot = key_slots::<E>(width);
    let b0 = empty_buckets::<&'a E>(n);
    let b = after_push_all(b0, slot, es);
    let out = drain_order(b);
    lemma_all_empty_total(b0);
    lemma_push_all(b0, slot, es);
    assert(out.to_multiset() =~= es.to_multiset()) by {
        assert(drain_order(b0).to_multiset() =~= Multiset::<&'a E>::empty()) by {
            broadcast use vstd::seq_lib::group_to_multiset_ensures;
        }
    }
    law_pop_order(n, slot, es);
    lemma_map_keeps_elements(out, sorted, slot);
    let x = out.map_values(slot);
    let y = sorted.map_values(slot);
    assert(vstd::relations::sorted_by(x, int_leq()));
    assert(vstd::relations::sorted_by(y, int_leq())) by {
        assert forall|i: int, j: int| 0 <= i < j < y.len() implies (int_leq())(y[i], y[j]) by {
            lemma_slot_monotone(sorted[i].key_spec(), sorted[j].key_spec(), width);
        }
    }
    assert(vstd::relations::total_ordering(int_leq()));
    vstd::seq_lib::lemma_sorted_unique(x, y, int_leq());
}

/// Bulk pops never lower the cursor, and each moves it up unless it is at the
/// end; the row stays filed.
pub proof fn lemma_bulk_pops_rise<T>(b: Seq<Seq<T>>, slot: spec_fn(T) -> int, i: nat, j: nat)
    requires
        filed_by(b, slot),
        i <= j,
    ensures
        after_bulk_pops(b, j).len() == b.len(),
        filed_by(after_bulk_pops(b, j), slot),
        cursor_of(after_bulk_pops(b, i)) <= cursor_of(after_bulk_pops(b, j)) <= b.len(),
        i < j && cursor_of(after_bulk_pops(b, i)) < b.len() ==> cursor_of(after_bulk_pops(b, i))
            < cursor_of(after_bulk_pops(b, j)),
        drain_order(bulk_popped(b, j)) + drain_order(after_bulk_pops(b, j)) == drain_order(b),
    decreases j,
{
    if j == 0 {
        lemma_scan_from(b, 0);
        assert(drain_order(bulk_popped(b, j)) + drain_order(b) =~= drain_order(b));
    } else {
        let m = (j - 1) as nat;
        let mid = after_bulk_pops(b, m);
        let end = after_bulk_pops(b, j);
        if i <= m {
            lemma_bulk_pops_rise(b, slot, i, m);
        } else {
            lemma_bulk_pops_rise(b, slot, m, m);
        }
        lemma_scan_from(mid, 0);
        let c = cursor_of(mid);
        assert(filed_by(end, slot)) by {
            assert forall|p: int, r: int| 0 <= p < end.len() && 0 <= r < end[p].len() implies slot(
                #[trigger] end[p][r],
            ) == p by {
                assert(end[p][r] == mid[p][r]);
            }
        }
        lemma_scan_from(end, 0);
        if c < mid.len() {
            assert(end[c].len() == 0);
            assert(forall|p: int| 0 <= p < c ==> (#[trigger] end[p]).len() == 0) by {
                assert forall|p: int| 0 <= p < c implies (#[trigger] end[p]).len() == 0 by {
                    assert(end[p] == mid[p]);
                }
            }
            if cursor_of(end) <= c {
                if cursor_of(end) < c {
                    assert(end[cursor_of(end)].len() > 0);
                }
            }
        }
        lemma_bulk_pop_takes_prefix(mid);
        let batches = bulk_popped(b, m);
        assert(bulk_popped(b, j).drop_last() =~= batches);
        assert(drain_order(bulk_popped(b, j)) + drain_order(end) =~= drain_order(batches) + drain_order(
            mid,
        ));
        if i == j {
        }
    }
}

/// A batch of pushes followed by bulk pops until the queue is empty: the
/// batches together are the pushed elements, none lost and none twice; all
/// elements of one batch have the same bucket index; and a later batch has a
/// higher bucket index than an earlier one.
///
/// `es` are the elements pushed onto a new queue of `n` buckets that files by
/// `slot`; `n` bulk pops follow, of which the last may return empty batches.
pub proof fn law_bulk_drain<T>(n: nat, slot: spec_fn(T) -> int, es: Seq<T>)
    requires
        all_fit(slot, es, n),
    ensures
        ({
            let b = after_push_all(empty_buckets::<T>(n), slot, es);
            let batches = bulk_popped(b, n);
            &&& total(after_bulk_pops(b, n)) == 0
            &&& batches.len() == n
            &&& drain_order(batches) == drain_order(b)
            &&& drain_order(batches).to_multiset() == es.to_multiset()
            &&& forall|i: int, x: int, y: int|
                0 <= i < n && 0 <= x < batches[i].len() && 0 <= y < batches[i].len() ==> slot(
                    #[trigger] batches[i][x],
                ) == slot(#[trigger] batches[i][y])
            &&& forall|i: int, j: int, x: int, y: int|
                0 <= i < j < n && 0 <= x < batches[i].len() && 0 <= y < batches[j].len() ==> slot(
                    #[trigger] batches[i][x],
                ) < slot(#[trigger] batches[j][y])
        }),
{
    broadcast use vstd::multiset::group_multiset_axioms;
    let b0 = empty_buckets::<T>(n);
    let b = after_push_all(b0, slot, es);
    let batches = bulk_popped(b, n);
    lemma_all_empty_total(b0);
    lemma_push_all(b0, slot, es);
    assert(drain_order(b).to_multiset() =~= es.to_multiset()) by {
        assert(drain_order(b0).to_multiset() =~= Multiset::<T>::empty()) by {
            broadcast use vstd::seq_lib::group_to_multiset_ensures;
        }
    }
    lemma_bulk_popped_len(b, n);
    lemma_bulk_cursor_counts(b, slot, n);
    lemma_bulk_pops_rise(b, slot, n, n);
    lemma_empty_iff_cursor_at_end(after_bulk_pops(b, n));
    assert(drain_order(batches) =~= drain_order(b)) by {
        assert(drain_order(after_bulk_pops(b, n)) =~= Seq::<T>::empty());
    }
    assert forall|i: int, x: int| 0 <= i < n && 0 <= x < batches[i].len() implies slot(
        #[trigger] batches[i][x],
    ) == cursor_of(after_bulk_pops(b, i as nat)) && cursor_of(after_bulk_pops(b, i as nat)) < n by {
        lemma_bulk_popped_at(b, n, i);
        lemma_bulk_pops_rise(b, slot, i as nat, i as nat);
        lemma_scan_from(after_bulk_pops(b, i as nat), 0);
    }
    assert forall|i: int, j: int, x: int, y: int|
        0 <= i < j < n && 0 <= x < batches[i].len() && 0 <= y < batches[j].len() implies slot(
        #[trigger] batches[i][x],
    ) < slot(#[trigger] batches[j][y]) by {
        lemma_bulk_pops_rise(b, slot, i as nat, j as nat);
    }
}

/// `n` bulk pops return `n` batches.
pub proof fn lemma_bulk_popped_len<T>(b: Seq<Seq<T>>, n: nat)
    ensures
        bulk_popped(b, n).len() == n,
    decreases n,
{
    if n > 0 {
        lemma_bulk_popped_len(b, (n - 1) as nat);
    }
}

/// The batch of the bulk pop with index `i` is the lowest non-empty bucket of
/// the row after `i` bulk pops.
pub proof fn lemma_bulk_popped_at<T>(b: Seq<Seq<T>>, n: nat, i: int)
    requires
        0 <= i < n,
    ensures
        bulk_popped(b, n).len() == n,
        bulk_popped(b, n)[i] == front_batch(after_bulk_pops(b, i as nat)),
    decreases n,
{
    lemma_bulk_popped_len(b, n);
    lemma_bulk_popped_len(b, (n - 1) as nat);
    if i < n - 1 {
        lemma_bulk_popped_at(b, (n - 1) as nat, i);
    }
}

/// After `k` bulk pops the cursor stands at `k` or beyond, unless it has
/// reached the end.
pub proof fn lemma_bulk_cursor_counts<T>(b: Seq<Seq<T>>, slot: spec_fn(T) -> int, k: nat)
    requires
        filed_by(b, slot),
    ensures
        cursor_of(after_bulk_pops(b, k)) >= k || cursor_of(after_bulk_pops(b, k)) >= b.len(),
    decreases k,
{
    if k == 0 {
        lemma_scan_from(b, 0);
    } else {
        lemma_bulk_cursor_counts(b, slot, (k - 1) as nat);
        lemma_bulk_pops_rise(b, slot, (k - 1) as nat, k);
    }
}

/// Between two steps of a window's event loop, each pair with a record still
/// to be served has exactly one record in the queue, and that record is
/// queued once.
pub proof fn law_one_queued_per_pair<'a>(w: Seq<KeyVal>, q: Multiset<&'a KeyVal>, j: int)
    requires
        frontier(w, q),
        waiting(w, q).contains(j),
    ensures
        exists|x: &'a KeyVal|
            {
                &&& #[trigger] q.count(x) == 1
                &&& x.id == w[j].id
                &&& x.index <= j
                &&& forall|y: &'a KeyVal| #[trigger] q.count(y) > 0 && y.id == w[j].id ==> y == x
            },
{
    let x = choose|x: &'a KeyVal| #[trigger] q.count(x) > 0 && x.id == w[j].id && x.index <= j;
    assert(q.count(x) == 1);
    assert forall|y: &'a KeyVal| #[trigger] q.count(y) > 0 && y.id == w[j].id implies y == x by {
        assert(q.count(y) > 0 && q.count(x) > 0);
    }
}

/// Where the records of each pair stand in the window with keys that never
/// fall, a run that serves each pair's records in window order serves them
/// with keys that never fall.
pub proof fn law_pairs_served_in_time_order(w: Seq<KeyVal>, trace: Seq<usize>)
    requires
        pair_ordered(w),
        pairs_ascend(w, trace),
        forall|a: int| 0 <= a < trace.len() ==> (#[trigger] trace[a]) < w.len(),
    ensures
        forall|a: int, b: int|
            0 <= a < b < trace.len() && w[#[trigger] trace[a] as int].id == w[#[trigger] trace[b] as int].id
                ==> w[trace[a] as int].key <= w[trace[b] as int].key,
{
    assert forall|a: int, b: int|
        0 <= a < b < trace.len() && w[#[trigger] trace[a] as int].id
            == w[#[trigger] trace[b] as int].id implies w[trace[a] as int].key
        <= w[trace[b] as int].key by {
        assert(trace[a] < trace[b]);
        assert(w[trace[a] as int].id == w[trace[b] as int].id);
    }
}

/// One step of a window's event loop moves the record served from queued to
/// processed and the next record of its pair, if the window has one, from
/// pending to queued; every other record stays in its state.
pub proof fn law_step_moves_one_pair<'a>(w: Seq<KeyVal>, q: Multiset<&'a KeyVal>, m: &'a KeyVal, j: int)
    requires
        frontier(w, q),
        q.count(m) > 0,
        0 <= j < w.len(),
    ensures
        state_of(w, q, m.index as int) == EventState::Queued,
        state_of(w, after_step(w, q, m), m.index as int) == EventState::Processed,
        successor(w, m.index as int) < w.len() ==> {
            &&& state_of(w, q, successor(w, m.index as int)) == EventState::Pending
            &&& state_of(w, after_step(w, q, m), successor(w, m.index as int)) == EventState::Queued
        },
        j != m.index && j != successor(w, m.index as int) ==> state_of(w, after_step(w, q, m), j)
            == state_of(w, q, j),
{
    broadcast use vstd::multiset::group_multiset_axioms;
    let q2 = after_step(w, q, m);
    let s = successor(w, m.index as int);
    lemma_step(w, q, m);
    lemma_next_of(w, m.id, m.index + 1);
    assert(w[m.index as int] == *m);
    assert(waiting(w, q2).contains(j) <==> waiting(w, q).remove(m.index as int).contains(j));
    assert(!waiting(w, q2).contains(m.index as int));
    if s < w.len() {
        let k: &'a KeyVal = &w[s];
        if q.count(k) > 0 {
            assert(q.count(k) > 0 && q.count(m) > 0);
            assert(k == m);
        }
        assert(waiting(w, q).contains(s)) by {
            assert(q.count(m) > 0 && m.id == w[s].id && m.index <= s);
        }
    }
    if j != m.index && j != s {
        let x: &'a KeyVal = &w[j];
        assert(x.index == j);
        assert(q2.count(x) == q.count(x));
    }
}

} // verus!
