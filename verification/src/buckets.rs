//! The mathematical model of a row of buckets: a sequence of sequences, served
//! from the lowest non-empty bucket, front first.

use vstd::prelude::*;

verus! {

/// A row of `n` empty buckets.
pub open spec fn empty_buckets<T>(n: nat) -> Seq<Seq<T>> {
    Seq::new(n, |i: int| Seq::<T>::empty())
}

/// The index of the first non-empty bucket at or after `from`, or the number of
/// buckets if there is none.
pub open spec fn scan_from<T>(b: Seq<Seq<T>>, from: int) -> int
    decreases b.len() - from,
{
    if from >= b.len() {
        b.len() as int
    } else if from >= 0 && b[from].len() > 0 {
        from
    } else {
        scan_from(b, from + 1)
    }
}

/// The cursor: the index of the lowest non-empty bucket, or the number of
/// buckets if all are empty.
pub open spec fn cursor_of<T>(b: Seq<Seq<T>>) -> int {
    scan_from(b, 0)
}

/// All elements, bucket by bucket from the lowest index, each bucket front first.
pub open spec fn drain_order<T>(b: Seq<Seq<T>>) -> Seq<T>
    decreases b.len(),
{
    if b.len() == 0 {
        Seq::empty()
    } else {
        drain_order(b.drop_last()) + b.last()
    }
}

/// The number of elements held in all buckets together.
pub open spec fn total<T>(b: Seq<Seq<T>>) -> nat {
    drain_order(b).len()
}

/// The row after `e` was appended to bucket `index`.
pub open spec fn after_push<T>(b: Seq<Seq<T>>, index: int, e: T) -> Seq<Seq<T>> {
    b.update(index, b[index].push(e))
}

/// The row after the elements of `es` were appended one by one, each to the
/// bucket that `slot` assigns to it.
pub open spec fn after_push_all<T>(b: Seq<Seq<T>>, slot: spec_fn(T) -> int, es: Seq<T>) -> Seq<Seq<T>>
    decreases es.len(),
{
    if es.len() == 0 {
        b
    } else {
        after_push(after_push_all(b, slot, es.drop_last()), slot(es.last()), es.last())
    }
}

/// Every element of `es` has a bucket among `n`.
pub open spec fn all_fit<T>(slot: spec_fn(T) -> int, es: Seq<T>, n: nat) -> bool {
    forall|i: int| 0 <= i < es.len() ==> 0 <= slot(#[trigger] es[i]) < n
}

/// The position of the first element of `es`, at or after `from`, that has no
/// bucket among `n`; the length of `es` if every element has one.
pub open spec fn misfit_from<T>(slot: spec_fn(T) -> int, es: Seq<T>, n: nat, from: int) -> int
    decreases es.len() - from,
{
    if from >= es.len() {
        es.len() as int
    } else if from >= 0 && !(0 <= slot(es[from]) < n) {
        from
    } else {
        misfit_from(slot, es, n, from + 1)
    }
}

/// What `misfit_from` returns: every element between `from` and it has a
/// bucket, and the element at it, if there is one, has none.
pub proof fn lemma_misfit_from<T>(slot: spec_fn(T) -> int, es: Seq<T>, n: nat, from: int)
    requires
        0 <= from <= es.len(),
    ensures
        from <= misfit_from(slot, es, n, from) <= es.len(),
        forall|i: int| from <= i < misfit_from(slot, es, n, from) ==> 0 <= slot(#[trigger] es[i]) < n,
        misfit_from(slot, es, n, from) < es.len() ==> !(0 <= slot(es[misfit_from(slot, es, n, from)]) < n),
    decreases es.len() - from,
{
    if from < es.len() && 0 <= slot(es[from]) < n {
        lemma_misfit_from(slot, es, n, from + 1);
    }
}

/// The first misfit is the one position with a misfit at it and none before it.
pub proof fn lemma_misfit_unique<T>(slot: spec_fn(T) -> int, es: Seq<T>, n: nat, j: int)
    requires
        0 <= j <= es.len(),
        forall|i: int| 0 <= i < j ==> 0 <= slot(#[trigger] es[i]) < n,
        j < es.len() ==> !(0 <= slot(es[j]) < n),
    ensures
        misfit_from(slot, es, n, 0) == j,
        all_fit(slot, es, n) <==> j == es.len(),
{
    lemma_misfit_from(slot, es, n, 0);
}

/// The element that the next pop returns, if the row holds one.
pub open spec fn front<T>(b: Seq<Seq<T>>) -> Option<T> {
    if cursor_of(b) < b.len() {
        Some(b[cursor_of(b)][0])
    } else {
        None
    }
}

/// The row after one pop: the front of the lowest non-empty bucket is gone.
pub open spec fn after_pop<T>(b: Seq<Seq<T>>) -> Seq<Seq<T>> {
    if cursor_of(b) < b.len() {
        b.update(cursor_of(b), b[cursor_of(b)].drop_first())
    } else {
        b
    }
}

/// The batch that the next bulk pop returns: the whole lowest non-empty bucket,
/// or nothing if the row is empty.
pub open spec fn front_batch<T>(b: Seq<Seq<T>>) -> Seq<T> {
    if cursor_of(b) < b.len() {
        b[cursor_of(b)]
    } else {
        Seq::empty()
    }
}

/// The row after one bulk pop: the lowest non-empty bucket is emptied.
pub open spec fn after_bulk_pop<T>(b: Seq<Seq<T>>) -> Seq<Seq<T>> {
    if cursor_of(b) < b.len() {
        b.update(cursor_of(b), Seq::empty())
    } else {
        b
    }
}

/// Every element sits in the bucket that `slot` assigns to it.
pub open spec fn filed_by<T>(b: Seq<Seq<T>>, slot: spec_fn(T) -> int) -> bool {
    forall|i: int, j: int| 0 <= i < b.len() && 0 <= j < b[i].len() ==> slot(#[trigger] b[i][j]) == i
}

/// What `scan_from` returns: an index in range, nothing but empty buckets
/// between `from` and it, and a non-empty bucket at it unless it is the end.
pub proof fn lemma_scan_from<T>(b: Seq<Seq<T>>, from: int)
    requires
        0 <= from <= b.len(),
    ensures
        from <= scan_from(b, from) <= b.len(),
        forall|i: int| from <= i < scan_from(b, from) ==> (#[trigger] b[i]).len() == 0,
        scan_from(b, from) < b.len() ==> b[scan_from(b, from)].len() > 0,
    decreases b.len() - from,
{
    if from < b.len() && b[from].len() == 0 {
        lemma_scan_from(b, from + 1);
    }
}

/// An index with only empty buckets before it, and with a non-empty bucket at
/// it unless it is the end, is the cursor.
pub proof fn lemma_cursor_unique<T>(b: Seq<Seq<T>>, c: int)
    requires
        0 <= c <= b.len(),
        forall|i: int| 0 <= i < c ==> (#[trigger] b[i]).len() == 0,
        c < b.len() ==> b[c].len() > 0,
    ensures
        cursor_of(b) == c,
{
    lemma_scan_from(b, 0);
}

/// The first buckets hold no more elements than all of them; one bucket more
/// adds the elements of that bucket.
pub proof fn lemma_total_of_prefix<T>(b: Seq<Seq<T>>, k: int)
    requires
        0 <= k <= b.len(),
    ensures
        total(b.take(k)) <= total(b),
        k < b.len() ==> total(b.take(k + 1)) == total(b.take(k)) + b[k].len(),
        k == b.len() ==> total(b.take(k)) == total(b),
    decreases b.len(),
{
    if k < b.len() {
        lemma_total_of_prefix(b.drop_last(), k);
        assert(b.drop_last().take(k) =~= b.take(k));
        assert(b.take(k + 1).drop_last() =~= b.take(k));
    } else {
        assert(b.take(k) =~= b);
    }
}

/// Popping, one element or a batch, keeps the number of buckets.
pub proof fn lemma_pop_keeps_len<T>(b: Seq<Seq<T>>)
    ensures
        after_pop(b).len() == b.len(),
        after_bulk_pop(b).len() == b.len(),
{
    lemma_scan_from(b, 0);
}

/// A row of empty buckets holds nothing.
pub proof fn lemma_all_empty_total<T>(b: Seq<Seq<T>>)
    requires
        forall|i: int| 0 <= i < b.len() ==> (#[trigger] b[i]).len() == 0,
    ensures
        drain_order(b) == Seq::<T>::empty(),
    decreases b.len(),
{
    if b.len() > 0 {
        lemma_all_empty_total(b.drop_last());
        assert(drain_order(b) =~= Seq::<T>::empty());
    }
}

/// The row is empty exactly when the cursor stands at the end.
pub proof fn lemma_empty_iff_cursor_at_end<T>(b: Seq<Seq<T>>)
    ensures
        total(b) == 0 <==> cursor_of(b) >= b.len(),
        cursor_of(b) <= b.len(),
{
    lemma_scan_from(b, 0);
    if cursor_of(b) >= b.len() {
        lemma_all_empty_total(b);
    } else {
        lemma_drain_order_holds(b, cursor_of(b), 0);
    }
}

/// Every element of every bucket occurs in the drain order.
pub proof fn lemma_drain_order_holds<T>(b: Seq<Seq<T>>, i: int, j: int)
    requires
        0 <= i < b.len(),
        0 <= j < b[i].len(),
    ensures
        drain_order(b).contains(b[i][j]),
        drain_order(b).len() >= b[i].len(),
    decreases b.len(),
{
    let rest = drain_order(b.drop_last());
    if i == b.len() - 1 {
        assert(drain_order(b)[rest.len() + j] == b[i][j]);
    } else {
        lemma_drain_order_holds(b.drop_last(), i, j);
        let k = choose|k: int| 0 <= k < rest.len() && rest[k] == b[i][j];
        assert(drain_order(b)[k] == b[i][j]);
    }
}

/// Appending to one bucket inserts the element into the drain order right
/// after that bucket's last element; the total grows by one.
pub proof fn lemma_push_total<T>(b: Seq<Seq<T>>, index: int, e: T)
    requires
        0 <= index < b.len(),
    ensures
        total(after_push(b, index, e)) == total(b) + 1,
        drain_order(after_push(b, index, e)).to_multiset() == drain_order(b).to_multiset().insert(e),
    decreases b.len(),
{
    broadcast use vstd::seq_lib::group_to_multiset_ensures;
    let b2 = after_push(b, index, e);
    if index == b.len() - 1 {
        assert(b2.drop_last() =~= b.drop_last());
        assert(drain_order(b2) =~= drain_order(b).push(e));
    } else {
        lemma_push_total(b.drop_last(), index, e);
        assert(b2.drop_last() =~= after_push(b.drop_last(), index, e));
        assert(b2.last() == b.last());
        vstd::seq_lib::lemma_multiset_commutative(drain_order(b2.drop_last()), b.last());
        vstd::seq_lib::lemma_multiset_commutative(drain_order(b.drop_last()), b.last());
        assert(drain_order(b2).to_multiset() =~= drain_order(b).to_multiset().insert(e));
    }
}

/// One pop takes the head of the drain order and leaves its tail.
pub proof fn lemma_pop_takes_head<T>(b: Seq<Seq<T>>)
    requires
        total(b) > 0,
    ensures
        front(b) == Some(drain_order(b)[0]),
        drain_order(after_pop(b)) == drain_order(b).drop_first(),
    decreases b.len(),
{
    lemma_empty_iff_cursor_at_end(b);
    lemma_scan_from(b, 0);
    let c = cursor_of(b);
    let b2 = after_pop(b);
    let dl = b.drop_last();
    if c == b.len() - 1 {
        lemma_all_empty_total(dl);
        assert(b2.drop_last() =~= dl);
        assert(drain_order(b) =~= b.last());
        assert(drain_order(b2) =~= b.last().drop_first());
    } else {
        lemma_cursor_unique(dl, c);
        lemma_drain_order_holds(dl, c, 0);
        lemma_pop_takes_head(dl);
        assert(b2.drop_last() =~= after_pop(dl));
        assert(b2.last() == b.last());
        assert(drain_order(b2) =~= drain_order(b).drop_first());
    }
}

/// Where every element sits in the bucket that `slot` assigns to it, no
/// element has a lower slot than the element in front.
pub proof fn lemma_front_is_lowest<T>(b: Seq<Seq<T>>, slot: spec_fn(T) -> int)
    requires
        filed_by(b, slot),
        total(b) > 0,
    ensures
        front(b) is Some,
        slot(front(b).unwrap()) == cursor_of(b),
        forall|x: T| drain_order(b).contains(x) ==> cursor_of(b) <= #[trigger] slot(x),
{
    lemma_empty_iff_cursor_at_end(b);
    lemma_scan_from(b, 0);
    assert forall|x: T| drain_order(b).contains(x) implies cursor_of(b) <= #[trigger] slot(x) by {
        let (i, j) = lemma_drain_order_source(b, x);
    }
}

/// Every element of the drain order comes from some bucket.
pub proof fn lemma_drain_order_source<T>(b: Seq<Seq<T>>, x: T) -> (at: (int, int))
    requires
        drain_order(b).contains(x),
    ensures
        0 <= at.0 < b.len(),
        0 <= at.1 < b[at.0].len(),
        b[at.0][at.1] == x,
    decreases b.len(),
{
    let k = choose|k: int| 0 <= k < drain_order(b).len() && drain_order(b)[k] == x;
    if b.len() == 0 {
        (0, 0)
    } else {
        let rest = drain_order(b.drop_last());
        if k < rest.len() {
            assert(rest[k] == x);
            lemma_drain_order_source(b.drop_last(), x)
        } else {
            (b.len() - 1, k - rest.len())
        }
    }
}

/// One bulk pop takes the lowest non-empty bucket off the head of the drain
/// order and leaves the rest.
pub proof fn lemma_bulk_pop_takes_prefix<T>(b: Seq<Seq<T>>)
    ensures
        drain_order(b) == front_batch(b) + drain_order(after_bulk_pop(b)),
    decreases b.len(),
{
    lemma_scan_from(b, 0);
    let c = cursor_of(b);
    let b2 = after_bulk_pop(b);
    let dl = b.drop_last();
    if c >= b.len() {
        assert(drain_order(b) =~= front_batch(b) + drain_order(b2));
    } else if c == b.len() - 1 {
        lemma_all_empty_total(dl);
        assert(b2.drop_last() =~= dl);
        assert(drain_order(b) =~= front_batch(b) + drain_order(b2));
    } else {
        lemma_cursor_unique(dl, c);
        lemma_bulk_pop_takes_prefix(dl);
        assert(b2.drop_last() =~= after_bulk_pop(dl));
        assert(b2.last() == b.last());
        assert(drain_order(b) =~= front_batch(b) + drain_order(b2));
    }
}

/// Appending a fitting batch adds exactly its elements, and the row keeps
/// its length and stays filed.
pub proof fn lemma_push_all<T>(b: Seq<Seq<T>>, slot: spec_fn(T) -> int, es: Seq<T>)
    requires
        all_fit(slot, es, b.len()),
    ensures
        after_push_all(b, slot, es).len() == b.len(),
        drain_order(after_push_all(b, slot, es)).to_multiset() == drain_order(b).to_multiset().add(
            es.to_multiset(),
        ),
        total(after_push_all(b, slot, es)) == total(b) + es.len(),
        filed_by(b, slot) ==> filed_by(after_push_all(b, slot, es), slot),
    decreases es.len(),
{
    broadcast use vstd::seq_lib::group_to_multiset_ensures;
    broadcast use vstd::multiset::group_multiset_axioms;
    if es.len() == 0 {
        assert(es.to_multiset() =~= vstd::multiset::Multiset::<T>::empty());
        assert(drain_order(b).to_multiset().add(es.to_multiset()) =~= drain_order(b).to_multiset());
    } else {
        let rest = es.drop_last();
        let e = es.last();
        assert(all_fit(slot, rest, b.len())) by {
            assert forall|i: int| 0 <= i < rest.len() implies 0 <= slot(#[trigger] rest[i]) < b.len() by {
                assert(rest[i] == es[i]);
            }
        }
        lemma_push_all(b, slot, rest);
        let mid = after_push_all(b, slot, rest);
        lemma_push_total(mid, slot(e), e);
        assert(es =~= rest.push(e));
        assert(drain_order(after_push_all(b, slot, es)).to_multiset() =~= drain_order(b).to_multiset().add(
            es.to_multiset(),
        ));
    }
}

/// One bulk pop splits the elements into the batch and the rest, and no
/// element of the rest has a lower slot than the batch, whose elements all
/// have the cursor's slot.
pub proof fn lemma_bulk_pop_splits<T>(b: Seq<Seq<T>>, slot: spec_fn(T) -> int)
    requires
        filed_by(b, slot),
    ensures
        drain_order(b).to_multiset() == front_batch(b).to_multiset().add(
            drain_order(after_bulk_pop(b)).to_multiset(),
        ),
        front_batch(b).len() == 0 <==> total(b) == 0,
        filed_by(after_bulk_pop(b), slot),
        forall|i: int| 0 <= i < front_batch(b).len() ==> slot(#[trigger] front_batch(b)[i]) == cursor_of(b),
        forall|x: T| drain_order(after_bulk_pop(b)).contains(x) ==> cursor_of(b) <= #[trigger] slot(x),
{
    lemma_bulk_pop_takes_prefix(b);
    lemma_empty_iff_cursor_at_end(b);
    lemma_scan_from(b, 0);
    vstd::seq_lib::lemma_multiset_commutative(front_batch(b), drain_order(after_bulk_pop(b)));
    let b2 = after_bulk_pop(b);
    assert forall|x: T| drain_order(b2).contains(x) implies cursor_of(b) <= #[trigger] slot(x) by {
        let (i, j) = lemma_drain_order_source(b2, x);
        assert(b2[i][j] == b[i][j]);
    }
}

} // verus!
