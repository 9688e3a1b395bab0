//! The event loop: a window's first event of each pair is queued, and each
//! event that is served brings in its pair's next event of the window.

use crate::event::{lemma_next_of, next_same_pair, successor, window_indexed, KeyVal};
use crate::key::{ConfigurationError, HasKey};
use crate::queue::{names_key, SeqentialPriorityQueue};
use std::collections::HashSet;
use vstd::multiset::Multiset;
use vstd::prelude::*;

verus! {

/// Every queued element is a record of the window, and is queued once.
pub open spec fn queued_from<'a>(w: Seq<KeyVal>, q: Multiset<&'a KeyVal>) -> bool {
    forall|x: &'a KeyVal| #[trigger]
        q.count(x) > 0 ==> x.index < w.len() && w[x.index as int] == *x && q.count(x) == 1
}

/// No two queued elements belong to the same pair.
pub open spec fn one_per_pair<'a>(q: Multiset<&'a KeyVal>) -> bool {
    forall|x: &'a KeyVal, y: &'a KeyVal|
        #![trigger q.count(x), q.count(y)]
        q.count(x) > 0 && q.count(y) > 0 && x.id == y.id ==> x == y
}

/// The state of a window's event loop between two steps: the queue holds
/// records of the window, at most one of each pair.
pub open spec fn frontier<'a>(w: Seq<KeyVal>, q: Multiset<&'a KeyVal>) -> bool {
    &&& window_indexed(w)
    &&& queued_from(w, q)
    &&& one_per_pair(q)
}

/// The record at position `j` is still to be served: it is queued, or a
/// record of its pair before it is.
pub open spec fn is_waiting<'a>(w: Seq<KeyVal>, q: Multiset<&'a KeyVal>, j: int) -> bool {
    &&& 0 <= j < w.len()
    &&& exists|x: &'a KeyVal| #[trigger] q.count(x) > 0 && x.id == w[j].id && x.index <= j
}

/// The positions of the records that are still to be served.
pub open spec fn waiting<'a>(w: Seq<KeyVal>, q: Multiset<&'a KeyVal>) -> Set<int> {
    Set::new(|j: int| is_waiting(w, q, j))
}

/// Where a record of the window stands in its life.
#[derive(Debug, Clone, Copy, PartialEq, Eq, Structural)]
pub enum EventState {
    /// In the window, not yet queued: a record of its pair before it is queued.
    Pending,
    /// In the queue.
    Queued,
    /// Served.
    Processed,
}

/// The state of the record at position `j` when the queue holds `q`.
pub open spec fn state_of<'a>(w: Seq<KeyVal>, q: Multiset<&'a KeyVal>, j: int) -> EventState {
    if q.count(&w[j]) > 0 {
        EventState::Queued
    } else if is_waiting(w, q, j) {
        EventState::Pending
    } else {
        EventState::Processed
    }
}

/// The queue after `m` was served and the next record of its pair, if the
/// window has one, was queued in its place.
pub open spec fn after_step<'a>(w: Seq<KeyVal>, q: Multiset<&'a KeyVal>, m: &'a KeyVal) -> Multiset<
    &'a KeyVal,
> {
    if successor(w, m.index as int) < w.len() {
        q.remove(m).insert(&w[successor(w, m.index as int)])
    } else {
        q.remove(m)
    }
}

/// The waiting positions are finitely many, no more than the window has.
pub proof fn lemma_waiting_finite<'a>(w: Seq<KeyVal>, q: Multiset<&'a KeyVal>)
    ensures
        waiting(w, q).finite(),
        waiting(w, q).len() <= w.len(),
{
    vstd::set_lib::lemma_int_range(0, w.len() as int);
    vstd::set_lib::lemma_len_subset(waiting(w, q), vstd::set_lib::set_int_range(0, w.len() as int));
}

/// One step of the loop keeps the state a frontier, and serves exactly one
/// waiting record: the queued one, which is the earliest waiting record of
/// its pair.
pub proof fn lemma_step<'a>(w: Seq<KeyVal>, q: Multiset<&'a KeyVal>, m: &'a KeyVal)
    requires
        frontier(w, q),
        q.count(m) > 0,
    ensures
        frontier(w, after_step(w, q, m)),
        waiting(w, q).contains(m.index as int),
        waiting(w, after_step(w, q, m)) == waiting(w, q).remove(m.index as int),
        forall|j: int| waiting(w, q).contains(j) && w[j].id == m.id ==> m.index <= j,
{
    broadcast use vstd::multiset::group_multiset_axioms;
    let q2 = after_step(w, q, m);
    let s = successor(w, m.index as int);
    lemma_next_of(w, m.id, m.index + 1);
    assert(w[m.index as int] == *m);
    assert forall|x: &'a KeyVal| #[trigger] q2.count(x) > 0 implies x.index < w.len() && w[x.index as int]
        == *x && q2.count(x) == 1 by {
        if s < w.len() && *x == w[s] {
            if q.count(x) > 0 {
                assert(q.count(m) > 0);
                assert(x == m);
            }
        } else {
            assert(q.count(x) > 0);
        }
    }
    assert forall|x: &'a KeyVal, y: &'a KeyVal|
        #![trigger q2.count(x), q2.count(y)]
        q2.count(x) > 0 && q2.count(y) > 0 && x.id == y.id implies x == y by {
        if s < w.len() && *x == w[s] {
            if *y != w[s] {
                assert(q.count(y) > 0 && q.count(m) > 0);
                assert(y == m);
            }
        } else if s < w.len() && *y == w[s] {
            assert(q.count(x) > 0 && q.count(m) > 0);
            assert(x == m);
        } else {
            assert(q.count(x) > 0 && q.count(y) > 0);
        }
    }
    assert(is_waiting(w, q, m.index as int));
    assert forall|j: int| waiting(w, q).contains(j) && w[j].id == m.id implies m.index <= j by {
        let x = choose|x: &'a KeyVal| #[trigger] q.count(x) > 0 && x.id == w[j].id && x.index <= j;
        assert(q.count(x) > 0 && q.count(m) > 0);
        assert(x == m);
    }
    assert forall|j: int| waiting(w, q2).contains(j) <==> waiting(w, q).remove(m.index as int).contains(
        j,
    ) by {
        if is_waiting(w, q2, j) {
            let x = choose|x: &'a KeyVal| #[trigger] q2.count(x) > 0 && x.id == w[j].id && x.index <= j;
            if s < w.len() && *x == w[s] {
                assert(q.count(m) > 0 && m.id == w[j].id && m.index <= j);
            } else {
                assert(q.count(x) > 0);
                if j == m.index {
                    assert(q.count(x) > 0 && q.count(m) > 0);
                    assert(x == m);
                }
            }
        }
        if is_waiting(w, q, j) && j != m.index {
            let x = choose|x: &'a KeyVal| #[trigger] q.count(x) > 0 && x.id == w[j].id && x.index <= j;
            if x == m {
                assert(s <= j);
                let k: &'a KeyVal = &w[s];
                assert(q2.count(k) > 0 && k.id == w[j].id && k.index <= j);
            } else {
                assert(q2.count(x) > 0);
            }
        }
    }
    assert(waiting(w, q2) =~= waiting(w, q).remove(m.index as int));
}

/// The pair as one number, for use as a set's key.
pub open spec fn pair_code_spec(id: (u32, u32)) -> u64 {
    (id.0 as u64 * 0x1_0000_0000 + id.1 as u64) as u64
}

/// Packs the pair into one number; different pairs give different numbers.
pub fn pair_code(id: (u32, u32)) -> (code: u64)
    ensures
        code == pair_code_spec(id),
        forall|other: (u32, u32)| pair_code_spec(other) == code ==> other == id,
{
    let hi: u64 = id.0 as u64;
    let lo: u64 = id.1 as u64;
    assert(hi * 0x1_0000_0000 + lo <= u64::MAX) by (nonlinear_arith)
        requires
            hi <= 0xffff_ffff,
            lo <= 0xffff_ffff,
    ;
    assert forall|other: (u32, u32)| pair_code_spec(other) == hi * 0x1_0000_0000 + lo implies other
        == id by {
        let a = other.0 as int;
        let b = other.1 as int;
        assert(a * 0x1_0000_0000 + b == hi * 0x1_0000_0000 + lo ==> a == hi && b == lo)
            by (nonlinear_arith)
            requires
                0 <= a <= 0xffff_ffff,
                0 <= b <= 0xffff_ffff,
                0 <= hi <= 0xffff_ffff,
                0 <= lo <= 0xffff_ffff,
        ;
        assert(a * 0x1_0000_0000 + b <= u64::MAX) by (nonlinear_arith)
            requires
                0 <= a <= 0xffff_ffff,
                0 <= b <= 0xffff_ffff,
        ;
    }
    hi * 0x1_0000_0000 + lo
}

/// The queue has room for the record's key.
pub open spec fn fits<'a, PQ: SeqentialPriorityQueue<'a, KeyVal>>(heap: &PQ, k: KeyVal) -> bool {
    (heap.ranking())(k.key) < heap.ranks()
}

/// The queue has room for the key of every record of the window.
pub open spec fn all_records_fit<'a, PQ: SeqentialPriorityQueue<'a, KeyVal>>(
    heap: &PQ,
    w: Seq<KeyVal>,
) -> bool {
    forall|j: int| 0 <= j < w.len() ==> fits(heap, #[trigger] w[j])
}

/// The error tells of a record of the window whose key the queue has no room
/// for.
pub open spec fn names_record<'a, PQ: SeqentialPriorityQueue<'a, KeyVal>>(
    heap: &PQ,
    w: Seq<KeyVal>,
    err: ConfigurationError,
) -> bool {
    exists|j: int| 0 <= j < w.len() && names_key(heap.ranking(), heap.ranks(), (#[trigger] w[j]).key, err)
}

/// The record at position `j` is the first of its pair in the window.
pub open spec fn is_first(w: Seq<KeyVal>, j: int) -> bool {
    forall|i: int| 0 <= i < j ==> (#[trigger] w[i]).id != w[j].id
}

/// Queues the first record of each pair of the window, in window order. The
/// later records of a pair stay in the window until their predecessor is
/// served.
///
/// Fails at the first such record whose key the queue has no room for; the
/// records before it stay queued.
pub fn seed_window<'a, PQ: SeqentialPriorityQueue<'a, KeyVal>>(
    window: &'a Vec<KeyVal>,
    heap: &mut PQ,
) -> (r: Result<(), ConfigurationError>)
    requires
        old(heap).inv(),
        old(heap).contents().len() == 0,
        window_indexed(window@),
    ensures
        final(heap).inv(),
        final(heap).ranking() == old(heap).ranking(),
        final(heap).ranks() == old(heap).ranks(),
        r is Ok <==> forall|j: int|
            0 <= j < window@.len() && is_first(window@, j) ==> fits(old(heap), #[trigger] window@[j]),
        r matches Err(err) ==> exists|j: int|
            {
                &&& 0 <= j < window@.len()
                &&& is_first(window@, j)
                &&& names_key(old(heap).ranking(), old(heap).ranks(), (#[trigger] window@[j]).key, err)
                &&& forall|i: int|
                    0 <= i < window@.len() ==> (final(heap).contents().count(&#[trigger] window@[i]) > 0
                        <==> i < j && is_first(window@, i))
            },
        r is Ok ==> {
            &&& frontier(window@, final(heap).contents())
            &&& forall|j: int| 0 <= j < window@.len() ==> waiting(window@, final(heap).contents()).contains(j)
            &&& forall|j: int|
                0 <= j < window@.len() ==> (final(heap).contents().count(&window@[j]) > 0 <==> is_first(
                    window@,
                    j,
                ))
        },
{
    broadcast use vstd::std_specs::hash::group_hash_axioms;
    broadcast use vstd::multiset::group_multiset_axioms;
    let ghost w = window@;
    let mut ids: HashSet<u64> = HashSet::new();
    let mut j: usize = 0;
    while j < window.len()
        invariant
            j <= w.len(),
            w == window@,
            window_indexed(w),
            heap.inv(),
            heap.ranking() == old(heap).ranking(),
            heap.ranks() == old(heap).ranks(),
            forall|c: u64|
                ids@.contains(c) <==> exists|i: int|
                    0 <= i < j && pair_code_spec((#[trigger] w[i]).id) == c,
            queued_from(w, heap.contents()),
            forall|x: &'a KeyVal| #[trigger]
                heap.contents().count(x) > 0 ==> x.index < j && is_first(w, x.index as int),
            forall|i: int|
                0 <= i < j && is_first(w, i) ==> heap.contents().count(&#[trigger] w[i]) > 0 && fits(
                    old(heap),
                    w[i],
                ),
        decreases w.len() - j,
    {
        let k = &window[j];
        let code = pair_code(k.id);
        let ghost q = heap.contents();
        if !ids.contains(&code) {
            proof {
                assert(is_first(w, j as int)) by {
                    assert forall|i: int| 0 <= i < j implies (#[trigger] w[i]).id != w[j as int].id by {
                        if w[i].id == w[j as int].id {
                            assert(ids@.contains(pair_code_spec(w[i].id)));
                        }
                    }
                }
                if q.count(k) > 0 {
                    assert(k.index < j);
                }
            }
            match heap.push(k) {
                Ok(_) => {},
                Err(e) => {
                    proof {
                        assert(names_key(old(heap).ranking(), old(heap).ranks(), w[j as int].key, e));
                        assert forall|i: int| 0 <= i < w.len() implies (heap.contents().count(
                            &#[trigger] w[i],
                        ) > 0 <==> i < j && is_first(w, i)) by {
                            let x: &'a KeyVal = &w[i];
                            if heap.contents().count(x) > 0 {
                                assert(x.index < j && is_first(w, x.index as int));
                            }
                        }
                    }
                    return Err(e);
                },
            }
            ids.insert(code);
            proof {
                assert forall|i: int| 0 <= i < j + 1 && is_first(w, i) implies heap.contents().count(
                    &#[trigger] w[i],
                ) > 0 && fits(old(heap), w[i]) by {
                    if i < j {
                        assert(q.count(&w[i]) > 0);
                    }
                }
            }
        } else {
            proof {
                let i = choose|i: int| 0 <= i < j && pair_code_spec((#[trigger] w[i]).id) == code;
                assert(w[i].id == w[j as int].id);
                assert(!is_first(w, j as int));
            }
        }
        j += 1;
    }
    proof {
        let q = heap.contents();
        assert forall|x: &'a KeyVal, y: &'a KeyVal|
            #![trigger q.count(x), q.count(y)]
            q.count(x) > 0 && q.count(y) > 0 && x.id == y.id implies x == y by {
            assert(w[x.index as int] == *x && w[y.index as int] == *y);
            if x.index < y.index {
                assert(w[x.index as int].id != w[y.index as int].id);
            } else if y.index < x.index {
                assert(w[y.index as int].id != w[x.index as int].id);
            }
        }
        assert forall|p: int| 0 <= p < w.len() implies waiting(w, q).contains(p) by {
            lemma_first_of_pair(w, p);
            let i = first_of_pair(w, p);
            let x: &'a KeyVal = &w[i];
            assert(q.count(x) > 0 && x.id == w[p].id && x.index <= p);
        }
        assert forall|p: int| 0 <= p < w.len() && q.count(&w[p]) > 0 implies is_first(w, p) by {
            let x: &'a KeyVal = &w[p];
            assert(q.count(x) > 0);
        }
    }
    Ok(())
}

/// The position of the first record of the pair of the record at `p`.
pub open spec fn first_of_pair(w: Seq<KeyVal>, p: int) -> int {
    crate::event::next_of(w, w[p].id, 0)
}

/// The first record of a pair stands at or before every record of the pair,
/// and no record of the pair stands before it.
pub proof fn lemma_first_of_pair(w: Seq<KeyVal>, p: int)
    requires
        0 <= p < w.len(),
    ensures
        0 <= first_of_pair(w, p) <= p,
        w[first_of_pair(w, p)].id == w[p].id,
        is_first(w, first_of_pair(w, p)),
{
    lemma_next_of(w, w[p].id, 0);
}

/// Serves one event: takes an element of the least rank out of the queue and
/// queues the next record of its pair, if the window has one. Returns the
/// position of the record served, or `None` if the queue was empty.
///
/// Fails if the queue has no room for the key of that next record; the element
/// served is then out of the queue and nothing took its place.
pub fn process_next<'a, PQ: SeqentialPriorityQueue<'a, KeyVal>>(
    window: &'a Vec<KeyVal>,
    heap: &mut PQ,
) -> (r: Result<Option<usize>, ConfigurationError>)
    requires
        old(heap).inv(),
        frontier(window@, old(heap).contents()),
    ensures
        final(heap).inv(),
        final(heap).ranking() == old(heap).ranking(),
        final(heap).ranks() == old(heap).ranks(),
        match r {
            Ok(None) => old(heap).contents().len() == 0 && final(heap).contents() == old(
                heap,
            ).contents(),
            Ok(Some(p)) => {
                &&& p < window@.len()
                &&& old(heap).contents().count(&window@[p as int]) > 0
                &&& forall|x: &'a KeyVal|
                    old(heap).contents().count(x) > 0 ==> (old(heap).ranking())(window@[p as int].key)
                        <= (old(heap).ranking())(#[trigger] x.key_spec())
                &&& final(heap).contents() == after_step(
                    window@,
                    old(heap).contents(),
                    &window@[p as int],
                )
                &&& successor(window@, p as int) < window@.len() ==> fits(
                    old(heap),
                    window@[successor(window@, p as int)],
                )
                &&& frontier(window@, final(heap).contents())
                &&& waiting(window@, old(heap).contents()).contains(p as int)
                &&& waiting(window@, final(heap).contents()) == waiting(
                    window@,
                    old(heap).contents(),
                ).remove(p as int)
                &&& forall|j: int|
                    waiting(window@, old(heap).contents()).contains(j) && window@[j].id
                        == window@[p as int].id ==> p <= j
            },
            Err(err) => exists|p: int|
                {
                    &&& 0 <= p < window@.len()
                    &&& #[trigger] old(heap).contents().count(&window@[p]) > 0
                    &&& successor(window@, p) < window@.len()
                    &&& names_key(
                        old(heap).ranking(),
                        old(heap).ranks(),
                        window@[successor(window@, p)].key,
                        err,
                    )
                    &&& final(heap).contents() == old(heap).contents().remove(&window@[p])
                },
        },
{
    let ghost w = window@;
    let ghost q = heap.contents();
    match heap.pop() {
        None => Ok(None),
        Some(m) => {
            proof {
                lemma_step(w, q, m);
                assert(w[m.index as int] == *m);
            }
            match next_same_pair(window, m) {
                Some(k) => {
                    match heap.push(k) {
                        Ok(_) => Ok(Some(m.index)),
                        Err(e) => {
                            proof {
                                let p = m.index as int;
                                assert(q.count(&w[p]) > 0);
                            }
                            Err(e)
                        },
                    }
                },
                None => Ok(Some(m.index)),
            }
        },
    }
}

/// The queue has room for the key of every element it holds.
pub open spec fn all_queued_fit<'a, PQ: SeqentialPriorityQueue<'a, KeyVal>>(heap: &PQ) -> bool {
    forall|x: &'a KeyVal| #[trigger] heap.contents().count(x) > 0 ==> fits(heap, *x)
}

/// Within each pair, a later record of the window has no smaller key.
pub open spec fn pair_ordered(w: Seq<KeyVal>) -> bool {
    forall|i: int, j: int|
        0 <= i < j < w.len() && (#[trigger] w[i]).id == (#[trigger] w[j]).id ==> w[i].key <= w[j].key
}

/// The records at the positions of `trace`, in that order, have ranks that
/// never fall.
pub open spec fn ranks_never_fall(w: Seq<KeyVal>, ranking: spec_fn(u64) -> int, trace: Seq<usize>) -> bool {
    forall|a: int, b: int|
        0 <= a < b < trace.len() ==> ranking(w[#[trigger] trace[a] as int].key) <= ranking(
            w[#[trigger] trace[b] as int].key,
        )
}

/// Within each pair, the positions of `trace` ascend.
pub open spec fn pairs_ascend(w: Seq<KeyVal>, trace: Seq<usize>) -> bool {
    forall|a: int, b: int|
        0 <= a < b < trace.len() && w[#[trigger] trace[a] as int].id == w[#[trigger] trace[b] as int].id
            ==> trace[a] < trace[b]
}

/// Serves events until the queue is empty and returns the positions of the
/// records served, in the order in which they were served.
///
/// Every waiting record is served exactly once, the records of one pair in
/// window order. Where the keys within each pair never fall, the ranks of the
/// records served never fall either. Fails if and only if the queue has no
/// room for the key of some waiting record.
pub fn drain_window<'a, PQ: SeqentialPriorityQueue<'a, KeyVal>>(
    window: &'a Vec<KeyVal>,
    heap: &mut PQ,
) -> (r: Result<Vec<usize>, ConfigurationError>)
    requires
        old(heap).inv(),
        frontier(window@, old(heap).contents()),
        all_queued_fit(old(heap)),
    ensures
        final(heap).inv(),
        final(heap).ranking() == old(heap).ranking(),
        final(heap).ranks() == old(heap).ranks(),
        r is Ok <==> forall|j: int|
            waiting(window@, old(heap).contents()).contains(j) ==> fits(old(heap), #[trigger] window@[j]),
        match r {
            Ok(trace) => {
                &&& final(heap).contents().len() == 0
                &&& trace@.no_duplicates()
                &&& trace@.len() == waiting(window@, old(heap).contents()).len()
                &&& forall|p: usize|
                    trace@.contains(p) <==> waiting(window@, old(heap).contents()).contains(p as int)
                &&& pairs_ascend(window@, trace@)
                &&& pair_ordered(window@) ==> ranks_never_fall(window@, old(heap).ranking(), trace@)
            },
            Err(err) => exists|j: int|
                {
                    &&& #[trigger] waiting(window@, old(heap).contents()).contains(j)
                    &&& names_key(old(heap).ranking(), old(heap).ranks(), window@[j].key, err)
                },
        },
{
    let ghost w = window@;
    let ghost q0 = heap.contents();
    let ghost ranking = heap.ranking();
    let mut trace: Vec<usize> = Vec::new();
    proof {
        lemma_waiting_finite(w, q0);
    }
    while !heap.is_empty()
        invariant
            w == window@,
            q0 == old(heap).contents(),
            heap.inv(),
            heap.ranking() == ranking,
            ranking == old(heap).ranking(),
            heap.ranks() == old(heap).ranks(),
            frontier(w, heap.contents()),
            all_queued_fit(heap),
            trace@.no_duplicates(),
            waiting(w, heap.contents()).finite(),
            trace@.len() + waiting(w, heap.contents()).len() == waiting(w, q0).len(),
            forall|p: usize|
                trace@.contains(p) <==> waiting(w, q0).contains(p as int) && !waiting(
                    w,
                    heap.contents(),
                ).contains(p as int),
            forall|j: int| waiting(w, heap.contents()).contains(j) ==> waiting(w, q0).contains(j),
            forall|i: int| 0 <= i < trace@.len() ==> fits(heap, w[#[trigger] trace@[i] as int]),
            pairs_ascend(w, trace@),
            pair_ordered(w) ==> ranks_never_fall(w, ranking, trace@),
            pair_ordered(w) ==> forall|i: int, x: &'a KeyVal|
                0 <= i < trace@.len() && heap.contents().count(x) > 0 ==> ranking(
                    w[#[trigger] trace@[i] as int].key,
                ) <= ranking(#[trigger] x.key_spec()),
        decreases waiting(w, heap.contents()).len(),
    {
        let ghost q = heap.contents();
        let ghost pre = *heap;
        let ghost before = trace@;
        proof {
            lemma_waiting_finite(w, q);
        }
        match process_next(window, heap) {
            Err(e) => {
                proof {
                    let p = choose|p: int|
                        {
                            &&& 0 <= p < w.len()
                            &&& #[trigger] q.count(&w[p]) > 0
                            &&& successor(w, p) < w.len()
                            &&& names_key(pre.ranking(), pre.ranks(), w[successor(w, p)].key, e)
                            &&& heap.contents() == q.remove(&w[p])
                        };
                    let s = successor(w, p);
                    lemma_next_of(w, w[p].id, p + 1);
                    let m: &'a KeyVal = &w[p];
                    assert(q.count(m) > 0 && m.id == w[s].id && m.index <= s);
                    assert(waiting(w, q).contains(s));
                    assert(waiting(w, q0).contains(s));
                    assert(!fits(old(heap), w[s]));
                    assert(names_key(old(heap).ranking(), old(heap).ranks(), w[s].key, e));
                }
                return Err(e);
            },
            Ok(None) => {
                proof {
                    assert(false);
                }
            },
            Ok(Some(p)) => {
                let ghost m: &'a KeyVal = &w[p as int];
                let ghost q2 = heap.contents();
                trace.push(p);
                proof {
                    broadcast use vstd::multiset::group_multiset_axioms;
                    assert(trace@ == before.push(p));
                    assert(!before.contains(p));
                    assert forall|t: usize|
                        trace@.contains(t) <==> waiting(w, q0).contains(t as int) && !waiting(w, q2).contains(
                            t as int,
                        ) by {
                        if trace@.contains(t) {
                            let i = choose|i: int| 0 <= i < trace@.len() && trace@[i] == t;
                            if i < before.len() {
                                assert(before.contains(t));
                            }
                        }
                        if waiting(w, q0).contains(t as int) && !waiting(w, q2).contains(t as int) {
                            if t != p {
                                assert(before.contains(t));
                                let i = choose|i: int| 0 <= i < before.len() && before[i] == t;
                                assert(trace@[i] == t);
                            } else {
                                assert(trace@[before.len() as int] == p);
                            }
                        }
                    }
                    assert(fits(heap, *m)) by {
                        assert(q.count(m) > 0);
                    }
                    assert forall|i: int| 0 <= i < trace@.len() implies fits(
                        heap,
                        w[#[trigger] trace@[i] as int],
                    ) by {
                        if i < before.len() {
                            assert(trace@[i] == before[i]);
                        }
                    }
                    assert forall|x: &'a KeyVal| #[trigger] q2.count(x) > 0 implies fits(heap, *x) by {
                        if q.count(x) > 0 {
                        }
                    }
                    assert forall|a: int, b: int|
                        0 <= a < b < trace@.len() && w[#[trigger] trace@[a] as int].id
                            == w[#[trigger] trace@[b] as int].id implies trace@[a] < trace@[b] by {
                        assert(trace@[a] == before[a]);
                        if b < before.len() {
                            assert(trace@[b] == before[b]);
                        } else {
                            let t = before[a];
                            assert(before.contains(t));
                            assert(!is_waiting(w, q, t as int));
                            assert(q.count(m) > 0 && m.id == w[t as int].id);
                        }
                    }
                    if pair_ordered(w) {
                        assert forall|a: int, b: int| 0 <= a < b < trace@.len() implies ranking(
                            w[#[trigger] trace@[a] as int].key,
                        ) <= ranking(w[#[trigger] trace@[b] as int].key) by {
                            assert(trace@[a] == before[a]);
                            if b < before.len() {
                                assert(trace@[b] == before[b]);
                            } else {
                                assert(q.count(m) > 0);
                                assert(ranking(w[before[a] as int].key) <= ranking(m.key_spec()));
                            }
                        }
                        assert forall|i: int, x: &'a KeyVal|
                            0 <= i < trace@.len() && q2.count(x) > 0 implies ranking(
                            w[#[trigger] trace@[i] as int].key,
                        ) <= ranking(#[trigger] x.key_spec()) by {
                            let s = successor(w, p as int);
                            lemma_next_of(w, w[p as int].id, p + 1);
                            if s < w.len() && *x == w[s] {
                                heap.lemma_ranking_monotone(m.key, x.key);
                            } else {
                                assert(q.count(x) > 0);
                            }
                            assert(ranking(m.key_spec()) <= ranking(x.key_spec()));
                            if i < before.len() {
                                assert(trace@[i] == before[i]);
                                assert(q.count(m) > 0);
                                assert(ranking(w[before[i] as int].key) <= ranking(m.key_spec()));
                            }
                        }
                    }
                    lemma_waiting_finite(w, q2);
                }
            },
        }
    }
    proof {
        let q = heap.contents();
        assert(waiting(w, q).len() == 0) by {
            assert forall|j: int| !waiting(w, q).contains(j) by {
                if is_waiting(w, q, j) {
                    let x = choose|x: &'a KeyVal| #[trigger]
                        q.count(x) > 0 && x.id == w[j].id && x.index <= j;
                    assert(q.count(x) <= q.len()) by {
                        broadcast use vstd::multiset::group_multiset_axioms;
                    }
                }
            }
            assert(waiting(w, q) =~= Set::<int>::empty());
        }
        assert forall|j: int| !waiting(w, q).contains(j) by {
            if is_waiting(w, q, j) {
                let x = choose|x: &'a KeyVal| #[trigger] q.count(x) > 0 && x.id == w[j].id && x.index <= j;
                assert(q.count(x) <= q.len()) by {
                    broadcast use vstd::multiset::group_multiset_axioms;
                }
            }
        }
        assert forall|j: int| waiting(w, q0).contains(j) implies fits(old(heap), #[trigger] w[j]) by {
            let t = j as usize;
            assert(trace@.contains(t));
            let i = choose|i: int| 0 <= i < trace@.len() && trace@[i] == t;
            assert(fits(heap, w[trace@[i] as int]));
        }
    }
    Ok(trace)
}

/// Runs one window through the queue: queues the first record of each pair,
/// then serves events until the queue is empty. Returns the positions of the
/// records in the order in which they were served.
///
/// Every record of the window is served exactly once, the records of one pair
/// in window order. Fails if and only if the queue has no room for the key of
/// some record of the window.
pub fn process_window<'a, PQ: SeqentialPriorityQueue<'a, KeyVal>>(
    window: &'a Vec<KeyVal>,
    heap: &mut PQ,
) -> (r: Result<Vec<usize>, ConfigurationError>)
    requires
        old(heap).inv(),
        old(heap).contents().len() == 0,
        window_indexed(window@),
    ensures
        final(heap).inv(),
        final(heap).ranking() == old(heap).ranking(),
        final(heap).ranks() == old(heap).ranks(),
        r is Ok <==> all_records_fit(old(heap), window@),
        match r {
            Ok(trace) => {
                &&& final(heap).contents().len() == 0
                &&& trace@.len() == window@.len()
                &&& trace@.no_duplicates()
                &&& forall|p: usize| trace@.contains(p) <==> p < window@.len()
                &&& pairs_ascend(window@, trace@)
                &&& pair_ordered(window@) ==> ranks_never_fall(window@, old(heap).ranking(), trace@)
            },
            Err(err) => names_record(old(heap), window@, err),
        },
{
    let ghost w = window@;
    match seed_window(window, heap) {
        Err(e) => {
            proof {
                let j = choose|j: int|
                    0 <= j < w.len() && is_first(w, j) && names_key(
                        old(heap).ranking(),
                        old(heap).ranks(),
                        (#[trigger] w[j]).key,
                        e,
                    );
                assert(!fits(old(heap), w[j]));
            }
            return Err(e);
        },
        Ok(_) => {},
    }
    let ghost q = heap.contents();
    proof {
        assert forall|x: &'a KeyVal| #[trigger] q.count(x) > 0 implies fits(heap, *x) by {
            assert(w[x.index as int] == *x);
            assert(q.count(&w[x.index as int]) > 0);
        }
        vstd::set_lib::lemma_int_range(0, w.len() as int);
        assert(waiting(w, q) =~= vstd::set_lib::set_int_range(0, w.len() as int));
    }
    match drain_window(window, heap) {
        Err(e) => {
            proof {
                let j = choose|j: int|
                    {
                        &&& #[trigger] waiting(w, q).contains(j)
                        &&& names_key(heap.ranking(), heap.ranks(), w[j].key, e)
                    };
                assert(names_key(old(heap).ranking(), old(heap).ranks(), w[j].key, e));
            }
            Err(e)
        },
        Ok(trace) => {
            proof {
                assert forall|j: int| 0 <= j < w.len() implies fits(old(heap), #[trigger] w[j]) by {
                    assert(waiting(w, q).contains(j));
                }
            }
            Ok(trace)
        },
    }
}

/// The number of records in all windows together.
pub open spec fn total_records(data: Seq<Vec<KeyVal>>) -> nat
    decreases data.len(),
{
    if data.len() == 0 {
        0
    } else {
        total_records(data.drop_last()) + data.last()@.len()
    }
}

/// The first windows hold no more records than all of them.
pub proof fn lemma_total_records_grows(data: Seq<Vec<KeyVal>>, i: int)
    requires
        0 <= i <= data.len(),
    ensures
        total_records(data.take(i)) <= total_records(data),
    decreases data.len(),
{
    if i < data.len() {
        lemma_total_records_grows(data.drop_last(), i);
        assert(data.drop_last().take(i) =~= data.take(i));
    } else {
        assert(data.take(i) =~= data);
    }
}

/// Runs the windows through the queue one after the other, as
/// `process_window` does each, and returns how many events were served.
///
/// That number is the number of records in all windows. Fails if and only if
/// the queue has no room for the key of some record.
pub fn process_sequential<'a, PQ: SeqentialPriorityQueue<'a, KeyVal>>(
    data: &'a Vec<Vec<KeyVal>>,
    heap: &mut PQ,
) -> (r: Result<u64, ConfigurationError>)
    requires
        old(heap).inv(),
        old(heap).contents().len() == 0,
        forall|i: int| 0 <= i < data@.len() ==> window_indexed(#[trigger] data@[i]@),
        total_records(data@) <= u64::MAX,
    ensures
        final(heap).inv(),
        final(heap).ranking() == old(heap).ranking(),
        final(heap).ranks() == old(heap).ranks(),
        r is Ok <==> forall|i: int| 0 <= i < data@.len() ==> all_records_fit(old(heap), #[trigger] data@[i]@),
        match r {
            Ok(count) => count == total_records(data@) && final(heap).contents().len() == 0,
            Err(err) => exists|i: int|
                {
                    &&& 0 <= i < data@.len()
                    &&& names_record(old(heap), (#[trigger] data@[i])@, err)
                    &&& forall|k: int| 0 <= k < i ==> all_records_fit(old(heap), (#[trigger] data@[k])@)
                },
        },
{
    let mut count: u64 = 0;
    let mut i: usize = 0;
    while i < data.len()
        invariant
            i <= data@.len(),
            heap.inv(),
            heap.ranking() == old(heap).ranking(),
            heap.ranks() == old(heap).ranks(),
            heap.contents().len() == 0,
            forall|k: int| 0 <= k < data@.len() ==> window_indexed(#[trigger] data@[k]@),
            total_records(data@) <= u64::MAX,
            count == total_records(data@.take(i as int)),
            forall|k: int| 0 <= k < i ==> all_records_fit(old(heap), #[trigger] data@[k]@),
        decreases data@.len() - i,
    {
        proof {
            lemma_total_records_grows(data@, i + 1);
            assert(data@.take(i + 1).drop_last() =~= data@.take(i as int));
        }
        match process_window(&data[i], heap) {
            Err(e) => {
                proof {
                    assert(names_record(old(heap), data@[i as int]@, e));
                }
                return Err(e);
            },
            Ok(trace) => {
                count = count + trace.len() as u64;
            },
        }
        i += 1;
    }
    proof {
        assert(data@.take(i as int) =~= data@);
    }
    Ok(count)
}

} // verus!
