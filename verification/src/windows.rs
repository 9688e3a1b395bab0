//! The coarse windows: the records are dealt into a fixed number of windows
//! by time, each window keeping its records in the order in which they came.

use crate::driver::total_records;
use crate::event::{window_indexed, KeyVal};
use crate::key::slot_of;
use vstd::prelude::*;

verus! {

/// The number of windows that a run is cut into unless the caller chooses
/// another.
pub const WINDOW_COUNT: usize = 500;

/// One ingested record: which pair collides, and when.
#[derive(Debug, Clone, Copy, PartialEq, Eq)]
pub struct Occurrence {
    /// The two entities.
    pub id: (u32, u32),
    /// The time of the collision.
    pub time: u64,
}

/// A record whose time lies outside every window.
#[derive(Debug, Clone, Copy, PartialEq, Eq, Structural)]
pub struct WindowError {
    /// The position of the first such record.
    pub record: usize,
}

/// The index of the window of a record of time `time`, where `count` windows
/// of equal width span the times up to `max_time`:
/// `floor(time / (max_time / count))`.
pub open spec fn window_index(time: u64, max_time: u64, count: usize) -> int {
    (time as int * count as int) / max_time as int
}

/// The record of time `time` has a window among the `count`.
pub open spec fn has_window(time: u64, max_time: u64, count: usize) -> bool {
    max_time > 0 && window_index(time, max_time, count) < count
}

/// A record has a window exactly when its time lies before `max_time`.
pub proof fn lemma_has_window(time: u64, max_time: u64, count: usize)
    ensures
        has_window(time, max_time, count) <==> count > 0 && time < max_time,
        max_time > 0 ==> 0 <= window_index(time, max_time, count),
{
    if max_time > 0 {
        let t = time as int;
        let c = count as int;
        let m = max_time as int;
        vstd::arithmetic::div_mod::lemma_fundamental_div_mod(t * c, m);
        vstd::arithmetic::div_mod::lemma_mod_bound(t * c, m);
        let q = (t * c) / m;
        assert(0 <= t * c) by (nonlinear_arith)
            requires
                0 <= t,
                0 <= c,
        ;
        assert(0 <= q) by (nonlinear_arith)
            requires
                0 <= t * c,
                0 < m,
                q == (t * c) / m,
        ;
        if c > 0 && t < m {
            assert(q < c) by (nonlinear_arith)
                requires
                    t * c == m * q + (t * c) % m,
                    0 <= (t * c) % m,
                    t < m,
                    0 < c,
                    0 < m,
                    0 <= t,
            ;
        }
        if q < c {
            assert(t < m) by (nonlinear_arith)
                requires
                    t * c == m * q + (t * c) % m,
                    (t * c) % m < m,
                    q < c,
                    0 < m,
                    0 <= q,
                    0 <= t,
            ;
        }
    }
}

/// Finds the window of a record, or `None` if the record has none.
pub fn window_of(time: u64, max_time: u64, count: usize) -> (r: Option<usize>)
    ensures
        r is Some <==> has_window(time, max_time, count),
        r matches Some(v) ==> v == window_index(time, max_time, count) && v < count,
{
    proof {
        lemma_has_window(time, max_time, count);
    }
    if max_time == 0 || count == 0 || time >= max_time {
        return None;
    }
    assert(time as int * count as int <= 0xffff_ffff_ffff_ffff * 0xffff_ffff_ffff_ffff) by (nonlinear_arith)
        requires
            0 <= time <= 0xffff_ffff_ffff_ffff,
            0 <= count <= 0xffff_ffff_ffff_ffff,
    ;
    let product: u128 = (time as u128) * (count as u128);
    let v: u128 = product / (max_time as u128);
    Some(v as usize)
}

/// The largest time among the records, or zero if there is no record.
pub fn max_time(records: &Vec<Occurrence>) -> (max: u64)
    ensures
        forall|i: int| 0 <= i < records@.len() ==> (#[trigger] records@[i]).time <= max,
        records@.len() == 0 ==> max == 0,
        records@.len() > 0 ==> exists|i: int| 0 <= i < records@.len() && (#[trigger] records@[i]).time == max,
{
    let mut max: u64 = 0;
    let mut i: usize = 0;
    while i < records.len()
        invariant
            i <= records@.len(),
            forall|k: int| 0 <= k < i ==> (#[trigger] records@[k]).time <= max,
            i == 0 ==> max == 0,
            i > 0 ==> exists|k: int| 0 <= k < i && (#[trigger] records@[k]).time == max,
        decreases records@.len() - i,
    {
        if records[i].time > max || i == 0 {
            max = records[i].time;
        }
        i += 1;
    }
    max
}

/// The test for a record of window `v`.
pub open spec fn in_window(max_time: u64, count: usize, v: int) -> spec_fn(Occurrence) -> bool {
    |r: Occurrence| window_index(r.time, max_time, count) == v
}

/// The records of window `v`, in the order in which they came.
pub open spec fn members(records: Seq<Occurrence>, max_time: u64, count: usize, v: int) -> Seq<Occurrence> {
    records.filter(in_window(max_time, count, v))
}

/// The window holds the given records in order, each with its position.
pub open spec fn holds_in_order(window: Seq<KeyVal>, of: Seq<Occurrence>) -> bool {
    &&& window.len() == of.len()
    &&& forall|j: int|
        0 <= j < window.len() ==> #[trigger] window[j] == (KeyVal {
            key: of[j].time,
            id: of[j].id,
            index: j as usize,
        })
}

/// Windows that are all empty hold no record.
pub proof fn lemma_no_records(data: Seq<Vec<KeyVal>>)
    requires
        forall|k: int| 0 <= k < data.len() ==> (#[trigger] data[k])@.len() == 0,
    ensures
        total_records(data) == 0,
    decreases data.len(),
{
    if data.len() > 0 {
        lemma_no_records(data.drop_last());
    }
}

/// Where one window gains one record and the others stay as they are, the
/// windows hold one record more.
pub proof fn lemma_one_record_more(before: Seq<Vec<KeyVal>>, after: Seq<Vec<KeyVal>>, v: int)
    requires
        before.len() == after.len(),
        0 <= v < before.len(),
        after[v]@.len() == before[v]@.len() + 1,
        forall|k: int| 0 <= k < before.len() && k != v ==> (#[trigger] after[k])@.len() == before[k]@.len(),
    ensures
        total_records(after) == total_records(before) + 1,
    decreases before.len(),
{
    if v == before.len() - 1 {
        lemma_same_records(before.drop_last(), after.drop_last());
    } else {
        lemma_one_record_more(before.drop_last(), after.drop_last(), v);
        assert(after.last()@.len() == before.last()@.len());
    }
}

/// Windows of the same sizes hold the same number of records.
pub proof fn lemma_same_records(before: Seq<Vec<KeyVal>>, after: Seq<Vec<KeyVal>>)
    requires
        before.len() == after.len(),
        forall|k: int| 0 <= k < before.len() ==> (#[trigger] after[k])@.len() == before[k]@.len(),
    ensures
        total_records(after) == total_records(before),
    decreases before.len(),
{
    if before.len() > 0 {
        lemma_same_records(before.drop_last(), after.drop_last());
        assert(after.last()@.len() == before.last()@.len());
    }
}

/// Deals the records into `window_count` windows by
/// `floor(time / (max_time / window_count))`. Each window holds its records in
/// the order in which they came, and each record carries its position in its
/// window.
///
/// Fails if a record has no window, which is so exactly when its time is not
/// below `max_time` or there is no window at all; the error names the first
/// such record.
pub fn partition(records: &Vec<Occurrence>, max_time: u64, window_count: usize) -> (r: Result<
    Vec<Vec<KeyVal>>,
    WindowError,
>)
    ensures
        match r {
            Ok(data) => {
                &&& forall|i: int|
                    0 <= i < records@.len() ==> has_window(
                        (#[trigger] records@[i]).time,
                        max_time,
                        window_count,
                    )
                &&& data@.len() == window_count
                &&& forall|v: int|
                    0 <= v < window_count ==> holds_in_order(
                        (#[trigger] data@[v])@,
                        members(records@, max_time, window_count, v),
                    )
                &&& forall|v: int| 0 <= v < window_count ==> window_indexed((#[trigger] data@[v])@)
                &&& total_records(data@) == records@.len()
            },
            Err(e) => {
                &&& e.record < records@.len()
                &&& !has_window(records@[e.record as int].time, max_time, window_count)
                &&& forall|i: int|
                    0 <= i < e.record ==> has_window(
                        (#[trigger] records@[i]).time,
                        max_time,
                        window_count,
                    )
            },
        },
{
    let mut data: Vec<Vec<KeyVal>> = Vec::new();
    let mut v: usize = 0;
    while v < window_count
        invariant
            v <= window_count,
            data@.len() == v,
            forall|k: int| 0 <= k < v ==> (#[trigger] data@[k])@.len() == 0,
        decreases window_count - v,
    {
        data.push(Vec::new());
        v += 1;
    }
    proof {
        lemma_no_records(data@);
        assert forall|k: int| 0 <= k < window_count implies holds_in_order(
            (#[trigger] data@[k])@,
            members(records@.take(0), max_time, window_count, k),
        ) by {
            assert(records@.take(0).filter(in_window(max_time, window_count, k)) =~= Seq::<
                Occurrence,
            >::empty());
        }
    }
    let mut i: usize = 0;
    while i < records.len()
        invariant
            i <= records@.len(),
            data@.len() == window_count,
            total_records(data@) == i,
            forall|k: int|
                0 <= k < i ==> has_window((#[trigger] records@[k]).time, max_time, window_count),
            forall|k: int|
                0 <= k < window_count ==> holds_in_order(
                    (#[trigger] data@[k])@,
                    members(records@.take(i as int), max_time, window_count, k),
                ),
        decreases records@.len() - i,
    {
        let record = records[i];
        let ghost before = data@;
        proof {
            assert(records@.take(i + 1) =~= records@.take(i as int).push(record));
            assert forall|k: int| 0 <= k < window_count implies #[trigger] members(
                records@.take(i + 1),
                max_time,
                window_count,
                k,
            ) == (if window_index(record.time, max_time, window_count) == k {
                members(records@.take(i as int), max_time, window_count, k).push(record)
            } else {
                members(records@.take(i as int), max_time, window_count, k)
            }) by {
                records@.take(i as int).lemma_filter_push(record, in_window(max_time, window_count, k));
            }
        }
        match window_of(record.time, max_time, window_count) {
            None => {
                return Err(WindowError { record: i });
            },
            Some(index) => {
                let ind = data[index].len();
                data[index].push(KeyVal { key: record.time, id: record.id, index: ind });
                proof {
                    lemma_one_record_more(before, data@, index as int);
                    assert forall|k: int| 0 <= k < window_count implies holds_in_order(
                        (#[trigger] data@[k])@,
                        members(records@.take(i + 1), max_time, window_count, k),
                    ) by {
                        let now = data@[k]@;
                        let was = before[k]@;
                        assert(holds_in_order(
                            was,
                            members(records@.take(i as int), max_time, window_count, k),
                        ));
                        if k == index {
                            assert(now =~= was.push(KeyVal { key: record.time, id: record.id, index: ind }));
                            assert forall|j: int| 0 <= j < now.len() implies #[trigger] now[j] == (KeyVal {
                                key: members(records@.take(i + 1), max_time, window_count, k)[j].time,
                                id: members(records@.take(i + 1), max_time, window_count, k)[j].id,
                                index: j as usize,
                            }) by {
                                if j < was.len() {
                                    assert(now[j] == was[j]);
                                }
                            }
                        } else {
                            assert(now == was);
                        }
                    }
                }
            },
        }
        i += 1;
    }
    proof {
        assert(records@.take(i as int) =~= records@);
        assert forall|k: int| 0 <= k < window_count implies window_indexed((#[trigger] data@[k])@) by {
            assert(holds_in_order(data@[k]@, members(records@, max_time, window_count, k)));
        }
    }
    Ok(data)
}

/// The number of buckets that a queue needs for keys up to `max_key`:
/// `ceil(max_key / bucketwidth) + 1`. Returns `None` if that number does not
/// fit the machine's word.
pub fn required_buckets(max_key: u64, bucketwidth: u64) -> (r: Option<usize>)
    requires
        bucketwidth > 0,
    ensures
        match r {
            Some(n) => {
                &&& n == ceil_div(max_key, bucketwidth) + 1
                &&& forall|key: u64| key <= max_key ==> #[trigger] slot_of(key, bucketwidth) < n
            },
            None => ceil_div(max_key, bucketwidth) + 1 > usize::MAX,
        },
{
    let whole = max_key / bucketwidth;
    let part: u64 = if max_key % bucketwidth != 0 {
        1
    } else {
        0
    };
    proof {
        assert forall|key: u64| key <= max_key implies #[trigger] slot_of(key, bucketwidth) <= whole by {
            crate::key::lemma_slot_monotone(key, max_key, bucketwidth);
        }
        assert(whole <= u64::MAX - 1 || part == 0) by {
            if whole == u64::MAX {
                assert(max_key as int / bucketwidth as int == u64::MAX ==> bucketwidth == 1)
                    by (nonlinear_arith)
                    requires
                        0 <= max_key <= u64::MAX,
                        0 < bucketwidth,
                ;
            }
        }
    }
    let ceil = whole + part;
    if ceil >= usize::MAX as u64 {
        return None;
    }
    Some(ceil as usize + 1)
}

/// `ceil(a / b)`.
pub open spec fn ceil_div(a: u64, b: u64) -> int {
    a as int / b as int + if a as int % b as int != 0 {
        1int
    } else {
        0int
    }
}

} // verus!
