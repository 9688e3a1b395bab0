//! The event record that the queues hold, and the search for a pair's next
//! occurrence within a window.

use crate::key::HasKey;
use vstd::prelude::*;

verus! {

/// One scheduled collision of a pair of entities. The queue holds references
/// to these; the record's data stay with whoever owns the window.
#[derive(Debug, Clone, Copy)]
pub struct KeyVal {
    /// The time at which the pair collides.
    pub key: u64,
    /// The two entities.
    pub id: (u32, u32),
    /// The position of this record in its window.
    pub index: usize,
}

impl HasKey for KeyVal {
    open spec fn key_spec(&self) -> u64 {
        self.key
    }

    fn key(&self) -> (k: u64) {
        self.key
    }
}

/// Every record of the window carries its own position.
pub open spec fn window_indexed(w: Seq<KeyVal>) -> bool {
    forall|j: int| 0 <= j < w.len() ==> (#[trigger] w[j]).index == j
}

/// The position of the first record of pair `id` at or after `from`, or the
/// length of the window if there is none.
pub open spec fn next_of(w: Seq<KeyVal>, id: (u32, u32), from: int) -> int
    decreases w.len() - from,
{
    if from >= w.len() {
        w.len() as int
    } else if from >= 0 && w[from].id == id {
        from
    } else {
        next_of(w, id, from + 1)
    }
}

/// The position of the next record after `j` of the same pair as the record
/// at `j`, or the length of the window if there is none.
pub open spec fn successor(w: Seq<KeyVal>, j: int) -> int {
    next_of(w, w[j].id, j + 1)
}

/// What `next_of` returns: a position at or after `from` with no record of the
/// pair between `from` and it, and a record of the pair at it unless it is the
/// end.
pub proof fn lemma_next_of(w: Seq<KeyVal>, id: (u32, u32), from: int)
    requires
        0 <= from,
    ensures
        from <= next_of(w, id, from) || next_of(w, id, from) == w.len(),
        next_of(w, id, from) <= w.len(),
        forall|i: int| from <= i < next_of(w, id, from) ==> (#[trigger] w[i]).id != id,
        next_of(w, id, from) < w.len() ==> w[next_of(w, id, from)].id == id,
    decreases w.len() - from,
{
    if from < w.len() && w[from].id != id {
        lemma_next_of(w, id, from + 1);
    }
}

/// Finds the next record of the pair of `elem` after the position of `elem`.
pub fn next_same_pair<'a>(window: &'a Vec<KeyVal>, elem: &KeyVal) -> (r: Option<&'a KeyVal>)
    ensures
        match r {
            Some(k) => {
                &&& next_of(window@, elem.id, elem.index + 1) < window@.len()
                &&& *k == window@[next_of(window@, elem.id, elem.index + 1)]
            },
            None => next_of(window@, elem.id, elem.index + 1) == window@.len(),
        },
{
    if elem.index >= window.len() {
        return None;
    }
    let mut j: usize = elem.index + 1;
    while j < window.len()
        invariant
            elem.index < j <= window@.len(),
            next_of(window@, elem.id, elem.index + 1) == next_of(window@, elem.id, j as int),
        decreases window@.len() - j,
    {
        if window[j].id.0 == elem.id.0 && window[j].id.1 == elem.id.1 {
            return Some(&window[j]);
        }
        j += 1;
    }
    None
}

} // verus!
