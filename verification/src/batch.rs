//! Work on a batch: the transform of its elements on the thread pool, and
//! what is kept of the results.

use rayon::iter::{IntoParallelIterator, ParallelIterator};
use vstd::prelude::*;

verus! {

/// The results that are present, in order.
pub open spec fn present<T>(results: Seq<Option<T>>) -> Seq<T>
    decreases results.len(),
{
    if results.len() == 0 {
        Seq::empty()
    } else if let Some(e) = results.last() {
        present(results.drop_last()).push(e)
    } else {
        present(results.drop_last())
    }
}

/// Applies `f` to every element of `items` on rayon's thread pool
/// (`into_par_iter().map(f).collect()`). Trusted: the result has one entry per
/// item, in the order of the items, and each entry is a value that `f` may
/// return for the item at that position.
#[verifier::external_body]
pub(crate) fn par_map<'a, T, F>(items: Vec<&'a T>, f: &F) -> (out: Vec<Option<&'a T>>)
    where
        T: Sync,
        F: Fn(&'a T) -> Option<&'a T> + Sync + Send,
    requires
        forall|i: int| 0 <= i < items@.len() ==> call_requires(*f, (#[trigger] items@[i],)),
    ensures
        out@.len() == items@.len(),
        forall|i: int| 0 <= i < out@.len() ==> call_ensures(*f, (items@[i],), #[trigger] out@[i]),
{
    items.into_par_iter().map(f).collect()
}

/// `results` holds, for each element of `batch` in order, a value that `f` may
/// return for it.
pub open spec fn answers<'a, T, F: Fn(&'a T) -> Option<&'a T>>(
    f: F,
    batch: Seq<&'a T>,
    results: Seq<Option<&'a T>>,
) -> bool {
    &&& results.len() == batch.len()
    &&& forall|i: int| 0 <= i < results.len() ==> call_ensures(f, (batch[i],), #[trigger] results[i])
}

/// Drops the absent entries of `results` and keeps the others in order.
pub fn discard_none<T: Copy>(results: &Vec<Option<T>>) -> (out: Vec<T>)
    ensures
        out@ == present(results@),
{
    let mut out: Vec<T> = Vec::new();
    let mut i: usize = 0;
    while i < results.len()
        invariant
            i <= results@.len(),
            out@ == present(results@.take(i as int)),
        decreases results@.len() - i,
    {
        proof {
            assert(results@.take(i + 1).drop_last() =~= results@.take(i as int));
        }
        if let Some(e) = results[i] {
            out.push(e);
        }
        i += 1;
    }
    proof {
        assert(results@.take(i as int) =~= results@);
    }
    out
}

} // verus!
