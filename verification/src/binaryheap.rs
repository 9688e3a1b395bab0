//! The exact-order backend: a binary min-heap on the elements' keys.

use crate::key::HasKey;
use vstd::multiset::Multiset;
use vstd::prelude::*;

verus! {

/// A priority queue that always serves an element of the smallest key.
#[derive(Debug)]
pub struct BinaryHeap<T> {
    data: Vec<T>,
}

impl<T> View for BinaryHeap<T> {
    type V = Multiset<T>;

    /// The elements that the heap holds, each as often as it was pushed and
    /// not yet popped.
    closed spec fn view(&self) -> Multiset<T> {
        self.data@.to_multiset()
    }
}

/// The index of the parent of node `i` in the implicit tree.
pub open spec fn parent(i: int) -> int {
    (i - 1) / 2
}

/// No node but the root has a key below its parent's.
pub open spec fn heap_ordered<'a, T: HasKey>(s: Seq<&'a T>) -> bool {
    forall|j: int| 0 < j < s.len() ==> s[parent(j)].key_spec() <= (#[trigger] s[j]).key_spec()
}

/// As `heap_ordered`, but node `i` may have a key below its parent's; the
/// children of `i` do not have keys below that parent's.
pub open spec fn ordered_but_above<'a, T: HasKey>(s: Seq<&'a T>, i: int) -> bool {
    &&& forall|j: int|
        0 < j < s.len() && j != i ==> s[parent(j)].key_spec() <= (#[trigger] s[j]).key_spec()
    &&& forall|j: int|
        0 < j < s.len() && parent(j) == i && i > 0 ==> s[parent(i)].key_spec() <= (
        #[trigger] s[j]).key_spec()
}

/// As `heap_ordered`, but the children of node `i` may have keys below its
/// own; they do not have keys below that of the parent of `i`.
pub open spec fn ordered_but_below<'a, T: HasKey>(s: Seq<&'a T>, i: int) -> bool {
    &&& forall|j: int|
        0 < j < s.len() && parent(j) != i ==> s[parent(j)].key_spec() <= (#[trigger] s[j]).key_spec()
    &&& forall|j: int|
        0 < j < s.len() && parent(j) == i && i > 0 ==> s[parent(i)].key_spec() <= (
        #[trigger] s[j]).key_spec()
}

/// In a heap-ordered sequence no key is below the root's.
pub proof fn lemma_root_is_least<'a, T: HasKey>(s: Seq<&'a T>, j: int)
    requires
        heap_ordered(s),
        0 <= j < s.len(),
    ensures
        s[0].key_spec() <= s[j].key_spec(),
    decreases j,
{
    if j > 0 {
        lemma_root_is_least(s, parent(j));
    }
}

/// Exchanging node `i`, whose key is below its parent's, with that parent
/// moves the one possible disorder up to the parent.
pub proof fn lemma_rise<'a, T: HasKey>(s: Seq<&'a T>, i: int)
    requires
        0 < i < s.len(),
        ordered_but_above(s, i),
        s[i].key_spec() < s[parent(i)].key_spec(),
    ensures
        ordered_but_above(s.update(parent(i), s[i]).update(i, s[parent(i)]), parent(i)),
{
    let p = parent(i);
    let t = s.update(p, s[i]).update(i, s[p]);
    assert forall|j: int| 0 < j < t.len() && j != p implies t[parent(j)].key_spec() <= (
    #[trigger] t[j]).key_spec() by {
        if j == i {
        } else if parent(j) == p {
            assert(s[p].key_spec() <= s[j].key_spec());
        } else if parent(j) == i {
            assert(s[parent(i)].key_spec() <= s[j].key_spec());
        } else {
            assert(s[parent(j)].key_spec() <= s[j].key_spec());
        }
    }
    assert forall|j: int| 0 < j < t.len() && parent(j) == p && p > 0 implies t[parent(p)].key_spec()
        <= (#[trigger] t[j]).key_spec() by {
        assert(s[parent(p)].key_spec() <= s[p].key_spec());
        if j != i {
            assert(s[p].key_spec() <= s[j].key_spec());
        }
    }
}

/// Exchanging node `i` with its child of the smaller key, where that key is
/// below the key of `i`, moves the one possible disorder down to that child.
pub proof fn lemma_sink<'a, T: HasKey>(s: Seq<&'a T>, i: int, child: int)
    requires
        0 <= i,
        child < s.len(),
        child == 2 * i + 1 || child == 2 * i + 2,
        ordered_but_below(s, i),
        s[child].key_spec() < s[i].key_spec(),
        forall|j: int|
            0 < j < s.len() && parent(j) == i ==> s[child].key_spec() <= (#[trigger] s[j]).key_spec(),
    ensures
        ordered_but_below(s.update(i, s[child]).update(child, s[i]), child),
{
    let t = s.update(i, s[child]).update(child, s[i]);
    assert(parent(child) == i);
    assert forall|j: int| 0 < j < t.len() && parent(j) != child implies t[parent(j)].key_spec() <= (
    #[trigger] t[j]).key_spec() by {
        if j == child {
        } else if parent(j) == i {
            assert(s[child].key_spec() <= s[j].key_spec());
        } else if j == i {
            assert(s[parent(i)].key_spec() <= s[child].key_spec());
        } else {
            assert(s[parent(j)].key_spec() <= s[j].key_spec());
        }
    }
    assert forall|j: int| 0 < j < t.len() && parent(j) == child && child > 0 implies t[parent(
        child,
    )].key_spec() <= (#[trigger] t[j]).key_spec() by {
        assert(s[parent(j)].key_spec() <= s[j].key_spec());
    }
}

/// Where node `i` has no key above those of its children, the one possible
/// disorder is not there.
pub proof fn lemma_settled<'a, T: HasKey>(s: Seq<&'a T>, i: int)
    requires
        0 <= i < s.len(),
        ordered_but_below(s, i),
        forall|j: int| 0 < j < s.len() && parent(j) == i ==> s[i].key_spec() <= (#[trigger] s[j]).key_spec(),
    ensures
        heap_ordered(s),
{
    assert forall|j: int| 0 < j < s.len() implies s[parent(j)].key_spec() <= (#[trigger] s[j]).key_spec() by {
        if parent(j) == i {
        } else {
        }
    }
}

/// Putting the last element in the root's place and dropping the last
/// position leaves a sequence whose one possible disorder is at the root.
pub proof fn lemma_drop_root<'a, T: HasKey>(s: Seq<&'a T>)
    requires
        s.len() > 0,
        heap_ordered(s),
    ensures
        ordered_but_below(s.update(0, s.last()).update(s.len() - 1, s[0]).drop_last(), 0),
{
    let t = s.update(0, s.last()).update(s.len() - 1, s[0]).drop_last();
    assert forall|j: int| 0 < j < t.len() && parent(j) != 0 implies t[parent(j)].key_spec() <= (
    #[trigger] t[j]).key_spec() by {
        assert(s[parent(j)].key_spec() <= s[j].key_spec());
    }
}

/// Putting the last element in the root's place and dropping the last
/// position removes the root from the multiset of elements, and nothing else.
pub proof fn lemma_drop_root_elements<A>(s: Seq<A>)
    requires
        s.len() > 0,
    ensures
        s.update(0, s.last()).update(s.len() - 1, s[0]).drop_last().to_multiset()
            == s.to_multiset().remove(s[0]),
{
    broadcast use vstd::seq_lib::group_to_multiset_ensures;
    let swapped = s.update(0, s.last()).update(s.len() - 1, s[0]);
    let t = swapped.drop_last();
    lemma_swap_keeps_elements(s, 0, s.len() - 1);
    assert(swapped =~= t.push(s[0]));
    assert(t.to_multiset() =~= s.to_multiset().remove(s[0]));
}

/// Exchanging two elements keeps the multiset of elements.
pub proof fn lemma_swap_keeps_elements<A>(s: Seq<A>, i: int, j: int)
    requires
        0 <= i < s.len(),
        0 <= j < s.len(),
    ensures
        s.update(i, s[j]).update(j, s[i]).to_multiset() == s.to_multiset(),
{
    broadcast use vstd::seq_lib::group_to_multiset_ensures;
    vstd::seq_lib::to_multiset_update(s, i, s[j]);
    vstd::seq_lib::to_multiset_update(s.update(i, s[j]), j, s[i]);
    assert(s.to_multiset().count(s[j]) > 0);
    assert(s.update(i, s[j]).update(j, s[i]).to_multiset() =~= s.to_multiset());
}

/// Exchanges the elements at `i` and `j`.
fn exchange<'a, T>(v: &mut Vec<&'a T>, i: usize, j: usize)
    requires
        i < old(v)@.len(),
        j < old(v)@.len(),
    ensures
        final(v)@ == old(v)@.update(i as int, old(v)@[j as int]).update(j as int, old(v)@[i as int]),
        final(v)@.to_multiset() == old(v)@.to_multiset(),
{
    let a = v[i];
    let b = v[j];
    v[i] = b;
    v[j] = a;
    proof {
        lemma_swap_keeps_elements(old(v)@, i as int, j as int);
    }
}

impl<'a, T: HasKey> BinaryHeap<&'a T> {
    /// The heap's invariant: no node but the root has a key below its parent's.
    pub closed spec fn wf(&self) -> bool {
        heap_ordered(self.data@)
    }

    /// Creates an empty heap.
    pub fn new() -> (h: Self)
        ensures
            h.wf(),
            h@ == Multiset::<&'a T>::empty(),
            h@.len() == 0,
    {
        broadcast use vstd::seq_lib::group_to_multiset_ensures;
        BinaryHeap { data: Vec::new() }
    }

    /// Tells how many elements the heap holds.
    pub fn len(&self) -> (n: usize)
        ensures
            n == self@.len(),
    {
        broadcast use vstd::seq_lib::group_to_multiset_ensures;
        self.data.len()
    }

    /// Tells whether the heap holds no element.
    pub fn is_empty(&self) -> (r: bool)
        ensures
            r == (self@.len() == 0),
    {
        broadcast use vstd::seq_lib::group_to_multiset_ensures;
        self.data.len() == 0
    }

    /// Adds `elem` to the heap.
    pub fn push(&mut self, elem: &'a T)
        requires
            old(self).wf(),
        ensures
            final(self).wf(),
            final(self)@ == old(self)@.insert(elem),
    {
        broadcast use vstd::seq_lib::group_to_multiset_ensures;
        self.data.push(elem);
        let mut i: usize = self.data.len() - 1;
        let mut rising = true;
        while rising && i > 0
            invariant
                i < self.data@.len(),
                ordered_but_above(self.data@, i as int),
                !rising ==> heap_ordered(self.data@),
                self.data@.to_multiset() == old(self)@.insert(elem),
            decreases i + if rising { 1int } else { 0int },
        {
            let p = (i - 1) / 2;
            if self.data[p].key() <= self.data[i].key() {
                rising = false;
            } else {
                proof {
                    lemma_rise(self.data@, i as int);
                }
                exchange(&mut self.data, p, i);
                i = p;
            }
        }
    }

    /// Returns an element of the smallest key without removing it, or `None`
    /// if the heap is empty.
    pub fn peek(&self) -> (r: Option<&'a T>)
        requires
            self.wf(),
        ensures
            match r {
                None => self@.len() == 0,
                Some(m) => {
                    &&& self@.count(m) > 0
                    &&& forall|x: &'a T| #[trigger] self@.count(x) > 0 ==> m.key_spec() <= x.key_spec()
                },
            },
    {
        broadcast use vstd::seq_lib::group_to_multiset_ensures;
        if self.data.len() == 0 {
            None
        } else {
            proof {
                self.lemma_least();
            }
            Some(self.data[0])
        }
    }

    /// Removes and returns an element of the smallest key, or returns `None`
    /// if the heap is empty.
    pub fn pop(&mut self) -> (r: Option<&'a T>)
        requires
            old(self).wf(),
        ensures
            final(self).wf(),
            match r {
                None => old(self)@.len() == 0 && final(self)@ == old(self)@,
                Some(m) => {
                    &&& old(self)@.count(m) > 0
                    &&& final(self)@ == old(self)@.remove(m)
                    &&& forall|x: &'a T| #[trigger] old(self)@.count(x) > 0 ==> m.key_spec() <= x.key_spec()
                },
            },
    {
        let n = self.data.len();
        if n == 0 {
            proof {
                old(self).data@.to_multiset_ensures();
            }
            return None;
        }
        proof {
            self.lemma_least();
        }
        exchange(&mut self.data, 0, n - 1);
        let m = self.data.pop().unwrap();
        proof {
            lemma_drop_root(old(self).data@);
            lemma_drop_root_elements(old(self).data@);
        }
        let len = self.data.len();
        let mut i: usize = 0;
        let mut sinking = true;
        while sinking && i < len / 2
            invariant
                len == self.data@.len(),
                ordered_but_below(self.data@, i as int),
                !sinking ==> heap_ordered(self.data@),
                self.data@.to_multiset() == old(self)@.remove(m),
            decreases len - i + if sinking { 1int } else { 0int },
        {
            let left = 2 * i + 1;
            let right = left + 1;
            let mut child = left;
            if right < len && self.data[right].key() < self.data[left].key() {
                child = right;
            }
            if self.data[i].key() <= self.data[child].key() {
                proof {
                    assert forall|j: int| 0 < j < len && parent(j) == i implies self.data@[i as int]
                        .key_spec() <= (#[trigger] self.data@[j]).key_spec() by {
                        assert(j == left || j == right);
                    }
                    lemma_settled(self.data@, i as int);
                }
                sinking = false;
            } else {
                proof {
                    assert forall|j: int| 0 < j < len && parent(j) == i implies self.data@[child as int]
                        .key_spec() <= (#[trigger] self.data@[j]).key_spec() by {
                        assert(j == left || j == right);
                    }
                    lemma_sink(self.data@, i as int, child as int);
                }
                exchange(&mut self.data, i, child);
                i = child;
            }
        }
        Some(m)
    }

    /// The root has the smallest key of all elements.
    proof fn lemma_least(&self)
        requires
            self.wf(),
            self.data@.len() > 0,
        ensures
            self@.count(self.data@[0]) > 0,
            forall|x: &'a T| #[trigger] self@.count(x) > 0 ==> self.data@[0].key_spec() <= x.key_spec(),
    {
        broadcast use vstd::seq_lib::group_to_multiset_ensures;
        assert forall|x: &'a T| #[trigger] self@.count(x) > 0 implies self.data@[0].key_spec()
            <= x.key_spec() by {
            let j = choose|j: int| 0 <= j < self.data@.len() && self.data@[j] == x;
            lemma_root_is_least(self.data@, j);
        }
    }
}

} // verus!
