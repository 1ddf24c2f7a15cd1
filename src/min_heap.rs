//! A priority queue of items ordered by an integer key, smallest key first.
use vstd::prelude::*;

verus! {

/// `i` is the index of an entry whose key is not larger than any other key in `s`.
pub open spec fn is_min_at<T>(s: Seq<(u64, T)>, i: int) -> bool {
    &&& 0 <= i < s.len()
    &&& forall|j: int| 0 <= j < s.len() ==> s[i].0 <= #[trigger] s[j].0
}

/// A multiset of `(key, item)` entries. Items that are equal may be inserted
/// again under other keys; none is lost.
pub struct MinHeap<T> {
    entries: Vec<(u64, T)>,
}

impl<T> View for MinHeap<T> {
    type V = Seq<(u64, T)>;

    closed spec fn view(&self) -> Seq<(u64, T)> {
        self.entries@
    }
}

impl<T> MinHeap<T> {
    /// An empty queue.
    pub fn new() -> (r: MinHeap<T>)
        ensures
            r@ == Seq::<(u64, T)>::empty(),
    {
        MinHeap { entries: Vec::new() }
    }

    /// Adds `item` under `key`.
    pub fn insert(&mut self, item: T, key: u64)
        ensures
            final(self)@ == old(self)@.push((key, item)),
    {
        self.entries.push((key, item));
    }

    /// The number of entries.
    pub fn len(&self) -> (r: usize)
        ensures
            r == self@.len(),
    {
        self.entries.len()
    }

    /// Whether the queue has no entry.
    pub fn is_empty(&self) -> (r: bool)
        ensures
            r == (self@.len() == 0),
    {
        self.entries.len() == 0
    }

    /// Removes and returns an entry of smallest key; `None` when the queue is
    /// empty. Among equal keys the one inserted first leaves first.
    pub fn pop_entry(&mut self) -> (r: Option<(u64, T)>)
        ensures
            old(self)@.len() == 0 ==> r is None && final(self)@ == old(self)@,
            old(self)@.len() > 0 ==> exists|i: int|
                {
                    &&& is_min_at(old(self)@, i)
                    &&& forall|j: int| 0 <= j < i ==> old(self)@[j].0 > old(self)@[i].0
                    &&& r == Some(#[trigger] old(self)@[i])
                    &&& final(self)@ == old(self)@.remove(i)
                },
    {
        if self.entries.len() == 0 {
            return None;
        }
        let mut best: usize = 0;
        let mut i: usize = 1;
        while i < self.entries.len()
            invariant
                self@ == old(self)@,
                0 <= best < i <= self@.len(),
                forall|j: int| 0 <= j < i ==> self@[best as int].0 <= #[trigger] self@[j].0,
                forall|j: int| 0 <= j < best ==> #[trigger] self@[j].0 > self@[best as int].0,
            decreases self@.len() - i,
        {
            if self.entries[i].0 < self.entries[best].0 {
                best = i;
            }
            i = i + 1;
        }
        let e = self.entries.remove(best);
        assert(is_min_at(old(self)@, best as int));
        Some(e)
    }

    /// Removes and returns an item of smallest key; `None` when the queue is
    /// empty. Among equal keys the one inserted first leaves first.
    pub fn pop(&mut self) -> (r: Option<T>)
        ensures
            old(self)@.len() == 0 ==> r is None && final(self)@ == old(self)@,
            old(self)@.len() > 0 ==> exists|i: int|
                {
                    &&& is_min_at(old(self)@, i)
                    &&& forall|j: int| 0 <= j < i ==> old(self)@[j].0 > old(self)@[i].0
                    &&& r == Some(#[trigger] old(self)@[i].1)
                    &&& final(self)@ == old(self)@.remove(i)
                },
    {
        match self.pop_entry() {
            Some(e) => Some(e.1),
            None => None,
        }
    }
}

/// Keys leave in non-decreasing order: once a smallest entry is removed,
/// every entry left has a key at least as large, so the next one removed
/// cannot have a smaller key.
pub proof fn lemma_pop_order<T>(s: Seq<(u64, T)>, i: int, j: int)
    requires
        is_min_at(s, i),
        is_min_at(s.remove(i), j),
    ensures
        s[i].0 <= s.remove(i)[j].0,
        forall|k: int| 0 <= k < s.remove(i).len() ==> s[i].0 <= #[trigger] s.remove(i)[k].0,
{
    assert forall|k: int| 0 <= k < s.remove(i).len() implies s[i].0 <= #[trigger] s.remove(i)[k].0 by {
        if k < i {
            assert(s.remove(i)[k] == s[k]);
        } else {
            assert(s.remove(i)[k] == s[k + 1]);
        }
    }
}

} // verus!
