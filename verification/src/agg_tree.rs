//! A heap of records kept as keys, drained smallest first.
use vstd::prelude::*;
use vstd::multiset::Multiset;

verus! {

broadcast use vstd::seq_lib::group_to_multiset_ensures;

/// Records pushed in bulk and drained in ascending order of their keys.
pub struct MinHeap {
    pub data: Vec<u64>,
}

impl View for MinHeap {
    type V = Multiset<u64>;

    /// The keys held, each as often as it was pushed and not yet popped.
    open spec fn view(&self) -> Multiset<u64> {
        self.data@.to_multiset()
    }
}

impl MinHeap {
    /// An empty heap.
    pub fn new() -> (res: Self)
        ensures
            res@ == Multiset::<u64>::empty(),
    {
        let res = Self { data: Vec::new() };
        proof {
            assert(res.data@ =~= Seq::<u64>::empty());
        }
        res
    }

    /// The heap of the keys.
    pub fn from_iter(keys: Vec<u64>) -> (res: Self)
        ensures
            res@ == keys@.to_multiset(),
    {
        Self { data: keys }
    }

    /// Adds a key.
    pub fn push(&mut self, e: u64)
        ensures
            final(self)@ == old(self)@.insert(e),
    {
        self.data.push(e);
    }

    /// Takes out the smallest key, none where the heap is empty.
    pub fn pop(&mut self) -> (res: Option<u64>)
        ensures
            old(self)@.len() == 0 ==> res is None && final(self)@ == old(self)@,
            old(self)@.len() > 0 ==> (res matches Some(x) && old(self)@.count(x) > 0 && final(self)@
                == old(self)@.remove(x) && forall|y: u64| #[trigger] old(self)@.count(y) > 0 ==> x <= y),
    {
        let n = self.data.len();
        if n == 0 {
            return None;
        }
        let mut j: usize = 0;
        let mut i: usize = 1;
        while i < n
            invariant
                n == self.data@.len(),
                0 <= j < n,
                1 <= i <= n,
                forall|k: int| 0 <= k < i ==> self.data@[j as int] <= #[trigger] self.data@[k],
            decreases n - i,
        {
            if self.data[i] < self.data[j] {
                j = i;
            }
            i += 1;
        }
        let ghost before = self.data@;
        let x = self.data.remove(j);
        proof {
            assert(before.to_multiset().count(x) > 0) by {
                assert(before.contains(x)) by {
                    assert(before[j as int] == x);
                }
            }
            assert forall|y: u64| #[trigger] before.to_multiset().count(y) > 0 implies x <= y by {
                assert(before.contains(y));
                let k = choose|k: int| 0 <= k < before.len() && before[k] == y;
            }
        }
        Some(x)
    }
}

} // verus!
