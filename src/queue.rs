use vstd::prelude::*;
use vstd::multiset::Multiset;

verus! {

broadcast use vstd::seq_lib::group_to_multiset_ensures;

/// `x` is a largest element of `m`.
pub open spec fn is_max(m: Multiset<i64>, x: i64) -> bool {
    m.contains(x) && forall|y: i64| #[trigger] m.contains(y) ==> y <= x
}

/// A max-priority queue of integers: `pop` and `peek` give a largest item.
#[derive(Debug)]
pub struct PriorityQueue {
    items: Vec<i64>,
}

impl View for PriorityQueue {
    type V = Multiset<i64>;

    closed spec fn view(&self) -> Multiset<i64> {
        self.items@.to_multiset()
    }
}

impl PriorityQueue {
    pub fn new() -> (q: PriorityQueue)
        ensures
            q@ == Multiset::<i64>::empty(),
    {
        let q = PriorityQueue { items: Vec::new() };
        proof {
            assert(q.items@.to_multiset().len() == 0);
            assert(q.items@.to_multiset() =~= Multiset::<i64>::empty());
        }
        q
    }

    pub fn push(&mut self, item: i64)
        ensures
            final(self)@ == old(self)@.insert(item),
    {
        self.items.push(item);
    }

    /// Index of a largest item.
    fn max_index(&self) -> (i: usize)
        requires
            self.items@.len() > 0,
        ensures
            i < self.items@.len(),
            is_max(self@, self.items@[i as int]),
    {
        let mut best: usize = 0;
        let mut k: usize = 1;
        while k < self.items.len()
            invariant
                1 <= k <= self.items@.len(),
                best < k,
                forall|j: int| 0 <= j < k ==> self.items@[j] <= self.items@[best as int],
            decreases self.items.len() - k,
        {
            if self.items[k] > self.items[best] {
                best = k;
            }
            k = k + 1;
        }
        proof {
            let s = self.items@;
            assert(s.contains(s[best as int]));
            assert forall|y: i64| #[trigger] self@.contains(y) implies y <= s[best as int] by {
                assert(s.contains(y));
            }
        }
        best
    }

    /// Removes and returns a largest item; `None` when empty.
    pub fn pop(&mut self) -> (r: Option<i64>)
        ensures
            old(self)@.len() == 0 ==> r is None && final(self)@ == old(self)@,
            old(self)@.len() > 0 ==> r is Some && is_max(old(self)@, r->Some_0) && final(self)@ == old(
                self,
            )@.remove(r->Some_0),
    {
        if self.items.len() == 0 {
            return None;
        }
        let i = self.max_index();
        let x = self.items.remove(i);
        Some(x)
    }

    /// A largest item, left in place; `None` when empty.
    pub fn peek(&self) -> (r: Option<&i64>)
        ensures
            self@.len() == 0 ==> r is None,
            self@.len() > 0 ==> r is Some && is_max(self@, *r->Some_0),
    {
        if self.items.len() == 0 {
            return None;
        }
        let i = self.max_index();
        Some(&self.items[i])
    }

    pub fn is_empty(&self) -> (b: bool)
        ensures
            b == (self@.len() == 0),
    {
        self.items.len() == 0
    }

    pub fn len(&self) -> (n: usize)
        ensures
            n == self@.len(),
    {
        self.items.len()
    }
}

} // verus!
