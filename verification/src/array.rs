//! A growable array of integers with position-based access, viewed
//! as the sequence of its elements.

use vstd::prelude::*;
use vstd::seq_lib::group_to_multiset_ensures;
use crate::seqs::vec_index_of;

verus! {

/// How often the value occurs in the sequence.
pub open spec fn count_matches(s: Seq<u64>, x: u64) -> nat
    decreases s.len(),
{
    if s.len() == 0 {
        0
    } else {
        (if s.last() == x {
            1nat
        } else {
            0nat
        }) + count_matches(s.drop_last(), x)
    }
}

/// Whether the sequence is ordered from smallest to largest.
pub open spec fn is_sorted(s: Seq<u64>) -> bool {
    forall|a: int, b: int| 0 <= a < b < s.len() ==> s[a] <= s[b]
}

/// An array of `u64` values, viewed as the sequence of its elements
/// in order.
pub struct CustomArray {
    elements: Vec<u64>,
}

impl View for CustomArray {
    type V = Seq<u64>;

    closed spec fn view(&self) -> Seq<u64> {
        self.elements@
    }
}

impl CustomArray {
    /// Create an empty array; the size hint only pre-allocates.
    pub fn new(initial_size: usize) -> (a: CustomArray)
        ensures
            a@ == Seq::<u64>::empty(),
    {
        CustomArray { elements: Vec::with_capacity(initial_size) }
    }

    /// Add an element at the end.
    pub fn append(&mut self, element: u64)
        ensures
            final(self)@ == old(self)@.push(element),
    {
        self.elements.push(element);
    }

    /// Insert an element at the given position, shifting what
    /// follows it.
    pub fn insert(&mut self, element: u64, index: usize)
        requires
            index <= old(self)@.len(),
        ensures
            final(self)@ == old(self)@.insert(index as int, element),
    {
        self.elements.insert(index, element);
    }

    /// Remove the first occurrence of the given value, if any.
    pub fn remove(&mut self, element: &u64)
        ensures
            !old(self)@.contains(*element) ==> final(self)@ == old(self)@,
            old(self)@.contains(*element) ==> exists|i: int|
                {
                    &&& 0 <= i < old(self)@.len()
                    &&& old(self)@[i] == *element
                    &&& (forall|j: int| 0 <= j < i ==> old(self)@[j] != *element)
                    &&& final(self)@ == old(self)@.remove(i)
                },
    {
        match vec_index_of(&self.elements, *element) {
            Some(i) => {
                self.elements.remove(i);
            },
            None => {},
        }
    }

    /// Remove and return the element at the given position, or
    /// `None` when the position is out of range.
    pub fn pop(&mut self, index: usize) -> (r: Option<u64>)
        ensures
            index < old(self)@.len() ==> r == Some(old(self)@[index as int]) && final(self)@ == old(
                self,
            )@.remove(index as int),
            index >= old(self)@.len() ==> r is None && final(self)@ == old(self)@,
    {
        if index < self.elements.len() {
            Some(self.elements.remove(index))
        } else {
            None
        }
    }

    /// The element at the given position, or `None` when the
    /// position is out of range.
    pub fn get(&self, index: usize) -> (r: Option<&u64>)
        ensures
            index < self@.len() ==> (r matches Some(x) && *x == self@[index as int]),
            index >= self@.len() ==> r is None,
    {
        if index < self.elements.len() {
            Some(&self.elements[index])
        } else {
            None
        }
    }

    /// Overwrite the element at the given position; out of range,
    /// nothing changes.
    pub fn set(&mut self, index: usize, element: u64)
        ensures
            index < old(self)@.len() ==> final(self)@ == old(self)@.update(index as int, element),
            index >= old(self)@.len() ==> final(self)@ == old(self)@,
    {
        if index < self.elements.len() {
            self.elements[index] = element;
        }
    }

    /// The number of elements.
    pub fn size(&self) -> (r: usize)
        ensures
            r == self@.len(),
    {
        self.elements.len()
    }

    /// Whether the array holds no elements.
    pub fn is_empty(&self) -> (r: bool)
        ensures
            r == (self@.len() == 0),
    {
        self.elements.len() == 0
    }

    /// The position of the first occurrence of the given value, or
    /// `None` when the array does not hold it.
    pub fn index(&self, element: &u64) -> (r: Option<usize>)
        ensures
            match r {
                Some(i) => i < self@.len() && self@[i as int] == *element && (forall|j: int|
                    0 <= j < i ==> self@[j] != *element),
                None => !self@.contains(*element),
            },
    {
        vec_index_of(&self.elements, *element)
    }

    /// How often the given value occurs.
    pub fn count(&self, element: &u64) -> (r: usize)
        ensures
            r == count_matches(self@, *element),
    {
        let mut cnt: usize = 0;
        let mut i: usize = 0;
        while i < self.elements.len()
            invariant
                i <= self@.len(),
                cnt <= i,
                cnt == count_matches(self@.take(i as int), *element),
            decreases self@.len() - i,
        {
            proof {
                assert(self@.take(i + 1).drop_last() =~= self@.take(i as int));
            }
            if self.elements[i] == *element {
                cnt = cnt + 1;
            }
            i = i + 1;
        }
        proof {
            assert(self@.take(self@.len() as int) =~= self@);
        }
        cnt
    }

    /// Reverse the order of the elements.
    pub fn reverse(&mut self)
        ensures
            final(self)@ == old(self)@.reverse(),
    {
        let n = self.elements.len();
        let mut res: Vec<u64> = Vec::new();
        let mut i: usize = 0;
        while i < n
            invariant
                n == self@.len(),
                self@ == old(self)@,
                i <= n,
                res@.len() == i,
                forall|j: int| 0 <= j < i ==> res@[j] == self@[n - 1 - j],
            decreases n - i,
        {
            res.push(self.elements[n - 1 - i]);
            i = i + 1;
        }
        proof {
            assert(res@ =~= old(self)@.reverse());
        }
        self.elements = res;
    }

    /// Sort the elements from smallest to largest; the result is the
    /// unique ordered rearrangement of the old contents.
    pub fn sort(&mut self)
        ensures
            is_sorted(final(self)@),
            final(self)@.to_multiset() == old(self)@.to_multiset(),
    {
        broadcast use group_to_multiset_ensures;

        let n = self.elements.len();
        let mut res: Vec<u64> = Vec::new();
        let mut i: usize = 0;
        while i < n
            invariant
                n == self@.len(),
                self@ == old(self)@,
                i <= n,
                is_sorted(res@),
                res@.to_multiset() == self@.take(i as int).to_multiset(),
            decreases n - i,
        {
            let x = self.elements[i];
            let ghost res0 = res@;
            // find the first position whose element is larger than x
            let mut pos: usize = 0;
            while pos < res.len() && res[pos] <= x
                invariant
                    pos <= res@.len(),
                    res@ == res0,
                    forall|k: int| 0 <= k < pos ==> res@[k] <= x,
                decreases res@.len() - pos,
            {
                pos = pos + 1;
            }
            proof {
                assert(is_sorted(res0));
                assert(pos == res0.len() || res0[pos as int] > x);
            }
            res.insert(pos, x);
            proof {
                broadcast use group_to_multiset_ensures;

                let t = res0.insert(pos as int, x);
                assert(res@ == t);
                assert(t[pos as int] == x);
                assert(t.remove(pos as int) =~= res0);
                assert(t.remove(pos as int).to_multiset() =~= t.to_multiset().remove(x));
                assert(t.to_multiset().remove(x) =~= res0.to_multiset());
                assert(t.contains(x)) by {
                    assert(t[pos as int] == x);
                }
                assert(t.to_multiset().count(x) > 0);
                assert forall|y: u64| t.to_multiset().count(y) == res0.to_multiset().insert(
                    x,
                ).count(y) by {
                    if y == x {
                        assert(t.to_multiset().remove(x).count(x) == t.to_multiset().count(x) - 1);
                    } else {
                        assert(t.to_multiset().remove(x).count(y) == t.to_multiset().count(y));
                    }
                }
                assert(t.to_multiset() =~= res0.to_multiset().insert(x));
                assert(self@.take(i + 1).drop_last() =~= self@.take(i as int));
                assert(self@.take(i + 1).to_multiset() =~= self@.take(i as int).to_multiset().insert(
                    self@[i as int],
                )) by {
                    assert(self@.take(i + 1) =~= self@.take(i as int).push(self@[i as int]));
                }
                assert(is_sorted(t)) by {
                    assert forall|a: int, b: int| 0 <= a < b < t.len() implies t[a] <= t[b] by {
                        if b < pos {
                            assert(t[a] == res0[a] && t[b] == res0[b]);
                        } else if a > pos {
                            assert(t[a] == res0[a - 1] && t[b] == res0[b - 1]);
                        } else if a < pos && b == pos {
                            assert(t[a] == res0[a] && t[b] == x);
                        } else if a == pos && b > pos {
                            assert(t[a] == x && t[b] == res0[b - 1]);
                            assert(pos < res0.len());
                            assert(res0[pos as int] <= res0[b - 1]);
                        } else if a < pos && b > pos {
                            assert(t[a] == res0[a] && t[b] == res0[b - 1]);
                        }
                    }
                }
            }
            i = i + 1;
        }
        proof {
            assert(self@.take(n as int) =~= self@);
        }
        self.elements = res;
    }

    /// The elements from the start position to the end position,
    /// both inclusive; an out-of-range request yields an empty
    /// vector.
    pub fn slice(&self, start: usize, end: usize) -> (r: Vec<u64>)
        ensures
            start <= end && end < self@.len() ==> r@ == self@.subrange(start as int, end + 1),
            !(start <= end && end < self@.len()) ==> r@ == Seq::<u64>::empty(),
    {
        let mut res: Vec<u64> = Vec::new();
        if start <= end && end < self.elements.len() {
            let mut i: usize = start;
            while i <= end
                invariant
                    start <= i <= end + 1,
                    end < self@.len() <= usize::MAX,
                    res@ == self@.subrange(start as int, i as int),
                decreases end + 1 - i,
            {
                res.push(self.elements[i]);
                proof {
                    assert(res@ =~= self@.subrange(start as int, i + 1));
                }
                i = i + 1;
            }
        }
        res
    }
}

} // verus!
