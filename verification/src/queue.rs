//! A first-in, first-out container backed by a vector.
//!
//! Elements are enqueued at the back; `dequeue`, `peek` and
//! `dequeue_vector` all work on the front, so elements leave in the
//! order they arrived. The contracts state each operation's effect
//! on the abstract sequence exactly.

use vstd::prelude::*;
use vstd::std_specs::cmp::PartialEqSpec;
use crate::seqs::select_by_mask;

verus! {

/// A queue of elements, viewed as the sequence of its contents from
/// front to back.
pub struct CustomQueue<T> {
    elements: Vec<T>,
}

impl<T> View for CustomQueue<T> {
    type V = Seq<T>;

    closed spec fn view(&self) -> Seq<T> {
        self.elements@
    }
}

impl<T> CustomQueue<T> {
    /// Create an empty queue.
    pub fn new() -> (q: CustomQueue<T>)
        ensures
            q@ == Seq::<T>::empty(),
    {
        CustomQueue { elements: Vec::new() }
    }

    /// Enqueue an element at the back of the queue.
    pub fn enqueue(&mut self, element: T)
        ensures
            final(self)@ == old(self)@.push(element),
    {
        self.elements.push(element);
    }

    /// Remove and return the element at the front of the queue, or
    /// `None` when the queue is empty.
    pub fn dequeue(&mut self) -> (r: Option<T>)
        ensures
            old(self)@.len() == 0 ==> r is None && final(self)@ == old(self)@,
            old(self)@.len() > 0 ==> r == Some(old(self)@[0]) && final(self)@ == old(
                self,
            )@.subrange(1, old(self)@.len() as int),
    {
        if self.elements.len() == 0 {
            None
        } else {
            Some(self.elements.remove(0))
        }
    }

    /// Look at the front element without removing it.
    pub fn peek(&self) -> (r: Option<&T>)
        ensures
            self@.len() == 0 ==> r is None,
            self@.len() > 0 ==> (r matches Some(x) && *x == self@[0]),
    {
        if self.elements.len() == 0 {
            None
        } else {
            Some(&self.elements[0])
        }
    }

    /// Whether the queue holds no elements.
    pub fn is_empty(&self) -> (r: bool)
        ensures
            r == (self@.len() == 0),
    {
        self.elements.len() == 0
    }

    /// The number of elements in the queue.
    pub fn count(&self) -> (r: usize)
        ensures
            r == self@.len(),
    {
        self.elements.len()
    }

    /// Replace the contents of the queue with the given vector.
    pub fn initialize_with_vector(&mut self, vec: Vec<T>)
        ensures
            final(self)@ == vec@,
    {
        self.elements = vec;
    }

    /// Enqueue every element of the vector at the back, in order.
    pub fn enqueue_vector(&mut self, vec: Vec<T>)
        ensures
            final(self)@ == old(self)@ + vec@,
    {
        let mut vec = vec;
        self.elements.append(&mut vec);
    }

    /// Remove the first `count` elements from the front and return
    /// them in order.
    pub fn dequeue_vector(&mut self, count: usize) -> (r: Vec<T>)
        requires
            count <= old(self)@.len(),
        ensures
            r@ == old(self)@.subrange(0, count as int),
            final(self)@ == old(self)@.subrange(count as int, old(self)@.len() as int),
    {
        let mut dequeued_elements: Vec<T> = Vec::new();
        let mut i: usize = 0;
        while i < count
            invariant
                i <= count <= old(self)@.len(),
                self@ == old(self)@.subrange(i as int, old(self)@.len() as int),
                dequeued_elements@ == old(self)@.subrange(0, i as int),
            decreases count - i,
        {
            let e = self.elements.remove(0);
            dequeued_elements.push(e);
            i = i + 1;
            proof {
                assert(self@ =~= old(self)@.subrange(i as int, old(self)@.len() as int));
                assert(dequeued_elements@ =~= old(self)@.subrange(0, i as int));
            }
        }
        proof {
            assert(dequeued_elements@ =~= old(self)@.subrange(0, count as int));
        }
        dequeued_elements
    }

    /// Remove all elements from the queue.
    pub fn clear(&mut self)
        ensures
            final(self)@ == Seq::<T>::empty(),
    {
        self.elements.clear();
    }

    /// Whether some element of the queue equals the given one.
    pub fn contains(&self, element: &T) -> (r: bool) where T: PartialEq
        ensures
            T::obeys_eq_spec() ==> (r <==> exists|i: int|
                0 <= i < self@.len() && self@[i].eq_spec(element)),
    {
        let mut i: usize = 0;
        let mut found: bool = false;
        while i < self.elements.len()
            invariant
                i <= self@.len(),
                T::obeys_eq_spec() ==> (found <==> exists|j: int|
                    0 <= j < i && self@[j].eq_spec(element)),
            decreases self@.len() - i,
        {
            if &self.elements[i] == element {
                found = true;
            }
            i = i + 1;
        }
        found
    }

    /// Collect clones of the elements on which the predicate answers
    /// true, in front-to-back order.
    pub fn filter<F: Fn(&T) -> bool>(&self, predicate: F) -> (r: Vec<T>) where T: Clone
        requires
            forall|i: int| 0 <= i < self@.len() ==> call_requires(predicate, (&self@[i],)),
        ensures
            exists|keep: Seq<bool>|
                {
                    &&& keep.len() == self@.len()
                    &&& forall|i: int|
                        0 <= i < self@.len() ==> call_ensures(
                            predicate,
                            (&self@[i],),
                            #[trigger] keep[i],
                        )
                    &&& r@.len() == select_by_mask(self@, keep).len()
                    &&& forall|j: int|
                        0 <= j < r@.len() ==> cloned::<T>(
                            select_by_mask(self@, keep)[j],
                            #[trigger] r@[j],
                        )
                },
    {
        let mut result: Vec<T> = Vec::new();
        let ghost mut keep: Seq<bool> = Seq::empty();
        let mut i: usize = 0;
        while i < self.elements.len()
            invariant
                i <= self@.len(),
                forall|k: int| 0 <= k < self@.len() ==> call_requires(predicate, (&self@[k],)),
                keep.len() == i,
                forall|k: int|
                    0 <= k < i ==> call_ensures(predicate, (&self@[k],), #[trigger] keep[k]),
                result@.len() == select_by_mask(self@.take(i as int), keep).len(),
                forall|j: int|
                    0 <= j < result@.len() ==> cloned::<T>(
                        select_by_mask(self@.take(i as int), keep)[j],
                        #[trigger] result@[j],
                    ),
            decreases self@.len() - i,
        {
            let x = &self.elements[i];
            let keep_it = predicate(x);
            proof {
                assert(keep.push(keep_it).drop_last() =~= keep);
                assert(self@.take(i + 1).drop_last() =~= self@.take(i as int));
                keep = keep.push(keep_it);
            }
            if keep_it {
                result.push(x.clone());
            }
            i = i + 1;
        }
        proof {
            assert(self@.take(self@.len() as int) =~= self@);
        }
        result
    }

    /// Clones of all elements, front to back.
    pub fn to_vector(&self) -> (r: Vec<T>) where T: Clone
        ensures
            r@.len() == self@.len(),
            forall|i: int| 0 <= i < self@.len() ==> cloned::<T>(self@[i], #[trigger] r@[i]),
    {
        self.elements.clone()
    }

    /// Apply the transform to each element, front to back, and
    /// collect the results.
    pub fn map<U, F: Fn(&T) -> U>(&self, transform: F) -> (r: Vec<U>)
        requires
            forall|i: int| 0 <= i < self@.len() ==> call_requires(transform, (&self@[i],)),
        ensures
            r@.len() == self@.len(),
            forall|i: int|
                0 <= i < self@.len() ==> call_ensures(transform, (&self@[i],), #[trigger] r@[i]),
    {
        let mut result: Vec<U> = Vec::new();
        let mut i: usize = 0;
        while i < self.elements.len()
            invariant
                i <= self@.len(),
                result@.len() == i,
                forall|k: int| 0 <= k < self@.len() ==> call_requires(transform, (&self@[k],)),
                forall|k: int|
                    0 <= k < i ==> call_ensures(transform, (&self@[k],), #[trigger] result@[k]),
            decreases self@.len() - i,
        {
            result.push(transform(&self.elements[i]));
            i = i + 1;
        }
        result
    }

    /// Fold the elements front to back, starting from the given
    /// value; the result is linked to the input by a chain of
    /// reducer applications.
    pub fn reduce<R, F: Fn(R, &T) -> R>(&self, initial_result: R, reducer: F) -> (r: R)
        requires
            forall|acc: R, i: int| 0 <= i < self@.len() ==> call_requires(reducer, (acc, &self@[i])),
        ensures
            exists|accs: Seq<R>|
                {
                    &&& accs.len() == self@.len() + 1
                    &&& accs[0] == initial_result
                    &&& forall|i: int|
                        0 <= i < self@.len() ==> call_ensures(
                            reducer,
                            (#[trigger] accs[i], &self@[i]),
                            accs[i + 1],
                        )
                    &&& r == accs.last()
                },
    {
        let mut acc = initial_result;
        let ghost mut accs: Seq<R> = seq![initial_result];
        let mut i: usize = 0;
        while i < self.elements.len()
            invariant
                i <= self@.len(),
                forall|a: R, k: int| 0 <= k < self@.len() ==> call_requires(reducer, (a, &self@[k])),
                accs.len() == i + 1,
                accs[0] == initial_result,
                forall|k: int|
                    0 <= k < i ==> call_ensures(reducer, (#[trigger] accs[k], &self@[k]), accs[k + 1]),
                acc == accs.last(),
            decreases self@.len() - i,
        {
            acc = reducer(acc, &self.elements[i]);
            proof {
                accs = accs.push(acc);
            }
            i = i + 1;
        }
        acc
    }

    /// Move every element of the other queue to the back of this
    /// one, keeping their order.
    pub fn concatenate(&mut self, other_queue: CustomQueue<T>)
        ensures
            final(self)@ == old(self)@ + other_queue@,
    {
        let mut other = other_queue.elements;
        self.elements.append(&mut other);
    }

    /// The element at the given index from the front, or `None` when
    /// the index is out of range.
    pub fn get(&self, index: usize) -> (r: Option<&T>)
        ensures
            index < self@.len() ==> (r matches Some(x) && *x == self@[index as int]),
            index >= self@.len() ==> r is None,
    {
        if index < self.elements.len() {
            Some(&self.elements[index])
        } else {
            None
        }
    }
}

} // verus!
