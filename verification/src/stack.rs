//! A last-in, first-out container backed by a vector.
//!
//! Elements are pushed and popped at the back of the vector, which is
//! the top of the stack; the view lists the contents from bottom to
//! top.

use vstd::prelude::*;
use vstd::std_specs::cmp::PartialEqSpec;
use crate::seqs::select_by_mask;

verus! {

/// A stack of elements, viewed as the sequence of its contents from
/// bottom to top.
pub struct CustomStack<T> {
    elements: Vec<T>,
}

impl<T> View for CustomStack<T> {
    type V = Seq<T>;

    closed spec fn view(&self) -> Seq<T> {
        self.elements@
    }
}

impl<T> CustomStack<T> {
    /// Create an empty stack.
    pub fn new() -> (s: CustomStack<T>)
        ensures
            s@ == Seq::<T>::empty(),
    {
        CustomStack { elements: Vec::new() }
    }

    /// Whether the stack holds no elements.
    pub fn is_empty(&self) -> (r: bool)
        ensures
            r == (self@.len() == 0),
    {
        self.elements.len() == 0
    }

    /// The number of elements on the stack.
    pub fn count(&self) -> (r: usize)
        ensures
            r == self@.len(),
    {
        self.elements.len()
    }

    /// Push an element onto the top of the stack.
    pub fn push(&mut self, element: T)
        ensures
            final(self)@ == old(self)@.push(element),
    {
        self.elements.push(element);
    }

    /// Remove and return the top element, or `None` when the stack is
    /// empty.
    pub fn pop(&mut self) -> (r: Option<T>)
        ensures
            old(self)@.len() == 0 ==> r is None && final(self)@ == old(self)@,
            old(self)@.len() > 0 ==> r == Some(old(self)@.last()) && final(self)@ == old(
                self,
            )@.drop_last(),
    {
        self.elements.pop()
    }

    /// Look at the top element without removing it.
    pub fn peek(&self) -> (r: Option<&T>)
        ensures
            self@.len() == 0 ==> r is None,
            self@.len() > 0 ==> (r matches Some(x) && *x == self@.last()),
    {
        if self.elements.len() == 0 {
            None
        } else {
            Some(&self.elements[self.elements.len() - 1])
        }
    }

    /// Replace the contents of the stack with the given vector; its
    /// last element becomes the top.
    pub fn initialize_with_vector(&mut self, vec: Vec<T>)
        ensures
            final(self)@ == vec@,
    {
        self.elements = vec;
    }

    /// Push every element of the vector, in order, so its last
    /// element ends on top.
    pub fn push_vector(&mut self, vec: Vec<T>)
        ensures
            final(self)@ == old(self)@ + vec@,
    {
        let mut vec = vec;
        self.elements.append(&mut vec);
    }

    /// Pop up to `count` elements and return them in the order they
    /// were popped, top first.
    pub fn pop_vector(&mut self, count: usize) -> (r: Vec<T>)
        ensures
            ({
                let k = if count <= old(self)@.len() {
                    count as int
                } else {
                    old(self)@.len() as int
                };
                &&& r@ == old(self)@.subrange(old(self)@.len() - k, old(self)@.len() as int).reverse()
                &&& final(self)@ == old(self)@.take(old(self)@.len() - k)
            }),
    {
        let mut popped_elements: Vec<T> = Vec::new();
        let n = self.elements.len();
        let k = if count <= n {
            count
        } else {
            n
        };
        let mut i: usize = 0;
        while i < k
            invariant
                i <= k <= n == old(self)@.len(),
                self@ == old(self)@.take(n - (i as int)),
                popped_elements@ == old(self)@.subrange(n - (i as int), n as int).reverse(),
            decreases k - i,
        {
            if let Some(element) = self.elements.pop() {
                popped_elements.push(element);
                proof {
                    assert(self@ =~= old(self)@.take(n - (i + 1)));
                    assert(popped_elements@ =~= old(self)@.subrange(n - (i + 1), n as int).reverse());
                }
            }
            i = i + 1;
        }
        popped_elements
    }

    /// Remove all elements from the stack.
    pub fn clear(&mut self)
        ensures
            final(self)@ == Seq::<T>::empty(),
    {
        self.elements.clear();
    }

    /// Whether some element of the stack equals the given one.
    pub fn contains(&self, element: &T) -> (r: bool) where T: PartialEq
        ensures
            T::obeys_eq_spec() ==> (r <==> exists|i: int|
                0 <= i < self@.len() && self@[i].eq_spec(element)),
    {
        let mut i: usize = 0;
        let mut found: bool = false;
        while i < self.elements.len()
            invariant
                i <= self@.len(),
                T::obeys_eq_spec() ==> (found <==> exists|j: int|
                    0 <= j < i && self@[j].eq_spec(element)),
            decreases self@.len() - i,
        {
            if &self.elements[i] == element {
                found = true;
            }
            i = i + 1;
        }
        found
    }

    /// Collect clones of the elements on which the predicate answers
    /// true, in bottom-to-top order.
    pub fn filter<F: Fn(&T) -> bool>(&self, predicate: F) -> (r: Vec<T>) where T: Clone
        requires
            forall|i: int| 0 <= i < self@.len() ==> call_requires(predicate, (&self@[i],)),
        ensures
            exists|keep: Seq<bool>|
                {
                    &&& keep.len() == self@.len()
                    &&& forall|i: int|
                        0 <= i < self@.len() ==> call_ensures(
                            predicate,
                            (&self@[i],),
                            #[trigger] keep[i],
                        )
                    &&& r@.len() == select_by_mask(self@, keep).len()
                    &&& forall|j: int|
                        0 <= j < r@.len() ==> cloned::<T>(
                            select_by_mask(self@, keep)[j],
                            #[trigger] r@[j],
                        )
                },
    {
        let mut result: Vec<T> = Vec::new();
        let ghost mut keep: Seq<bool> = Seq::empty();
        let mut i: usize = 0;
        while i < self.elements.len()
            invariant
                i <= self@.len(),
                forall|k: int| 0 <= k < self@.len() ==> call_requires(predicate, (&self@[k],)),
                keep.len() == i,
                forall|k: int|
                    0 <= k < i ==> call_ensures(predicate, (&self@[k],), #[trigger] keep[k]),
                result@.len() == select_by_mask(self@.take(i as int), keep).len(),
                forall|j: int|
                    0 <= j < result@.len() ==> cloned::<T>(
                        select_by_mask(self@.take(i as int), keep)[j],
                        #[trigger] result@[j],
                    ),
            decreases self@.len() - i,
        {
            let x = &self.elements[i];
            let keep_it = predicate(x);
            proof {
                assert(keep.push(keep_it).drop_last() =~= keep);
                assert(self@.take(i + 1).drop_last() =~= self@.take(i as int));
                keep = keep.push(keep_it);
            }
            if keep_it {
                result.push(x.clone());
            }
            i = i + 1;
        }
        proof {
            assert(self@.take(self@.len() as int) =~= self@);
        }
        result
    }

    /// Clones of all elements, bottom to top.
    pub fn to_vector(&self) -> (r: Vec<T>) where T: Clone
        ensures
            r@.len() == self@.len(),
            forall|i: int| 0 <= i < self@.len() ==> cloned::<T>(self@[i], #[trigger] r@[i]),
    {
        self.elements.clone()
    }

    /// Apply the transform to each element, bottom to top, and
    /// collect the results.
    pub fn map<U, F: Fn(&T) -> U>(&self, transform: F) -> (r: Vec<U>)
        requires
            forall|i: int| 0 <= i < self@.len() ==> call_requires(transform, (&self@[i],)),
        ensures
            r@.len() == self@.len(),
            forall|i: int|
                0 <= i < self@.len() ==> call_ensures(transform, (&self@[i],), #[trigger] r@[i]),
    {
        let mut result: Vec<U> = Vec::new();
        let mut i: usize = 0;
        while i < self.elements.len()
            invariant
                i <= self@.len(),
                result@.len() == i,
                forall|k: int| 0 <= k < self@.len() ==> call_requires(transform, (&self@[k],)),
                forall|k: int|
                    0 <= k < i ==> call_ensures(transform, (&self@[k],), #[trigger] result@[k]),
            decreases self@.len() - i,
        {
            result.push(transform(&self.elements[i]));
            i = i + 1;
        }
        result
    }

    /// Fold the elements bottom to top, starting from the given
    /// value; the result is linked to the input by a chain of
    /// reducer applications.
    pub fn reduce<R, F: Fn(R, &T) -> R>(&self, initial_result: R, reducer: F) -> (r: R)
        requires
            forall|acc: R, i: int| 0 <= i < self@.len() ==> call_requires(reducer, (acc, &self@[i])),
        ensures
            exists|accs: Seq<R>|
                {
                    &&& accs.len() == self@.len() + 1
                    &&& accs[0] == initial_result
                    &&& forall|i: int|
                        0 <= i < self@.len() ==> call_ensures(
                            reducer,
                            (#[trigger] accs[i], &self@[i]),
                            accs[i + 1],
                        )
                    &&& r == accs.last()
                },
    {
        let mut acc = initial_result;
        let ghost mut accs: Seq<R> = seq![initial_result];
        let mut i: usize = 0;
        while i < self.elements.len()
            invariant
                i <= self@.len(),
                forall|a: R, k: int| 0 <= k < self@.len() ==> call_requires(reducer, (a, &self@[k])),
                accs.len() == i + 1,
                accs[0] == initial_result,
                forall|k: int|
                    0 <= k < i ==> call_ensures(reducer, (#[trigger] accs[k], &self@[k]), accs[k + 1]),
                acc == accs.last(),
            decreases self@.len() - i,
        {
            acc = reducer(acc, &self.elements[i]);
            proof {
                accs = accs.push(acc);
            }
            i = i + 1;
        }
        acc
    }

    /// Move every element of the other stack onto this one, keeping
    /// their order, so the other stack's top ends on top.
    pub fn concatenate(&mut self, other_stack: CustomStack<T>)
        ensures
            final(self)@ == old(self)@ + other_stack@,
    {
        let mut other = other_stack.elements;
        self.elements.append(&mut other);
    }

    /// The element at the given index from the bottom, or `None` when
    /// the index is out of range.
    pub fn get(&self, index: usize) -> (r: Option<&T>)
        ensures
            index < self@.len() ==> (r matches Some(x) && *x == self@[index as int]),
            index >= self@.len() ==> r is None,
    {
        if index < self.elements.len() {
            Some(&self.elements[index])
        } else {
            None
        }
    }
}

} // verus!
