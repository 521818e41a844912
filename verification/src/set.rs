//! A finite set of integers backed by a duplicate-free vector.
//!
//! Every operation is specified against the abstract `Set<u64>` view;
//! the vector representation and its uniqueness invariant stay hidden.

use vstd::prelude::*;
use crate::seqs::{
    lemma_push_contains, lemma_push_no_duplicates, lemma_remove_no_duplicates,
    lemma_take_not_contains_current, lemma_take_succ_contains, vec_contains, vec_index_of,
};

verus! {

/// A set of `u64` values, viewed as the abstract set of its members.
pub struct CustomSet {
    elements: Vec<u64>,
}

impl View for CustomSet {
    type V = Set<u64>;

    closed spec fn view(&self) -> Set<u64> {
        self.elements@.to_set()
    }
}

impl CustomSet {
    #[verifier::type_invariant]
    closed spec fn inv(&self) -> bool {
        self.elements@.no_duplicates()
    }

    /// Create an empty set.
    pub fn new() -> (s: CustomSet)
        ensures
            s@ == Set::<u64>::empty(),
    {
        let s = CustomSet { elements: Vec::new() };
        proof {
            assert(s@ =~= Set::<u64>::empty());
        }
        s
    }

    /// Whether the set has no members.
    pub fn is_empty(&self) -> (r: bool)
        ensures
            r <==> self@ == Set::<u64>::empty(),
    {
        proof {
            use_type_invariant(self);
            if self.elements@.len() > 0 {
                assert(self@.contains(self.elements@[0]));
            } else {
                assert(self@ =~= Set::<u64>::empty());
            }
        }
        self.elements.len() == 0
    }

    /// The number of members.
    pub fn count(&self) -> (r: usize)
        ensures
            r == self@.len(),
    {
        proof {
            use_type_invariant(self);
            self.elements@.unique_seq_to_set();
        }
        self.elements.len()
    }

    /// Add a member; a value already present is not added again.
    pub fn insert(&mut self, element: u64)
        ensures
            final(self)@ == old(self)@.insert(element),
    {
        proof {
            use_type_invariant(&*self);
        }
        let mut elems: Vec<u64> = Vec::new();
        core::mem::swap(&mut elems, &mut self.elements);
        let ghost orig = elems@;
        if !vec_contains(&elems, element) {
            elems.push(element);
            proof {
                lemma_push_no_duplicates(orig, element);
            }
        }
        proof {
            assert forall|y: u64| elems@.to_set().contains(y) <==> old(self)@.insert(
                element,
            ).contains(y) by {
                lemma_push_contains(orig, element, y);
            }
            assert(elems@.to_set() =~= old(self)@.insert(element));
        }
        self.elements = elems;
    }

    /// Remove a member, handing back the removed value, or `None`
    /// when the value was not a member.
    pub fn remove(&mut self, element: &u64) -> (r: Option<u64>)
        ensures
            final(self)@ == old(self)@.remove(*element),
            r == (if old(self)@.contains(*element) {
                Some(*element)
            } else {
                None::<u64>
            }),
    {
        proof {
            use_type_invariant(&*self);
        }
        let mut elems: Vec<u64> = Vec::new();
        core::mem::swap(&mut elems, &mut self.elements);
        let ghost orig = elems@;
        let removed: Option<u64>;
        match vec_index_of(&elems, *element) {
            Some(i) => {
                elems.remove(i);
                removed = Some(*element);
                proof {
                    assert(orig.contains(*element));
                    lemma_remove_no_duplicates(orig, i as int);
                    assert forall|y: u64| elems@.to_set().contains(y) implies orig.to_set().remove(
                        *element,
                    ).contains(y) by {
                        let k = choose|k: int| 0 <= k < elems@.len() && elems@[k] == y;
                        if k < i {
                            assert(orig[k] == y);
                        } else {
                            assert(orig[k + 1] == y);
                        }
                    }
                    assert forall|y: u64|
                        orig.to_set().remove(*element).contains(y) implies elems@.to_set().contains(
                        y,
                    ) by {
                        let k = choose|k: int| 0 <= k < orig.len() && orig[k] == y;
                        if k < i {
                            assert(elems@[k] == y);
                        } else {
                            assert(k != i);
                            assert(elems@[k - 1] == y);
                        }
                    }
                    assert(elems@.to_set() =~= orig.to_set().remove(*element));
                }
            },
            None => {
                removed = None;
                proof {
                    assert(elems@.to_set() =~= orig.to_set().remove(*element));
                }
            },
        }
        self.elements = elems;
        removed
    }

    /// Whether the given value is a member.
    pub fn contains(&self, element: &u64) -> (r: bool)
        ensures
            r == self@.contains(*element),
    {
        vec_contains(&self.elements, *element)
    }

    /// The set of members of this set or the other.
    pub fn union(&self, other_set: &CustomSet) -> (r: CustomSet)
        ensures
            r@ == self@.union(other_set@),
    {
        proof {
            use_type_invariant(self);
            use_type_invariant(other_set);
        }
        let mut res: Vec<u64> = Vec::new();
        let mut i: usize = 0;
        while i < self.elements.len()
            invariant
                self.elements@.no_duplicates(),
                i <= self.elements@.len(),
                res@ == self.elements@.take(i as int),
            decreases self.elements@.len() - i,
        {
            res.push(self.elements[i]);
            proof {
                assert(res@ =~= self.elements@.take(i + 1));
            }
            i = i + 1;
        }
        proof {
            assert(res@ =~= self.elements@);
        }
        let mut j: usize = 0;
        while j < other_set.elements.len()
            invariant
                self.elements@.no_duplicates(),
                other_set.elements@.no_duplicates(),
                j <= other_set.elements@.len(),
                res@.no_duplicates(),
                forall|y: u64|
                    res@.contains(y) <==> (self.elements@.contains(y)
                        || other_set.elements@.take(j as int).contains(y)),
            decreases other_set.elements@.len() - j,
        {
            let x = other_set.elements[j];
            let ghost res0 = res@;
            let already = vec_contains(&res, x);
            if !already {
                res.push(x);
                proof {
                    lemma_push_no_duplicates(res0, x);
                }
            }
            proof {
                assert forall|y: u64|
                    res@.contains(y) <==> (self.elements@.contains(y)
                        || other_set.elements@.take(j + 1).contains(y)) by {
                    lemma_take_succ_contains(other_set.elements@, j as int, y);
                    if !already {
                        lemma_push_contains(res0, x, y);
                    }
                }
            }
            j = j + 1;
        }
        let result = CustomSet { elements: res };
        proof {
            assert(other_set.elements@.take(other_set.elements@.len() as int)
                =~= other_set.elements@);
            assert(result@ =~= self@.union(other_set@));
        }
        result
    }

    /// The set of values that are members of both sets.
    pub fn intersection(&self, other_set: &CustomSet) -> (r: CustomSet)
        ensures
            r@ == self@.intersect(other_set@),
    {
        proof {
            use_type_invariant(self);
        }
        let mut res: Vec<u64> = Vec::new();
        let mut i: usize = 0;
        while i < self.elements.len()
            invariant
                self.elements@.no_duplicates(),
                i <= self.elements@.len(),
                res@.no_duplicates(),
                forall|y: u64|
                    res@.contains(y) <==> (self.elements@.take(i as int).contains(y)
                        && other_set.elements@.contains(y)),
            decreases self.elements@.len() - i,
        {
            let x = self.elements[i];
            let ghost res0 = res@;
            let wanted = vec_contains(&other_set.elements, x);
            if wanted {
                proof {
                    lemma_take_not_contains_current(self.elements@, i as int);
                    assert(!res0.contains(x));
                }
                res.push(x);
                proof {
                    lemma_push_no_duplicates(res0, x);
                }
            }
            proof {
                assert forall|y: u64|
                    res@.contains(y) <==> (self.elements@.take(i + 1).contains(y)
                        && other_set.elements@.contains(y)) by {
                    lemma_take_succ_contains(self.elements@, i as int, y);
                    if wanted {
                        lemma_push_contains(res0, x, y);
                    }
                }
            }
            i = i + 1;
        }
        let result = CustomSet { elements: res };
        proof {
            assert(self.elements@.take(self.elements@.len() as int) =~= self.elements@);
            assert(result@ =~= self@.intersect(other_set@));
        }
        result
    }

    /// The set of members of this set that the other lacks.
    pub fn difference(&self, other_set: &CustomSet) -> (r: CustomSet)
        ensures
            r@ == self@.difference(other_set@),
    {
        proof {
            use_type_invariant(self);
        }
        let mut res: Vec<u64> = Vec::new();
        let mut i: usize = 0;
        while i < self.elements.len()
            invariant
                self.elements@.no_duplicates(),
                i <= self.elements@.len(),
                res@.no_duplicates(),
                forall|y: u64|
                    res@.contains(y) <==> (self.elements@.take(i as int).contains(y)
                        && !other_set.elements@.contains(y)),
            decreases self.elements@.len() - i,
        {
            let x = self.elements[i];
            let ghost res0 = res@;
            let excluded = vec_contains(&other_set.elements, x);
            if !excluded {
                proof {
                    lemma_take_not_contains_current(self.elements@, i as int);
                    assert(!res0.contains(x));
                }
                res.push(x);
                proof {
                    lemma_push_no_duplicates(res0, x);
                }
            }
            proof {
                assert forall|y: u64|
                    res@.contains(y) <==> (self.elements@.take(i + 1).contains(y)
                        && !other_set.elements@.contains(y)) by {
                    lemma_take_succ_contains(self.elements@, i as int, y);
                    if !excluded {
                        lemma_push_contains(res0, x, y);
                    }
                }
            }
            i = i + 1;
        }
        let result = CustomSet { elements: res };
        proof {
            assert(self.elements@.take(self.elements@.len() as int) =~= self.elements@);
            assert(result@ =~= self@.difference(other_set@));
        }
        result
    }

    /// Whether every member of this set is a member of the other.
    pub fn is_subset_of(&self, other_set: &CustomSet) -> (r: bool)
        ensures
            r == self@.subset_of(other_set@),
    {
        let mut i: usize = 0;
        while i < self.elements.len()
            invariant
                i <= self.elements@.len(),
                forall|j: int|
                    0 <= j < i ==> other_set.elements@.contains(#[trigger] self.elements@[j]),
            decreases self.elements@.len() - i,
        {
            if !vec_contains(&other_set.elements, self.elements[i]) {
                proof {
                    assert(self@.contains(self.elements@[i as int]));
                }
                return false;
            }
            i = i + 1;
        }
        proof {
            assert forall|y: u64| self@.contains(y) implies other_set@.contains(y) by {
                let k = choose|k: int| 0 <= k < self.elements@.len() && self.elements@[k] == y;
                assert(other_set.elements@.contains(y));
            }
        }
        true
    }

    /// Whether every member of the other set is a member of this one.
    pub fn is_superset_of(&self, other_set: &CustomSet) -> (r: bool)
        ensures
            r == other_set@.subset_of(self@),
    {
        other_set.is_subset_of(self)
    }

    /// Whether the two sets have no member in common.
    pub fn is_disjoint_with(&self, other_set: &CustomSet) -> (r: bool)
        ensures
            r <==> (forall|y: u64| self@.contains(y) ==> !other_set@.contains(y)),
    {
        let mut i: usize = 0;
        while i < self.elements.len()
            invariant
                i <= self.elements@.len(),
                forall|j: int|
                    0 <= j < i ==> !other_set.elements@.contains(#[trigger] self.elements@[j]),
            decreases self.elements@.len() - i,
        {
            if vec_contains(&other_set.elements, self.elements[i]) {
                proof {
                    assert(self@.contains(self.elements@[i as int]));
                }
                return false;
            }
            i = i + 1;
        }
        proof {
            assert forall|y: u64| self@.contains(y) implies !other_set@.contains(y) by {
                let k = choose|k: int| 0 <= k < self.elements@.len() && self.elements@[k] == y;
                assert(!other_set.elements@.contains(y));
            }
        }
        true
    }

    /// Apply the closure to each member once, in the set's internal
    /// order.
    pub fn for_each<F: Fn(&u64)>(&self, closure: F)
        requires
            forall|y: u64| self@.contains(y) ==> call_requires(closure, (&y,)),
    {
        let mut i: usize = 0;
        while i < self.elements.len()
            invariant
                i <= self.elements@.len(),
                forall|y: u64| self@.contains(y) ==> call_requires(closure, (&y,)),
            decreases self.elements@.len() - i,
        {
            proof {
                assert(self@.contains(self.elements@[i as int]));
            }
            closure(&self.elements[i]);
            i = i + 1;
        }
    }

    /// Remove every member.
    pub fn remove_all(&mut self)
        ensures
            final(self)@ == Set::<u64>::empty(),
    {
        self.elements = Vec::new();
        proof {
            assert(self@ =~= Set::<u64>::empty());
        }
    }

    /// Remove the given value; the set holds each value at most once,
    /// so this equals `remove`.
    pub fn remove_all_occurrences(&mut self, element: &u64)
        ensures
            final(self)@ == old(self)@.remove(*element),
    {
        let _ = self.remove(element);
    }

    /// The set of values that are a member of exactly one of the two
    /// sets.
    pub fn symmetric_difference(&self, other_set: &CustomSet) -> (r: CustomSet)
        ensures
            r@ == self@.difference(other_set@).union(other_set@.difference(self@)),
    {
        let diff1 = self.difference(other_set);
        let diff2 = other_set.difference(self);
        diff1.union(&diff2)
    }

    /// Add every member of the other set to this one.
    pub fn form_union(&mut self, other_set: &CustomSet)
        ensures
            final(self)@ == old(self)@.union(other_set@),
    {
        let u = self.union(other_set);
        proof {
            use_type_invariant(&u);
        }
        let CustomSet { elements } = u;
        self.elements = elements;
    }

    /// Keep only the members that the other set also has.
    pub fn form_intersection(&mut self, other_set: &CustomSet)
        ensures
            final(self)@ == old(self)@.intersect(other_set@),
    {
        let inter = self.intersection(other_set);
        proof {
            use_type_invariant(&inter);
        }
        let CustomSet { elements } = inter;
        self.elements = elements;
    }

    /// Remove every member that the other set also has.
    pub fn subtract(&mut self, other_set: &CustomSet)
        ensures
            final(self)@ == old(self)@.difference(other_set@),
    {
        let diff = self.difference(other_set);
        proof {
            use_type_invariant(&diff);
        }
        let CustomSet { elements } = diff;
        self.elements = elements;
    }
}

} // verus!
