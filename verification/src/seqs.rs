//! Spec-level helpers shared by the container modules.

use vstd::prelude::*;

verus! {

/// The subsequence of `s` at the positions where `keep` is true,
/// in the original order. Meaningful when the two sequences have
/// the same length.
pub open spec fn select_by_mask<T>(s: Seq<T>, keep: Seq<bool>) -> Seq<T>
    recommends
        s.len() == keep.len(),
    decreases s.len(),
{
    if s.len() == 0 {
        Seq::empty()
    } else {
        let prefix = select_by_mask(s.drop_last(), keep.drop_last());
        if keep.last() {
            prefix.push(s.last())
        } else {
            prefix
        }
    }
}

/// Membership after a push: the pushed element, or an element that
/// was already there.
pub proof fn lemma_push_contains<T>(s: Seq<T>, x: T, y: T)
    ensures
        s.push(x).contains(y) <==> (s.contains(y) || y == x),
{
    if s.push(x).contains(y) {
        let k = choose|k: int| 0 <= k < s.push(x).len() && s.push(x)[k] == y;
        if k < s.len() {
            assert(s[k] == y);
        }
    }
    if s.contains(y) {
        let k = choose|k: int| 0 <= k < s.len() && s[k] == y;
        assert(s.push(x)[k] == y);
    }
    if y == x {
        assert(s.push(x)[s.len() as int] == y);
    }
}

/// Pushing a fresh element keeps a sequence duplicate-free.
pub proof fn lemma_push_no_duplicates<T>(s: Seq<T>, x: T)
    requires
        s.no_duplicates(),
        !s.contains(x),
    ensures
        s.push(x).no_duplicates(),
{
    assert forall|i: int, j: int|
        0 <= i < s.push(x).len() && 0 <= j < s.push(x).len() && i != j implies s.push(x)[i]
        != s.push(x)[j] by {
        if i < s.len() && j < s.len() {
            assert(s[i] != s[j]);
        } else if j == s.len() && i < s.len() {
            assert(s.contains(s[i]));
        } else if i == s.len() && j < s.len() {
            assert(s.contains(s[j]));
        }
    }
}

/// Membership in one more step of a prefix: the old prefix, or the
/// element at the boundary.
pub proof fn lemma_take_succ_contains<T>(s: Seq<T>, i: int, y: T)
    requires
        0 <= i < s.len(),
    ensures
        s.take(i + 1).contains(y) <==> (s.take(i).contains(y) || s[i] == y),
{
    assert(s.take(i + 1) =~= s.take(i).push(s[i]));
    lemma_push_contains(s.take(i), s[i], y);
}

/// In a duplicate-free sequence, an element does not occur before
/// its own position.
pub proof fn lemma_take_not_contains_current<T>(s: Seq<T>, i: int)
    requires
        s.no_duplicates(),
        0 <= i < s.len(),
    ensures
        !s.take(i).contains(s[i]),
{
    if s.take(i).contains(s[i]) {
        let k = choose|k: int| 0 <= k < i && s.take(i)[k] == s[i];
        assert(s[k] == s[i]);
    }
}

/// Removing one position keeps a sequence duplicate-free.
pub proof fn lemma_remove_no_duplicates<T>(s: Seq<T>, i: int)
    requires
        s.no_duplicates(),
        0 <= i < s.len(),
    ensures
        s.remove(i).no_duplicates(),
{
    assert forall|a: int, b: int|
        0 <= a < s.remove(i).len() && 0 <= b < s.remove(i).len() && a != b implies s.remove(i)[a]
        != s.remove(i)[b] by {
        let a0 = if a < i {
            a
        } else {
            a + 1
        };
        let b0 = if b < i {
            b
        } else {
            b + 1
        };
        assert(s.remove(i)[a] == s[a0]);
        assert(s.remove(i)[b] == s[b0]);
    }
}

/// An element of a filtered sequence comes from the original and
/// satisfies the predicate.
pub proof fn lemma_filter_subset<T>(s: Seq<T>, pred: spec_fn(T) -> bool, x: T)
    requires
        s.filter(pred).contains(x),
    ensures
        s.contains(x) && pred(x),
    decreases s.len(),
{
    reveal(Seq::filter);
    if s.len() > 0 {
        let rest = s.drop_last().filter(pred);
        if pred(s.last()) && x == s.last() {
            assert(s[s.len() - 1] == x);
        } else {
            if pred(s.last()) {
                lemma_push_contains(rest, s.last(), x);
            }
            lemma_filter_subset(s.drop_last(), pred, x);
            let k = choose|k: int| 0 <= k < s.drop_last().len() && s.drop_last()[k] == x;
            assert(s[k] == x);
        }
    }
}

/// Filtering with a predicate that every element satisfies changes
/// nothing.
pub proof fn lemma_filter_identity<T>(s: Seq<T>, pred: spec_fn(T) -> bool)
    requires
        forall|i: int| 0 <= i < s.len() ==> pred(#[trigger] s[i]),
    ensures
        s.filter(pred) == s,
    decreases s.len(),
{
    reveal(Seq::filter);
    if s.len() > 0 {
        lemma_filter_identity(s.drop_last(), pred);
        assert(s.drop_last().push(s.last()) =~= s);
    }
}

/// An element of a sequence is still there after dropping the last
/// position, unless it was exactly there.
pub proof fn lemma_contains_drop_last<T>(s: Seq<T>, y: T)
    requires
        s.len() > 0,
        s.contains(y),
    ensures
        s.drop_last().contains(y) || y == s.last(),
{
    let k = choose|k: int| 0 <= k < s.len() && s[k] == y;
    if k < s.len() - 1 {
        assert(s.drop_last()[k] == y);
    }
}

/// An element of a sequence is still there after dropping the first
/// position, unless it was exactly there.
pub proof fn lemma_contains_drop_first<T>(s: Seq<T>, y: T)
    requires
        s.len() > 0,
        s.contains(y),
    ensures
        s.subrange(1, s.len() as int).contains(y) || y == s[0],
{
    let k = choose|k: int| 0 <= k < s.len() && s[k] == y;
    if k > 0 {
        assert(s.subrange(1, s.len() as int)[k - 1] == y);
    }
}

/// Whether the vector holds the given value; a linear scan.
pub fn vec_contains(v: &Vec<u64>, x: u64) -> (r: bool)
    ensures
        r == v@.contains(x),
{
    let mut i: usize = 0;
    while i < v.len()
        invariant
            i <= v@.len(),
            forall|j: int| 0 <= j < i ==> v@[j] != x,
        decreases v@.len() - i,
    {
        if v[i] == x {
            return true;
        }
        i = i + 1;
    }
    false
}

/// The position of the first occurrence of the given value, or
/// `None` when the vector does not hold it.
pub fn vec_index_of(v: &Vec<u64>, x: u64) -> (r: Option<usize>)
    ensures
        match r {
            Some(i) => i < v@.len() && v@[i as int] == x && (forall|j: int| 0 <= j < i ==> v@[j]
                != x),
            None => !v@.contains(x),
        },
{
    let mut i: usize = 0;
    while i < v.len()
        invariant
            i <= v@.len(),
            forall|j: int| 0 <= j < i ==> v@[j] != x,
        decreases v@.len() - i,
    {
        if v[i] == x {
            return Some(i);
        }
        i = i + 1;
    }
    None
}

} // verus!
