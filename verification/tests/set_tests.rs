use data_structures::set::CustomSet;

fn set_of(values: &[u64]) -> CustomSet {
    let mut s = CustomSet::new();
    for v in values {
        s.insert(*v);
    }
    s
}

fn sorted_members(s: &CustomSet) -> Vec<u64> {
    let mut out = Vec::new();
    for v in 0..100u64 {
        if s.contains(&v) {
            out.push(v);
        }
    }
    out
}

#[test]
fn insert_and_contains() {
    let mut s = CustomSet::new();
    assert!(s.is_empty());
    s.insert(1);
    s.insert(2);
    s.insert(2);
    assert!(!s.is_empty());
    assert_eq!(s.count(), 2);
    assert!(s.contains(&1));
    assert!(s.contains(&2));
    assert!(!s.contains(&3));
}

#[test]
fn remove_returns_the_member() {
    let mut s = set_of(&[1, 2, 3]);
    assert_eq!(s.remove(&2), Some(2));
    assert_eq!(s.remove(&2), None);
    assert_eq!(s.count(), 2);
    assert!(!s.contains(&2));
}

#[test]
fn union_combines_both() {
    let a = set_of(&[1, 2, 3]);
    let b = set_of(&[2, 3, 4]);
    let u = a.union(&b);
    assert_eq!(sorted_members(&u), vec![1, 2, 3, 4]);
}

#[test]
fn intersection_keeps_common_members() {
    let a = set_of(&[1, 2, 3]);
    let b = set_of(&[2, 3, 4]);
    assert_eq!(sorted_members(&a.intersection(&b)), vec![2, 3]);
}

#[test]
fn difference_drops_the_other() {
    let a = set_of(&[1, 2, 3]);
    let b = set_of(&[2, 3, 4]);
    assert_eq!(sorted_members(&a.difference(&b)), vec![1]);
    assert_eq!(sorted_members(&b.difference(&a)), vec![4]);
}

#[test]
fn symmetric_difference_keeps_exclusive_members() {
    let a = set_of(&[1, 2, 3]);
    let b = set_of(&[2, 3, 4]);
    assert_eq!(sorted_members(&a.symmetric_difference(&b)), vec![1, 4]);
}

#[test]
fn subset_and_superset() {
    let a = set_of(&[1, 2]);
    let b = set_of(&[1, 2, 3]);
    assert!(a.is_subset_of(&b));
    assert!(!b.is_subset_of(&a));
    assert!(b.is_superset_of(&a));
    assert!(a.is_subset_of(&a));
}

#[test]
fn disjointness() {
    let a = set_of(&[1, 2]);
    let b = set_of(&[3, 4]);
    let c = set_of(&[2, 3]);
    assert!(a.is_disjoint_with(&b));
    assert!(!a.is_disjoint_with(&c));
}

#[test]
fn in_place_operations() {
    let mut a = set_of(&[1, 2, 3]);
    a.form_union(&set_of(&[3, 4]));
    assert_eq!(sorted_members(&a), vec![1, 2, 3, 4]);
    a.form_intersection(&set_of(&[2, 3, 4, 5]));
    assert_eq!(sorted_members(&a), vec![2, 3, 4]);
    a.subtract(&set_of(&[3]));
    assert_eq!(sorted_members(&a), vec![2, 4]);
    a.remove_all_occurrences(&4);
    assert_eq!(sorted_members(&a), vec![2]);
    a.remove_all();
    assert!(a.is_empty());
}

#[test]
fn for_each_visits_every_member() {
    let s = set_of(&[1, 2, 3]);
    let total = std::cell::Cell::new(0u64);
    s.for_each(|x: &u64| total.set(total.get() + *x));
    assert_eq!(total.get(), 6);
}
