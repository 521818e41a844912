use data_structures::array::CustomArray;

fn array_of(values: &[u64]) -> CustomArray {
    let mut a = CustomArray::new(values.len());
    for v in values {
        a.append(*v);
    }
    a
}

fn contents(a: &CustomArray) -> Vec<u64> {
    let mut out = Vec::new();
    for i in 0..a.size() {
        out.push(*a.get(i).unwrap());
    }
    out
}

#[test]
fn append_and_get() {
    let mut a = CustomArray::new(2);
    assert!(a.is_empty());
    a.append(10);
    a.append(20);
    assert_eq!(a.size(), 2);
    assert_eq!(a.get(0), Some(&10));
    assert_eq!(a.get(1), Some(&20));
    assert_eq!(a.get(2), None);
}

#[test]
fn insert_shifts_elements() {
    let mut a = array_of(&[10, 20]);
    a.insert(15, 1);
    assert_eq!(contents(&a), vec![10, 15, 20]);
}

#[test]
fn remove_drops_first_occurrence() {
    let mut a = array_of(&[1, 2, 1, 3]);
    a.remove(&1);
    assert_eq!(contents(&a), vec![2, 1, 3]);
    a.remove(&9);
    assert_eq!(contents(&a), vec![2, 1, 3]);
}

#[test]
fn pop_removes_by_index() {
    let mut a = array_of(&[1, 2, 3]);
    assert_eq!(a.pop(1), Some(2));
    assert_eq!(contents(&a), vec![1, 3]);
    assert_eq!(a.pop(5), None);
}

#[test]
fn set_overwrites_in_range_only() {
    let mut a = array_of(&[1, 2, 3]);
    a.set(1, 9);
    a.set(5, 7);
    assert_eq!(contents(&a), vec![1, 9, 3]);
}

#[test]
fn index_finds_first_occurrence() {
    let a = array_of(&[5, 6, 5]);
    assert_eq!(a.index(&5), Some(0));
    assert_eq!(a.index(&6), Some(1));
    assert_eq!(a.index(&7), None);
}

#[test]
fn count_counts_occurrences() {
    let a = array_of(&[5, 6, 5, 5]);
    assert_eq!(a.count(&5), 3);
    assert_eq!(a.count(&6), 1);
    assert_eq!(a.count(&7), 0);
}

#[test]
fn reverse_flips_the_order() {
    let mut a = array_of(&[1, 2, 3, 4]);
    a.reverse();
    assert_eq!(contents(&a), vec![4, 3, 2, 1]);
}

#[test]
fn sort_orders_ascending() {
    let mut a = array_of(&[3, 1, 4, 1, 5, 9, 2, 6]);
    a.sort();
    assert_eq!(contents(&a), vec![1, 1, 2, 3, 4, 5, 6, 9]);
}

#[test]
fn slice_is_inclusive_and_total() {
    let a = array_of(&[1, 2, 3, 4, 5]);
    assert_eq!(a.slice(1, 3), vec![2, 3, 4]);
    assert_eq!(a.slice(0, 4), vec![1, 2, 3, 4, 5]);
    assert!(a.slice(3, 1).is_empty());
    assert!(a.slice(1, 5).is_empty());
}
