use data_structures::stack::CustomStack;

#[test]
fn push_pop_peek() {
    let mut stack: CustomStack<u64> = CustomStack::new();
    assert!(stack.is_empty());
    assert_eq!(stack.pop(), None);
    stack.push(1);
    stack.push(2);
    stack.push(3);
    assert_eq!(stack.count(), 3);
    assert_eq!(stack.peek(), Some(&3));
    assert_eq!(stack.pop(), Some(3));
    assert_eq!(stack.pop(), Some(2));
    assert_eq!(stack.pop(), Some(1));
    assert!(stack.is_empty());
}

#[test]
fn initialize_and_push_vector() {
    let mut stack: CustomStack<u64> = CustomStack::new();
    stack.push(9);
    stack.initialize_with_vector(vec![1, 2]);
    stack.push_vector(vec![3, 4]);
    assert_eq!(stack.to_vector(), vec![1, 2, 3, 4]);
    assert_eq!(stack.peek(), Some(&4));
}

#[test]
fn pop_vector_pops_top_first() {
    let mut stack: CustomStack<u64> = CustomStack::new();
    stack.initialize_with_vector(vec![1, 2, 3, 4]);
    assert_eq!(stack.pop_vector(2), vec![4, 3]);
    assert_eq!(stack.to_vector(), vec![1, 2]);
}

#[test]
fn pop_vector_stops_at_the_bottom() {
    let mut stack: CustomStack<u64> = CustomStack::new();
    stack.initialize_with_vector(vec![1, 2]);
    assert_eq!(stack.pop_vector(5), vec![2, 1]);
    assert!(stack.is_empty());
}

#[test]
fn clear_empties_the_stack() {
    let mut stack: CustomStack<u64> = CustomStack::new();
    stack.initialize_with_vector(vec![1, 2, 3]);
    stack.clear();
    assert!(stack.is_empty());
}

#[test]
fn contains_scans_the_stack() {
    let mut stack: CustomStack<u64> = CustomStack::new();
    stack.initialize_with_vector(vec![1, 2, 3]);
    assert!(stack.contains(&1));
    assert!(!stack.contains(&7));
}

#[test]
fn filter_map_reduce() {
    let mut stack: CustomStack<u64> = CustomStack::new();
    stack.initialize_with_vector(vec![1, 2, 3, 4, 5]);
    assert_eq!(stack.filter(|x: &u64| *x > 3), vec![4, 5]);
    assert_eq!(stack.map(|x: &u64| *x + 1), vec![2, 3, 4, 5, 6]);
    assert_eq!(stack.reduce(1u64, |acc: u64, x: &u64| acc * *x), 120);
}

#[test]
fn concatenate_stacks_other_on_top() {
    let mut stack: CustomStack<u64> = CustomStack::new();
    stack.initialize_with_vector(vec![1, 2]);
    let mut other: CustomStack<u64> = CustomStack::new();
    other.initialize_with_vector(vec![3, 4]);
    stack.concatenate(other);
    assert_eq!(stack.to_vector(), vec![1, 2, 3, 4]);
    assert_eq!(stack.peek(), Some(&4));
}

#[test]
fn get_indexes_from_the_bottom() {
    let mut stack: CustomStack<u64> = CustomStack::new();
    stack.initialize_with_vector(vec![10, 20, 30]);
    assert_eq!(stack.get(0), Some(&10));
    assert_eq!(stack.get(2), Some(&30));
    assert_eq!(stack.get(3), None);
}
