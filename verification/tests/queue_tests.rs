use data_structures::queue::CustomQueue;

#[test]
fn enqueue_and_count() {
    let mut queue: CustomQueue<u64> = CustomQueue::new();
    assert!(queue.is_empty());
    queue.enqueue(1);
    queue.enqueue(2);
    queue.enqueue(3);
    assert!(!queue.is_empty());
    assert_eq!(queue.count(), 3);
}

#[test]
fn dequeue_takes_the_front() {
    let mut queue: CustomQueue<u64> = CustomQueue::new();
    queue.enqueue(1);
    queue.enqueue(2);
    queue.enqueue(3);
    assert_eq!(queue.dequeue(), Some(1));
    assert_eq!(queue.dequeue(), Some(2));
    assert_eq!(queue.dequeue(), Some(3));
    assert_eq!(queue.dequeue(), None);
}

#[test]
fn peek_looks_at_the_front() {
    let mut queue: CustomQueue<u64> = CustomQueue::new();
    assert_eq!(queue.peek(), None);
    queue.enqueue(5);
    queue.enqueue(6);
    assert_eq!(queue.peek(), Some(&5));
    assert_eq!(queue.count(), 2);
}

#[test]
fn initialize_and_enqueue_vector() {
    let mut queue: CustomQueue<u64> = CustomQueue::new();
    queue.enqueue(9);
    queue.initialize_with_vector(vec![1, 2]);
    queue.enqueue_vector(vec![3, 4]);
    assert_eq!(queue.to_vector(), vec![1, 2, 3, 4]);
}

#[test]
fn dequeue_vector_takes_the_front() {
    let mut queue: CustomQueue<u64> = CustomQueue::new();
    queue.initialize_with_vector(vec![1, 2, 3, 4]);
    assert_eq!(queue.dequeue_vector(2), vec![1, 2]);
    assert_eq!(queue.to_vector(), vec![3, 4]);
    assert!(queue.dequeue_vector(0).is_empty());
    assert_eq!(queue.count(), 2);
}

#[test]
fn clear_empties_the_queue() {
    let mut queue: CustomQueue<u64> = CustomQueue::new();
    queue.initialize_with_vector(vec![1, 2, 3]);
    queue.clear();
    assert!(queue.is_empty());
}

#[test]
fn contains_scans_all_elements() {
    let mut queue: CustomQueue<u64> = CustomQueue::new();
    queue.initialize_with_vector(vec![1, 2, 3]);
    assert!(queue.contains(&2));
    assert!(!queue.contains(&4));
}

#[test]
fn filter_keeps_matching_elements_in_order() {
    let mut queue: CustomQueue<u64> = CustomQueue::new();
    queue.initialize_with_vector(vec![1, 2, 3, 4, 5]);
    let evens = queue.filter(|x: &u64| *x % 2 == 0);
    assert_eq!(evens, vec![2, 4]);
}

#[test]
fn map_transforms_each_element() {
    let mut queue: CustomQueue<u64> = CustomQueue::new();
    queue.initialize_with_vector(vec![1, 2, 3]);
    let doubled = queue.map(|x: &u64| *x * 2);
    assert_eq!(doubled, vec![2, 4, 6]);
}

#[test]
fn reduce_folds_front_to_back() {
    let mut queue: CustomQueue<u64> = CustomQueue::new();
    queue.initialize_with_vector(vec![1, 2, 3, 4]);
    let sum = queue.reduce(0u64, |acc: u64, x: &u64| acc + *x);
    assert_eq!(sum, 10);
}

#[test]
fn concatenate_appends_the_other_queue() {
    let mut queue: CustomQueue<u64> = CustomQueue::new();
    queue.initialize_with_vector(vec![1, 2]);
    let mut other: CustomQueue<u64> = CustomQueue::new();
    other.initialize_with_vector(vec![3, 4]);
    queue.concatenate(other);
    assert_eq!(queue.to_vector(), vec![1, 2, 3, 4]);
}

#[test]
fn get_indexes_from_the_front() {
    let mut queue: CustomQueue<String> = CustomQueue::new();
    queue.enqueue(String::from("a"));
    queue.enqueue(String::from("b"));
    assert_eq!(queue.get(1), Some(&String::from("b")));
    assert_eq!(queue.get(2), None);
}
