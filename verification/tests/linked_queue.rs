use linear_collections::deque::LinkedQueue;

#[test]
fn linked_queue_returns_in_the_order_of_the_pushes() {
    let mut queue = LinkedQueue::<i32>::new();
    assert!(queue.is_empty());
    assert_eq!(queue.front(), None);
    let mut popped = Vec::new();
    queue.push(1);
    queue.push(2);
    assert_eq!(queue.front(), Some(&1));
    popped.push(queue.pop().unwrap());
    queue.push(3);
    queue.push(4);
    assert_eq!(queue.len(), 3);
    popped.push(queue.pop().unwrap());
    popped.push(queue.pop().unwrap());
    assert_eq!(queue.len(), 1);
    assert_eq!(queue.front(), Some(&4));
    popped.push(queue.pop().unwrap());
    assert_eq!(popped, vec![1, 2, 3, 4]);
    assert_eq!(queue.pop(), None);
    assert!(queue.is_empty());
}

#[test]
fn linked_queue_length_is_pushes_less_pops() {
    let mut queue = LinkedQueue::<usize>::new();
    for pushes in 0..6usize {
        queue.clear();
        for value in 0..pushes {
            queue.push(value);
        }
        for pops in 0..=pushes {
            assert_eq!(queue.len(), pushes - pops);
            if pops < pushes {
                assert_eq!(queue.pop(), Some(pops));
            }
        }
        assert_eq!(queue.pop(), None);
    }
}

#[test]
fn linked_queue_clear_empties_it() {
    let mut queue = LinkedQueue::<i32>::new();
    queue.push(1);
    queue.push(2);
    queue.clear();
    assert!(queue.is_empty());
    assert_eq!(queue.len(), 0);
    assert_eq!(queue.pop(), None);
    queue.push(3);
    assert_eq!(queue.front(), Some(&3));
}

#[test]
fn linked_queue_into_linked_list_keeps_the_order() {
    let mut queue = LinkedQueue::<i32>::new();
    queue.push(1);
    queue.push(2);
    queue.push(3);
    let mut list = queue.into_linked_list();
    assert_eq!(list.len(), 3);
    assert_eq!(list.pop_back(), Some(3));
    assert_eq!(list.pop_front(), Some(1));
    assert_eq!(list.pop_front(), Some(2));
    assert!(list.is_empty());
}
