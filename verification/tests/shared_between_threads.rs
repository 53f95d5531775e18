use linear_collections::deque::{LinkedQueue, RingDeque};
use linear_collections::linear_list::{LinkedList, SequenceList};
use linear_collections::stack::VecStack;

fn sendable<T: Send>(value: T) -> T {
    value
}

fn shareable<T: Sync>(value: &T) -> &T {
    value
}

#[test]
fn containers_of_sendable_elements_are_sendable() {
    let mut deque = sendable(RingDeque::<i32>::new(2));
    deque.push_back(1);
    let mut list = sendable(SequenceList::<i32>::new(2));
    list.push(2);
    let mut linked = sendable(LinkedList::<i32>::new());
    linked.push_back(3);
    let mut queue = sendable(LinkedQueue::<i32>::new());
    queue.push(4);
    let mut stack = sendable(VecStack::<i32>::new());
    stack.push(5);
    let owned = sendable(deque.into_iter());
    assert_eq!(owned.len(), 1);
    assert_eq!(
        (list.pop(), linked.pop_front(), queue.pop(), stack.pop()),
        (Some(2), Some(3), Some(4), Some(5))
    );
}

#[test]
fn containers_of_shareable_elements_are_shareable() {
    let mut deque = RingDeque::<i32>::new(2);
    deque.push_back(1);
    deque.push_back(2);
    let mut linked = LinkedList::<i32>::new();
    linked.push_back(3);
    let mut list = SequenceList::<i32>::new(1);
    list.push(4);
    let first = sendable(shareable(&deque).iter());
    let mut second = sendable(shareable(&deque).iter());
    assert_eq!(first.len(), 2);
    assert_eq!(second.next_back(), Some(&2));
    assert_eq!(shareable(&linked).front(), Some(&3));
    assert_eq!(sendable(shareable(&linked).iter()).next(), Some(&3));
    assert_eq!(shareable(&list)[0], 4);
    assert_eq!(deque.len(), 2);
}
