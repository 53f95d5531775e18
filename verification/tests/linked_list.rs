use linear_collections::linear_list::LinkedList;
use std::cell::Cell;
use std::rc::Rc;

#[derive(Debug, PartialEq, Eq)]
struct Foo(i32);

impl Drop for Foo {
    fn drop(&mut self) {
        println!("{}", format!("drop {:?}", self));
    }
}

struct Counted {
    value: i32,
    drops: Rc<Cell<usize>>,
}

impl Drop for Counted {
    fn drop(&mut self) {
        self.drops.set(self.drops.get() + 1);
    }
}

fn counted(value: i32, drops: &Rc<Cell<usize>>) -> Counted {
    Counted { value, drops: Rc::clone(drops) }
}

fn forward<T: Clone>(list: &LinkedList<T>) -> Vec<T> {
    let mut seen = Vec::new();
    let mut iter = list.iter();
    while let Some(elem) = iter.next() {
        seen.push(elem.clone());
    }
    seen
}

fn backward<T: Clone>(list: &LinkedList<T>) -> Vec<T> {
    let mut seen = Vec::new();
    let mut iter = list.iter();
    while let Some(elem) = iter.next_back() {
        seen.push(elem.clone());
    }
    seen
}

#[test]
fn test_linked_list() {
    let mut list = <LinkedList<Foo>>::new();
    assert!(list.is_empty());

    list.push_back(Foo(2));
    list.push_front(Foo(1));

    let mut iter = list.iter();
    while let Some(e) = iter.next() {
        println!("{:?}", e);
    }

    let mut iter = list.iter();
    while let Some(e) = iter.next() {
        println!("{:?}", e);
    }

    assert_eq!(list.pop_front().unwrap().0, 1);
    assert_eq!(list.pop_back().unwrap().0, 2);

    let mut rest = list.into_iter();
    while let Some(e) = rest.next() {
        println!("{:?}", e);
    }

    let mut list = <LinkedList<Foo>>::new();

    for i in 3..=5 {
        list.push_front(Foo(i));
    }

    list.clear();

    for i in 6..=9 {
        list.push_back(Foo(i));
    }
    drop(list);
}

#[test]
fn linked_list_push_both_ends_pop_both_ends() {
    let mut list = LinkedList::<i32>::new();
    list.push_back(2);
    list.push_front(1);
    assert_eq!(forward(&list), vec![1, 2]);
    assert_eq!(list.pop_front(), Some(1));
    assert_eq!(list.pop_back(), Some(2));
    assert!(list.is_empty());
    assert_eq!(list.len(), 0);
}

#[test]
fn linked_list_pop_from_empty_is_none() {
    let mut list = LinkedList::<i32>::new();
    assert_eq!(list.pop_front(), None);
    assert_eq!(list.pop_back(), None);
    assert_eq!(list.front(), None);
    list.push_back(1);
    assert_eq!(list.front(), Some(&1));
    assert_eq!(list.pop_back(), Some(1));
    assert_eq!(list.pop_front(), None);
    assert_eq!(list.front(), None);
}

#[test]
fn linked_list_push_front_makes_the_new_element_the_first() {
    let mut list = LinkedList::<i32>::new();
    for value in 3..=5 {
        list.push_front(value);
    }
    assert_eq!(forward(&list), vec![5, 4, 3]);
    assert_eq!(backward(&list), vec![3, 4, 5]);
    assert_eq!(list.front(), Some(&5));
    list.push_back(2);
    assert_eq!(forward(&list), vec![5, 4, 3, 2]);
    assert_eq!(list.len(), 4);
}

#[test]
fn linked_list_returns_in_the_order_of_the_pushes() {
    let mut list = LinkedList::<i32>::new();
    let mut popped = Vec::new();
    list.push_back(1);
    list.push_back(2);
    popped.push(list.pop_front().unwrap());
    list.push_back(3);
    popped.push(list.pop_front().unwrap());
    popped.push(list.pop_front().unwrap());
    assert_eq!(list.pop_front(), None);
    list.push_back(4);
    popped.push(list.pop_front().unwrap());
    assert_eq!(popped, vec![1, 2, 3, 4]);
}

#[test]
fn linked_list_takes_nodes_back_and_hands_them_out_again() {
    let mut list = LinkedList::<i32>::new();
    for round in 0..50 {
        list.push_back(round);
        list.push_back(round + 100);
        assert_eq!(list.pop_front(), Some(round));
        list.push_front(round + 200);
        assert_eq!(list.pop_back(), Some(round + 100));
        assert_eq!(list.pop_back(), Some(round + 200));
        assert!(list.is_empty());
    }
    for value in 0..5 {
        list.push_back(value);
    }
    assert_eq!(list.pop_front(), Some(0));
    assert_eq!(list.pop_back(), Some(4));
    list.push_back(7);
    list.push_front(8);
    assert_eq!(forward(&list), vec![8, 1, 2, 3, 7]);
    assert_eq!(backward(&list), vec![7, 3, 2, 1, 8]);
}

#[test]
fn linked_list_clear_then_use_again() {
    let mut list = LinkedList::<i32>::new();
    list.clear();
    assert!(list.is_empty());
    for value in 3..=5 {
        list.push_front(value);
    }
    list.clear();
    assert!(list.is_empty());
    assert_eq!(list.len(), 0);
    assert_eq!(list.pop_front(), None);
    for value in 6..=9 {
        list.push_back(value);
    }
    assert_eq!(forward(&list), vec![6, 7, 8, 9]);
}

#[test]
fn linked_list_ordered_insert_sorts_whatever_the_order_of_arrival() {
    let arrivals: [&[i32]; 6] = [
        &[],
        &[1],
        &[3, 1, 2],
        &[5, 4, 3, 2, 1],
        &[1, 2, 3, 4, 5],
        &[2, 7, 1, 8, 2, 8, 1, 8, 2, 8, 4, 5, 9, 0, 4, 5],
    ];
    for arrival in arrivals {
        let mut list = LinkedList::<i32>::new();
        for value in arrival {
            list.ordered_insert(*value);
        }
        let mut expected = arrival.to_vec();
        expected.sort();
        assert_eq!(list.len(), arrival.len());
        assert_eq!(forward(&list), expected);
    }
}

#[test]
fn linked_list_ordered_insert_at_the_front_the_middle_and_the_back() {
    let mut list = LinkedList::<i32>::new();
    list.ordered_insert(10);
    list.ordered_insert(30);
    assert_eq!(forward(&list), vec![10, 30]);
    list.ordered_insert(20);
    assert_eq!(forward(&list), vec![10, 20, 30]);
    list.ordered_insert(5);
    assert_eq!(forward(&list), vec![5, 10, 20, 30]);
    assert_eq!(list.front(), Some(&5));
    assert_eq!(backward(&list), vec![30, 20, 10, 5]);
    assert_eq!(list.len(), 4);
}

#[derive(Clone, Debug)]
struct Keyed {
    key: i32,
    tag: char,
}

impl PartialEq for Keyed {
    fn eq(&self, other: &Keyed) -> bool {
        self.key == other.key
    }
}

impl Eq for Keyed {}

impl PartialOrd for Keyed {
    fn partial_cmp(&self, other: &Keyed) -> Option<std::cmp::Ordering> {
        Some(self.cmp(other))
    }
}

impl Ord for Keyed {
    fn cmp(&self, other: &Keyed) -> std::cmp::Ordering {
        self.key.cmp(&other.key)
    }
}

#[test]
fn linked_list_ordered_insert_puts_equals_behind_equals() {
    let mut list = LinkedList::<Keyed>::new();
    for (key, tag) in [(2, 'a'), (1, 'b'), (2, 'c'), (3, 'd'), (2, 'e'), (1, 'f')] {
        list.ordered_insert(Keyed { key, tag });
    }
    let tags: Vec<(i32, char)> = forward(&list).iter().map(|k| (k.key, k.tag)).collect();
    assert_eq!(tags, vec![(1, 'b'), (1, 'f'), (2, 'a'), (2, 'c'), (2, 'e'), (3, 'd')]);
}

#[test]
fn linked_list_ordered_insert_stops_at_the_first_greater_element() {
    let mut list = LinkedList::<i32>::new();
    list.push_back(5);
    list.push_back(1);
    list.push_back(9);
    list.ordered_insert(3);
    assert_eq!(forward(&list), vec![3, 5, 1, 9]);
    list.ordered_insert(7);
    assert_eq!(forward(&list), vec![3, 5, 1, 7, 9]);
    list.ordered_insert(9);
    assert_eq!(forward(&list), vec![3, 5, 1, 7, 9, 9]);
}

#[test]
fn linked_list_from_iter_keeps_the_order() {
    let list = LinkedList::from_iter(vec![3, 1, 2].into_iter());
    assert_eq!(list.len(), 3);
    assert_eq!(forward(&list), vec![3, 1, 2]);
    let none = LinkedList::<i32>::from_iter(Vec::new().into_iter());
    assert!(none.is_empty());
}

#[test]
fn linked_list_cursor_does_not_change_the_list() {
    let list = LinkedList::from_iter(vec![1, 2, 3, 4].into_iter());
    let mut iter = list.iter();
    assert_eq!(iter.len(), 4);
    assert_eq!(iter.size_hint(), (4, Some(4)));
    assert_eq!(iter.next_back(), Some(&4));
    assert_eq!(iter.next(), Some(&1));
    assert_eq!(iter.next(), Some(&2));
    assert_eq!(iter.len(), 1);
    assert_eq!(iter.next_back(), Some(&3));
    assert_eq!(iter.next_back(), None);
    assert_eq!(iter.next(), None);
    assert_eq!(list.len(), 4);
    assert_eq!(forward(&list), vec![1, 2, 3, 4]);
    assert!(LinkedList::<i32>::new().iter().next().is_none());
}

#[test]
fn linked_list_mutable_cursor_writes_in_place() {
    let mut list = LinkedList::from_iter(vec![1, 2, 3].into_iter());
    let mut iter = list.iter_mut();
    assert_eq!(iter.len(), 3);
    while let Some(elem) = iter.next() {
        *elem *= 10;
    }
    assert_eq!(forward(&list), vec![10, 20, 30]);
    let mut iter = list.iter_mut();
    *iter.next_back().unwrap() += 1;
    *iter.next().unwrap() += 2;
    assert_eq!(iter.size_hint(), (1, Some(1)));
    *iter.next().unwrap() += 3;
    assert!(iter.next().is_none());
    assert!(iter.next_back().is_none());
    assert_eq!(forward(&list), vec![12, 23, 31]);
    assert_eq!(list.len(), 3);
}

#[test]
fn linked_list_owning_iterator_yields_from_either_end() {
    let list = LinkedList::from_iter(vec![1, 2, 3, 4].into_iter());
    let mut iter = list.into_iter();
    assert_eq!(iter.len(), 4);
    assert_eq!(iter.next(), Some(1));
    assert_eq!(iter.next_back(), Some(4));
    assert_eq!(iter.size_hint(), (2, Some(2)));
    assert_eq!(iter.next_back(), Some(3));
    assert_eq!(iter.next(), Some(2));
    assert_eq!(iter.next(), None);
    assert_eq!(iter.next_back(), None);
}

#[test]
fn linked_list_drops_each_remaining_element_once() {
    let drops = Rc::new(Cell::new(0));
    drop(LinkedList::<Counted>::new());
    let mut list = LinkedList::<Counted>::new();
    for value in 0..5 {
        list.push_back(counted(value, &drops));
    }
    assert_eq!(list.pop_front().unwrap().value, 0);
    assert_eq!(list.pop_back().unwrap().value, 4);
    assert_eq!(drops.get(), 2);
    list.push_front(counted(5, &drops));
    drop(list);
    assert_eq!(drops.get(), 6);
}

#[test]
fn linked_list_clear_drops_each_element_once() {
    let drops = Rc::new(Cell::new(0));
    let mut list = LinkedList::<Counted>::new();
    for value in 0..3 {
        list.push_front(counted(value, &drops));
    }
    list.clear();
    assert_eq!(drops.get(), 3);
    list.push_back(counted(3, &drops));
    drop(list);
    assert_eq!(drops.get(), 4);
}

#[test]
fn linked_list_unfinished_owning_iterator_drops_the_rest() {
    let drops = Rc::new(Cell::new(0));
    let mut list = LinkedList::<Counted>::new();
    for value in 0..4 {
        list.push_back(counted(value, &drops));
    }
    let mut iter = list.into_iter();
    assert_eq!(iter.next_back().unwrap().value, 3);
    assert_eq!(drops.get(), 1);
    drop(iter);
    assert_eq!(drops.get(), 4);
}
