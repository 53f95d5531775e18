use linear_collections::linear_list::SequenceList;
use std::cell::Cell;
use std::rc::Rc;

#[derive(Debug, PartialEq, Eq)]
struct Foo(i32);

impl Drop for Foo {
    fn drop(&mut self) {
        println!("{}", format!("drop {:?}", self));
    }
}

struct Counted {
    value: i32,
    drops: Rc<Cell<usize>>,
}

impl Drop for Counted {
    fn drop(&mut self) {
        self.drops.set(self.drops.get() + 1);
    }
}

fn counted(value: i32, drops: &Rc<Cell<usize>>) -> Counted {
    Counted { value, drops: Rc::clone(drops) }
}

fn contents(list: &SequenceList<i32>) -> Vec<i32> {
    (0..list.len()).map(|index| list[index]).collect()
}

#[test]
fn test_sequence_list() {
    let mut list = <SequenceList<Foo>>::new(10);
    assert!(list.is_empty());
    assert_eq!(list.capacity(), 10);

    list.push(Foo(1));
    assert_eq!(list.len(), 1);
    assert_eq!(list[0].0, 1);

    list.push(Foo(2));
    assert_eq!(list[1].0, 2);

    list.insert(1, Foo(3));
    assert_eq!(list[1].0, 3);
    assert_eq!(list[2].0, 2);
    // [1, 3, 2]

    assert_eq!(list.remove(1).0, 3); // drop 3
    assert_eq!(list.pop().unwrap().0, 2); // drop 2

    list.clear(); // drop [1]
    list.push(Foo(3));

    drop(list); // drop [3]
}

#[test]
fn sequence_list_push_insert_remove_pop() {
    let mut list = SequenceList::<i32>::new(4);
    list.push(1);
    list.push(2);
    list.insert(1, 3);
    assert_eq!(contents(&list), vec![1, 3, 2]);
    assert_eq!(list.remove(1), 3);
    assert_eq!(contents(&list), vec![1, 2]);
    assert_eq!(list.pop(), Some(2));
    assert_eq!(contents(&list), vec![1]);
}

#[test]
fn sequence_list_insert_then_remove_restores_the_contents() {
    for index in 0..=4 {
        let mut list = SequenceList::<i32>::new(5);
        for value in [10, 20, 30, 40] {
            list.push(value);
        }
        list.insert(index, 99);
        assert_eq!(list.len(), 5);
        assert_eq!(list[index], 99);
        assert_eq!(list.remove(index), 99);
        assert_eq!(contents(&list), vec![10, 20, 30, 40]);
    }
}

#[test]
fn sequence_list_insert_at_both_ends() {
    let mut list = SequenceList::<i32>::new(3);
    list.insert(0, 2);
    list.insert(0, 1);
    list.insert(2, 3);
    assert_eq!(contents(&list), vec![1, 2, 3]);
    assert_eq!(list.len(), list.capacity());
    assert_eq!(list.remove(0), 1);
    assert_eq!(list.remove(1), 3);
    assert_eq!(contents(&list), vec![2]);
}

#[test]
fn sequence_list_pop_from_empty_is_none() {
    let mut list = SequenceList::<i32>::new(2);
    assert_eq!(list.pop(), None);
    list.push(1);
    assert_eq!(list.pop(), Some(1));
    assert_eq!(list.pop(), None);
    assert!(list.is_empty());
}

#[test]
fn sequence_list_pops_in_reverse_of_pushes() {
    let mut list = SequenceList::<i32>::new(5);
    for value in 1..=5 {
        list.push(value);
    }
    assert_eq!(list.pop(), Some(5));
    assert_eq!(list.pop(), Some(4));
    assert_eq!(list.len(), 3);
    list.push(6);
    assert_eq!(list.pop(), Some(6));
    assert_eq!(list.pop(), Some(3));
    assert_eq!(list.len(), 2);
}

#[test]
fn sequence_list_clear_keeps_the_capacity() {
    let mut list = SequenceList::<i32>::new(3);
    list.push(1);
    list.push(2);
    list.clear();
    assert!(list.is_empty());
    assert_eq!(list.capacity(), 3);
    list.push(7);
    list.push(8);
    list.push(9);
    assert_eq!(contents(&list), vec![7, 8, 9]);
}

#[test]
fn sequence_list_of_capacity_zero() {
    let mut list = SequenceList::<i32>::new(0);
    assert!(list.is_empty());
    assert_eq!(list.capacity(), 0);
    assert_eq!(list.pop(), None);
    list.clear();
    assert_eq!(list.len(), 0);
}

#[test]
fn sequence_list_get_mut_writes_in_place() {
    let mut list = SequenceList::<i32>::new(3);
    list.push(1);
    list.push(2);
    *list.get_mut(1) = 20;
    *list.get_mut(0) += 5;
    assert_eq!(contents(&list), vec![6, 20]);
}

#[test]
fn sequence_list_try_new_refuses_what_does_not_fit() {
    assert!(SequenceList::<u64>::try_new(usize::MAX).is_none());
    let list = SequenceList::<u64>::try_new(4).unwrap();
    assert_eq!(list.capacity(), 4);
    assert!(list.is_empty());
}

#[test]
fn sequence_list_owning_iterator_yields_from_either_end() {
    let mut list = SequenceList::<i32>::new(5);
    for value in 1..=5 {
        list.push(value);
    }
    let mut iter = list.into_iter();
    assert_eq!(iter.len(), 5);
    assert_eq!(iter.size_hint(), (5, Some(5)));
    assert_eq!(iter.next(), Some(1));
    assert_eq!(iter.next_back(), Some(5));
    assert_eq!(iter.next_back(), Some(4));
    assert_eq!(iter.next(), Some(2));
    assert_eq!(iter.len(), 1);
    assert_eq!(iter.next(), Some(3));
    assert_eq!(iter.next(), None);
    assert_eq!(iter.next_back(), None);
    assert_eq!(iter.len(), 0);
}

#[test]
fn sequence_list_drops_each_remaining_element_once() {
    let drops = Rc::new(Cell::new(0));
    let mut list = SequenceList::<Counted>::new(4);
    for value in 0..4 {
        list.push(counted(value, &drops));
    }
    assert_eq!(list.remove(1).value, 1);
    assert_eq!(drops.get(), 1);
    assert_eq!(list.pop().unwrap().value, 3);
    assert_eq!(drops.get(), 2);
    list.insert(0, counted(9, &drops));
    assert_eq!(drops.get(), 2);
    drop(list);
    assert_eq!(drops.get(), 5);
}

#[test]
fn sequence_list_clear_drops_each_element_once() {
    let drops = Rc::new(Cell::new(0));
    let mut list = SequenceList::<Counted>::new(3);
    for value in 0..3 {
        list.push(counted(value, &drops));
    }
    list.clear();
    assert_eq!(drops.get(), 3);
    drop(list);
    assert_eq!(drops.get(), 3);
}

#[test]
fn sequence_list_unfinished_owning_iterator_drops_the_rest() {
    let drops = Rc::new(Cell::new(0));
    let mut list = SequenceList::<Counted>::new(5);
    for value in 0..5 {
        list.push(counted(value, &drops));
    }
    let mut iter = list.into_iter();
    assert_eq!(iter.next().unwrap().value, 0);
    assert_eq!(iter.next_back().unwrap().value, 4);
    assert_eq!(drops.get(), 2);
    drop(iter);
    assert_eq!(drops.get(), 5);
}
