use linear_collections::stack::VecStack;

#[test]
fn vec_stack_returns_in_the_reverse_order_of_the_pushes() {
    let mut stack = VecStack::<i32>::new();
    assert!(stack.is_empty());
    assert_eq!(stack.top(), None);
    for value in 1..=4 {
        stack.push(value);
    }
    assert_eq!(stack.len(), 4);
    assert_eq!(stack.top(), Some(&4));
    assert_eq!(stack.pop(), Some(4));
    assert_eq!(stack.pop(), Some(3));
    assert_eq!(stack.len(), 2);
    stack.push(5);
    assert_eq!(stack.pop(), Some(5));
    assert_eq!(stack.pop(), Some(2));
    assert_eq!(stack.pop(), Some(1));
    assert_eq!(stack.pop(), None);
    assert!(stack.is_empty());
}

#[test]
fn vec_stack_height_is_pushes_less_pops() {
    for pushes in 0..6usize {
        let mut stack = VecStack::<usize>::new();
        for value in 0..pushes {
            stack.push(value);
        }
        for pops in 0..=pushes {
            assert_eq!(stack.len(), pushes - pops);
            if pops < pushes {
                assert_eq!(stack.pop(), Some(pushes - 1 - pops));
            }
        }
        assert_eq!(stack.pop(), None);
    }
}

#[test]
fn vec_stack_clear_empties_it() {
    let mut stack = VecStack::<i32>::new();
    stack.push(1);
    stack.push(2);
    stack.clear();
    assert!(stack.is_empty());
    assert_eq!(stack.top(), None);
    assert_eq!(stack.pop(), None);
}

#[test]
fn vec_stack_iter_goes_from_the_bottom_to_the_top() {
    let mut stack = VecStack::<i32>::new();
    stack.push(1);
    stack.push(2);
    stack.push(3);
    let seen: Vec<i32> = stack.iter().copied().collect();
    assert_eq!(seen, vec![1, 2, 3]);
    let reversed: Vec<i32> = stack.iter().rev().copied().collect();
    assert_eq!(reversed, vec![3, 2, 1]);
    assert_eq!(stack.len(), 3);
}

#[test]
fn vec_stack_iter_mut_changes_elements_and_keeps_the_height() {
    let mut stack = VecStack::<i32>::new();
    stack.push(1);
    stack.push(2);
    stack.push(3);
    for elem in stack.iter_mut() {
        *elem *= 10;
    }
    assert_eq!(stack.len(), 3);
    assert_eq!(stack.top(), Some(&30));
    assert_eq!(stack.into_vec(), vec![10, 20, 30]);
}

#[test]
fn vec_stack_into_vec_has_the_bottom_first() {
    let mut stack = VecStack::<&str>::new();
    assert_eq!(VecStack::<i32>::new().into_vec(), Vec::<i32>::new());
    stack.push("a");
    stack.push("b");
    assert_eq!(stack.into_vec(), vec!["a", "b"]);
}
