use list_zipper::stacks::{pop_push, push_and_yield, push_back_and_yield, reset};
use std::collections::VecDeque;

#[test]
fn push_and_yield_puts_on_top() {
    let mut stack: VecDeque<i32> = VecDeque::from(vec![2, 3]);
    push_and_yield(&mut stack, 1);
    assert_eq!(stack, VecDeque::from(vec![1, 2, 3]));
    push_and_yield(push_and_yield(&mut stack, 0), -1);
    assert_eq!(stack, VecDeque::from(vec![-1, 0, 1, 2, 3]));
}

#[test]
fn push_back_and_yield_puts_underneath() {
    let mut stack: VecDeque<i32> = VecDeque::from(vec![1, 2]);
    push_back_and_yield(&mut stack, 3);
    assert_eq!(stack, VecDeque::from(vec![1, 2, 3]));
    push_back_and_yield(push_back_and_yield(&mut stack, 4), 5);
    assert_eq!(stack, VecDeque::from(vec![1, 2, 3, 4, 5]));
}

#[test]
fn reset_turns_one_stack_over_onto_the_other() {
    let mut onto: VecDeque<i32> = VecDeque::from(vec![3, 4]);
    let mut from: VecDeque<i32> = VecDeque::from(vec![2, 1, 0]);
    reset(&mut onto, &mut from);
    assert_eq!(onto, VecDeque::from(vec![0, 1, 2, 3, 4]));
    assert!(from.is_empty());
}

#[test]
fn reset_of_an_empty_stack_changes_nothing() {
    let mut onto: VecDeque<i32> = VecDeque::from(vec![3, 4]);
    let mut from: VecDeque<i32> = VecDeque::new();
    reset(&mut onto, &mut from);
    assert_eq!(onto, VecDeque::from(vec![3, 4]));
    assert!(from.is_empty());
}

#[test]
fn pop_push_moves_the_top() {
    let mut pop: VecDeque<i32> = VecDeque::from(vec![1, 2]);
    let mut push: VecDeque<i32> = VecDeque::from(vec![0]);
    pop_push(&mut pop, &mut push);
    assert_eq!(pop, VecDeque::from(vec![2]));
    assert_eq!(push, VecDeque::from(vec![1, 0]));
    pop_push(&mut pop, &mut push);
    assert!(pop.is_empty());
    assert_eq!(push, VecDeque::from(vec![2, 1, 0]));
}
