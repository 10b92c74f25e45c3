use linear_lists::{Combine, LinearList, LinearListError, Stack, MEMORY_SIZE};
use std::cmp::Ordering;

fn stack_of(items: &[u32]) -> Stack<u32> {
    let mut stack = Stack::default();
    for (i, item) in items.iter().enumerate() {
        assert_eq!(stack.insert_before(i, *item), Ok(()));
    }
    stack
}

fn contents(stack: &Stack<u32>) -> Vec<u32> {
    let mut out = Vec::new();
    for i in 0..stack.length() {
        out.push(*stack.get(i).unwrap());
    }
    out
}

#[test]
fn insert_in_middle_shifts_later_items() {
    let mut stack = stack_of(&[1, 2, 4]);
    assert_eq!(stack.insert_before(2, 3), Ok(()));
    assert_eq!(contents(&stack), vec![1, 2, 3, 4]);
    assert_eq!(stack.get(2), Some(&3));
    assert_eq!(stack.length(), 4);
}

#[test]
fn insert_at_length_appends() {
    let mut stack = stack_of(&[5, 6]);
    assert_eq!(stack.insert_before(2, 7), Ok(()));
    assert_eq!(contents(&stack), vec![5, 6, 7]);
}

#[test]
fn insert_past_length_leaves_list_unchanged() {
    let mut stack = stack_of(&[1, 2]);
    assert_eq!(stack.insert_before(3, 9), Err(LinearListError::OutOfRange));
    assert_eq!(contents(&stack), vec![1, 2]);
}

#[test]
fn out_of_range_wins_over_overflow() {
    let mut stack = stack_of(&[0; MEMORY_SIZE]);
    assert_eq!(stack.insert_before(MEMORY_SIZE + 1, 1), Err(LinearListError::OutOfRange));
}

#[test]
fn full_list_rejects_every_valid_position() {
    let items: Vec<u32> = (0..MEMORY_SIZE as u32).collect();
    let mut stack = stack_of(&items);
    for pos in 0..=MEMORY_SIZE {
        assert_eq!(stack.insert_before(pos, 99), Err(LinearListError::MemoryOverflow));
    }
    assert_eq!(contents(&stack), items);
}

#[test]
fn delete_out_of_range_leaves_list_unchanged() {
    let mut stack = stack_of(&[1, 2, 3]);
    assert_eq!(stack.delete(3), Err(LinearListError::OutOfRange));
    assert_eq!(stack.delete(100), Err(LinearListError::OutOfRange));
    assert_eq!(contents(&stack), vec![1, 2, 3]);
    let mut empty: Stack<u32> = Stack::default();
    assert_eq!(empty.delete(0), Err(LinearListError::OutOfRange));
}

#[test]
fn delete_in_middle_shifts_later_items() {
    let mut stack = stack_of(&[1, 2, 3, 4]);
    assert_eq!(stack.delete(1), Ok(2));
    assert_eq!(contents(&stack), vec![1, 3, 4]);
}

#[test]
fn insert_then_delete_round_trip() {
    let mut stack = stack_of(&[10, 20, 30]);
    assert_eq!(stack.insert_before(1, 15), Ok(()));
    assert_eq!(stack.delete(1), Ok(15));
    assert_eq!(contents(&stack), vec![10, 20, 30]);
}

#[test]
fn get_mut_writes_through() {
    let mut stack = stack_of(&[1, 2, 3]);
    *stack.get_mut(1).unwrap() = 20;
    assert_eq!(contents(&stack), vec![1, 20, 3]);
    assert_eq!(stack.get_mut(3), None);
}

#[test]
fn swap_exchanges_items() {
    let mut stack = stack_of(&[1, 2, 3]);
    stack.swap(0, 2);
    assert_eq!(contents(&stack), vec![3, 2, 1]);
}

#[test]
fn insert_after_places_item_behind_position() {
    let mut stack = stack_of(&[1, 3]);
    assert_eq!(stack.insert_after(0, 2), Ok(()));
    assert_eq!(contents(&stack), vec![1, 2, 3]);
    assert_eq!(stack.insert_after(2, 4), Ok(()));
    assert_eq!(contents(&stack), vec![1, 2, 3, 4]);
    assert_eq!(stack.insert_after(4, 5), Err(LinearListError::OutOfRange));
    assert_eq!(stack.insert_after(usize::MAX, 5), Err(LinearListError::OutOfRange));
}

#[test]
fn front_inserts_come_out_last_in_first_out() {
    let mut stack = Stack::default();
    for i in 0..MEMORY_SIZE {
        assert_eq!(stack.insert_before(0, i), Ok(()));
    }
    for i in (0..MEMORY_SIZE).rev() {
        assert_eq!(stack.delete(0), Ok(i));
    }
    assert_eq!(stack.delete(0), Err(LinearListError::OutOfRange));
}

#[test]
fn end_inserts_come_out_first_in_first_out() {
    let mut stack = Stack::default();
    for i in 0..MEMORY_SIZE {
        let len = stack.length();
        assert_eq!(stack.insert_before(len, i), Ok(()));
    }
    for i in 0..MEMORY_SIZE {
        assert_eq!(stack.delete(0), Ok(i));
    }
}

#[test]
fn sort_orders_adjacent_pairs() {
    let mut stack = stack_of(&[5, 1, 4, 1, 3]);
    stack.sort();
    assert_eq!(contents(&stack), vec![1, 1, 3, 4, 5]);
    for i in 0..stack.length() - 1 {
        assert!(stack.get(i).unwrap() <= stack.get(i + 1).unwrap());
    }
}

#[test]
fn sort_empty_and_single() {
    let mut empty: Stack<u32> = Stack::default();
    empty.sort();
    assert_eq!(empty.length(), 0);
    let mut one = stack_of(&[7]);
    one.sort();
    assert_eq!(contents(&one), vec![7]);
}

#[test]
fn sort_by_reverse_order_descends() {
    let mut stack = stack_of(&[3, 9, 1, 7, 5]);
    stack.sort_by(|a, b| b.cmp(a));
    assert_eq!(contents(&stack), vec![9, 7, 5, 3, 1]);
}

#[test]
fn sort_by_is_stable_for_equal_keys() {
    let mut stack = stack_of(&[21, 10, 20, 11]);
    stack.sort_by(|a, b| (a / 10).cmp(&(b / 10)));
    assert_eq!(contents(&stack), vec![10, 11, 21, 20]);
}

#[test]
fn search_by_returns_first_match() {
    let stack = stack_of(&[1, 4, 6, 8]);
    assert_eq!(stack.search_by(|x| x % 2 == 0), Some(&4));
    assert_eq!(stack.search_by(|x| *x > 5), Some(&6));
    assert_eq!(stack.search_by(|x| *x > 100), None);
    let empty: Stack<u32> = Stack::default();
    assert_eq!(empty.search_by(|_| true), None);
}

#[test]
fn combine_appends_other_in_order() {
    let mut stack = stack_of(&[1, 2]);
    let other = stack_of(&[3, 4, 5]);
    stack.combine(other);
    assert_eq!(contents(&stack), vec![1, 2, 3, 4, 5]);
}

#[test]
fn combine_all_appends_each_list() {
    let mut stack = stack_of(&[1]);
    stack.combine_all(vec![stack_of(&[2, 3]), stack_of(&[]), stack_of(&[4])]);
    assert_eq!(contents(&stack), vec![1, 2, 3, 4]);
}

#[test]
fn clone_copies_items() {
    let stack = stack_of(&[3, 1, 2]);
    let copy = stack.clone();
    assert_eq!(contents(&copy), vec![3, 1, 2]);
    assert_eq!(contents(&stack), vec![3, 1, 2]);
}

#[test]
fn clone_combine_keeps_other() {
    let mut stack = stack_of(&[1]);
    let other = stack_of(&[2, 3]);
    stack.clone_combine(&other);
    assert_eq!(contents(&stack), vec![1, 2, 3]);
    assert_eq!(contents(&other), vec![2, 3]);
}

#[test]
fn clone_combine_all_appends_each_list() {
    let mut stack = stack_of(&[]);
    let others = [stack_of(&[1, 2]), stack_of(&[3])];
    stack.clone_combine_all(&others);
    assert_eq!(contents(&stack), vec![1, 2, 3]);
    assert_eq!(contents(&others[0]), vec![1, 2]);
}

#[test]
fn reverse_fill_sort_and_overflow_scenario() {
    let mut stack = Stack::default();
    for i in 0..10usize {
        assert_eq!(stack.insert_before(0, i), Ok(()));
    }
    let order: Vec<usize> = (0..stack.length()).map(|i| *stack.get(i).unwrap()).collect();
    assert_eq!(order, vec![9, 8, 7, 6, 5, 4, 3, 2, 1, 0]);
    stack.sort();
    let order: Vec<usize> = (0..stack.length()).map(|i| *stack.get(i).unwrap()).collect();
    assert_eq!(order, (0..10).collect::<Vec<usize>>());
    for pos in [0, 5, 10] {
        assert_eq!(stack.insert_before(pos, 10), Err(LinearListError::MemoryOverflow));
    }
}

#[test]
fn sort_with_ordering_values() {
    let mut stack = stack_of(&[2, 1]);
    stack.sort_by(|a, b| if a > b { Ordering::Greater } else { Ordering::Less });
    assert_eq!(contents(&stack), vec![1, 2]);
}
