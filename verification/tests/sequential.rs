use lockfree_stack::stack::pop_result;
use lockfree_stack::stack::push_result;
use lockfree_stack::AllocationFailure;
use lockfree_stack::LockFreeStack;
use lockfree_stack::Outcome;

#[test]
fn push_three_pop_four() {
    let mut stack = LockFreeStack::new();
    assert_eq!(stack.push(1), Ok(()));
    assert_eq!(stack.push(2), Ok(()));
    assert_eq!(stack.push(3), Ok(()));
    assert_eq!(stack.pop(), Some(3));
    assert_eq!(stack.pop(), Some(2));
    assert_eq!(stack.pop(), Some(1));
    assert_eq!(stack.pop(), None);
}

#[test]
fn pop_on_empty_stays_empty() {
    let mut stack = LockFreeStack::new();
    for _ in 0..10 {
        assert_eq!(stack.pop(), None);
    }
    assert_eq!(stack.push(7), Ok(()));
    assert_eq!(stack.pop(), Some(7));
    for _ in 0..10 {
        assert_eq!(stack.pop(), None);
    }
}

#[test]
fn round_trip() {
    let mut stack = LockFreeStack::new();
    assert_eq!(stack.push(42), Ok(()));
    assert_eq!(stack.pop(), Some(42));
    assert_eq!(stack.pop(), None);
}

#[test]
fn the_store_grows_when_no_node_is_left() {
    let mut stack = LockFreeStack::with_capacity(2, 1);
    assert_eq!(stack.node_count(), 2);
    assert_eq!(stack.push(10), Ok(()));
    assert_eq!(stack.push(20), Ok(()));
    assert_eq!(stack.node_count(), 2);
    assert_eq!(stack.push(30), Ok(()));
    assert_eq!(stack.node_count(), 4);
    assert_eq!(stack.pop(), Some(30));
    assert_eq!(stack.push(40), Ok(()));
    assert_eq!(stack.node_count(), 4);
    assert_eq!(stack.drain(), vec![40, 20, 10]);
}

#[test]
fn a_stack_without_nodes_grows_from_none_to_one_and_doubles() {
    let mut stack = LockFreeStack::with_capacity(0, 0);
    assert_eq!(stack.peers(), 1);
    assert_eq!(stack.node_count(), 0);
    assert_eq!(stack.pop(), None);
    let mut rooms: Vec<usize> = Vec::new();
    for v in 0..9u64 {
        assert_eq!(stack.push(v), Ok(()));
        rooms.push(stack.node_count());
    }
    assert_eq!(rooms, vec![1, 2, 4, 4, 8, 8, 8, 8, 16]);
    assert_eq!(stack.drain(), vec![8, 7, 6, 5, 4, 3, 2, 1, 0]);
    assert_eq!(stack.node_count(), 16);
}

#[test]
fn enlarge_doubles_the_store_and_keeps_the_stack() {
    let mut stack = LockFreeStack::with_capacity(3, 2);
    assert_eq!(stack.push(1), Ok(()));
    assert_eq!(stack.push(2), Ok(()));
    assert!(stack.enlarge());
    assert_eq!(stack.node_count(), 6);
    assert!(stack.enlarge());
    assert_eq!(stack.node_count(), 12);
    assert_eq!(stack.participant(1).unwrap().nodes(), 12);
    assert_eq!(stack.push(3), Ok(()));
    assert_eq!(stack.drain(), vec![3, 2, 1]);
    assert_eq!(stack.node_count(), 12);
}

#[test]
fn outcomes_become_results() {
    use_outcomes();
}

#[test]
fn last_in_first_out_for_a_hundred() {
    let mut stack = LockFreeStack::new();
    for v in 0..100u64 {
        assert_eq!(stack.push(v * v), Ok(()));
    }
    for v in (0..100u64).rev() {
        assert_eq!(stack.pop(), Some(v * v));
    }
    assert_eq!(stack.pop(), None);
}

#[test]
fn a_new_stack_has_the_default_size_and_takes_more() {
    let mut stack = LockFreeStack::new();
    assert_eq!(stack.peers(), lockfree_stack::DEFAULT_PEERS);
    assert_eq!(stack.node_count(), lockfree_stack::DEFAULT_NODES);
    let count = 3 * lockfree_stack::DEFAULT_NODES as u64;
    for v in 0..count {
        assert_eq!(stack.push(v), Ok(()));
    }
    assert_eq!(stack.node_count(), 4 * lockfree_stack::DEFAULT_NODES);
    for v in (0..count).rev() {
        assert_eq!(stack.pop(), Some(v));
    }
    assert_eq!(stack.pop(), None);
}

#[test]
fn nodes_are_linked_again_after_they_came_off() {
    let mut stack = LockFreeStack::with_capacity(3, 1);
    for round in 0..50u64 {
        assert_eq!(stack.push(round), Ok(()));
        assert_eq!(stack.push(round + 1), Ok(()));
        assert_eq!(stack.push(round + 2), Ok(()));
        assert_eq!(stack.drain(), vec![round + 2, round + 1, round]);
        assert_eq!(stack.node_count(), 3);
    }
}

fn use_outcomes() {
    assert_eq!(push_result(Outcome::Pushed), Ok(()));
    assert_eq!(push_result(Outcome::Exhausted), Err(AllocationFailure));
    assert_eq!(push_result(Outcome::Corrupt), Err(AllocationFailure));
    assert_eq!(push_result(Outcome::Empty), Err(AllocationFailure));
    assert_eq!(pop_result(Outcome::Popped(7)), Some(7));
    assert_eq!(pop_result(Outcome::Empty), None);
    assert_eq!(pop_result(Outcome::Pushed), None);
    assert_eq!(pop_result(Outcome::Corrupt), None);
}
