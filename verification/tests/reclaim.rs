use lockfree_stack::reclaim::holds;
use lockfree_stack::reclaim::release;
use lockfree_stack::NIL;

#[test]
fn holds_finds_a_word_in_a_list() {
    let list = vec![3u64, 1, 4, 1, 5];
    assert!(holds(&list, 4));
    assert!(holds(&list, 1));
    assert!(!holds(&list, 2));
    assert!(!holds(&Vec::new(), 0));
}

#[test]
fn release_parts_the_retired_nodes_in_their_order() {
    let retired = vec![7u64, 2, 9, 4, 0];
    let seen = vec![NIL, 9, 2, NIL];
    let mut spare = vec![5u64];
    let kept = release(&retired, &seen, &mut spare);
    assert_eq!(kept, vec![2, 9]);
    assert_eq!(spare, vec![5, 7, 4, 0]);
}

#[test]
fn release_without_a_named_node_keeps_nothing() {
    let retired = vec![1u64, 2, 3];
    let seen = vec![NIL, NIL];
    let mut spare: Vec<u64> = Vec::new();
    assert_eq!(release(&retired, &seen, &mut spare), Vec::<u64>::new());
    assert_eq!(spare, vec![1, 2, 3]);
    let mut again: Vec<u64> = vec![8];
    assert_eq!(release(&Vec::new(), &seen, &mut again), Vec::<u64>::new());
    assert_eq!(again, vec![8]);
}

#[test]
fn what_stays_retired_is_no_more_than_the_slots_read() {
    let retired: Vec<u64> = (0..50).collect();
    let seen = vec![10u64, 20, 20, NIL, 49];
    let mut spare: Vec<u64> = Vec::new();
    let kept = release(&retired, &seen, &mut spare);
    assert_eq!(kept, vec![10, 20, 49]);
    assert!(kept.len() <= seen.len());
    assert_eq!(kept.len() + spare.len(), retired.len());
}
