use lockfree_stack::vector::next_room;
use lockfree_stack::AllocationFailure;
use lockfree_stack::UnsafeVector;

#[test]
fn two_pushes() {
    let mut vec = UnsafeVector::new();
    assert_eq!(vec.len(), 0);
    assert_eq!(vec.push(42), Ok::<(), AllocationFailure>(()));
    assert_eq!(vec.push(1337), Ok(()));
    assert_eq!(vec.len(), 2);
    assert_eq!(vec.get(0), Some(&42));
    assert_eq!(vec.get(1), Some(&1337));
    assert_eq!(vec.get(2), None);
}

#[test]
fn room_doubles_when_full() {
    let mut vec: UnsafeVector<String> = UnsafeVector::new();
    assert_eq!(vec.room(), 0);
    let mut rooms: Vec<usize> = Vec::new();
    for i in 0..9 {
        assert_eq!(vec.push(format!("item {}", i)), Ok(()));
        rooms.push(vec.room());
    }
    assert_eq!(rooms, vec![1, 2, 4, 4, 8, 8, 8, 8, 16]);
    assert_eq!(vec.get(8).map(|s| s.as_str()), Some("item 8"));
}

#[test]
fn the_next_room_is_one_or_twice_as_much() {
    assert_eq!(next_room(0), Some(1));
    assert_eq!(next_room(1), Some(2));
    assert_eq!(next_room(21), Some(42));
    assert_eq!(next_room(usize::MAX / 2), Some(usize::MAX - 1));
    assert_eq!(next_room(usize::MAX / 2 + 1), None);
    assert_eq!(next_room(usize::MAX), None);
}
