use lockfree_stack::shared::claimed_seat;
use lockfree_stack::Action;
use lockfree_stack::Cell;
use lockfree_stack::Memory;
use lockfree_stack::Outcome;
use lockfree_stack::Participant;
use lockfree_stack::Phase;
use lockfree_stack::Reply;
use lockfree_stack::SharedCells;
use lockfree_stack::NIL;

#[test]
fn a_new_memory_is_empty() {
    let m = Memory::new(3, 2);
    assert_eq!(m.read(Cell::Head), NIL);
    assert_eq!(m.read(Cell::Fresh), 0);
    assert_eq!(m.read(Cell::Next(2)), NIL);
    assert_eq!(m.read(Cell::Value(0)), 0);
    assert_eq!(m.read(Cell::Hazard(1)), NIL);
}

#[test]
fn memory_performs_each_action_at_once() {
    let mut m = Memory::new(3, 2);
    assert_eq!(m.perform(Action::Store(Cell::Value(1), 77)), Reply::Stored);
    assert_eq!(m.perform(Action::Load(Cell::Value(1))), Reply::Word(77));
    assert_eq!(m.perform(Action::Cas(Cell::Head, 5, 1)), Reply::Swapped(false));
    assert_eq!(m.perform(Action::Load(Cell::Head)), Reply::Word(NIL));
    assert_eq!(m.perform(Action::Cas(Cell::Head, NIL, 1)), Reply::Swapped(true));
    assert_eq!(m.perform(Action::Load(Cell::Head)), Reply::Word(1));
    assert_eq!(m.perform(Action::Store(Cell::Hazard(0), 1)), Reply::Stored);
    assert_eq!(m.read(Cell::Hazard(0)), 1);
    assert_eq!(m.read(Cell::Hazard(1)), NIL);
    assert_eq!(Action::Cas(Cell::Next(2), 0, 1).target(), Cell::Next(2));
}

#[test]
fn there_is_no_participant_without_a_slot() {
    assert!(Participant::new(2, 8, 2).is_none());
    assert!(Participant::new(1, 8, 2).is_some());
    let cells = SharedCells::new(8, 2);
    assert_eq!(cells.register().map(|p| p.slot()), Some(0));
    assert_eq!(cells.register().map(|p| p.slot()), Some(1));
    assert!(cells.register().is_none());
    assert!(SharedCells::new(8, 0).register().is_none());
    assert_eq!((cells.node_count(), cells.slot_count()), (8, 2));
}

#[test]
fn a_participant_asks_and_takes_replies() {
    let mut p = Participant::new(0, 2, 1).unwrap();
    assert_eq!(p.action(), None);
    p.begin_push(9);
    assert_eq!(p.phase(), Phase::ClaimLoad { value: 9 });
    assert_eq!(p.action(), Some(Action::Load(Cell::Fresh)));
    p.advance(Reply::Word(0));
    assert_eq!(p.action(), Some(Action::Cas(Cell::Fresh, 0, 1)));
    p.advance(Reply::Swapped(false));
    assert_eq!(p.phase(), Phase::ClaimLoad { value: 9 });
    p.advance(Reply::Word(1));
    p.advance(Reply::Swapped(true));
    assert_eq!(p.action(), Some(Action::Store(Cell::Value(1), 9)));
    p.advance(Reply::Stored);
    assert_eq!(p.action(), Some(Action::Load(Cell::Head)));
    p.advance(Reply::Word(0));
    assert_eq!(p.action(), Some(Action::Store(Cell::Next(1), 0)));
    p.advance(Reply::Stored);
    assert_eq!(p.action(), Some(Action::Cas(Cell::Head, 0, 1)));
    p.advance(Reply::Swapped(true));
    assert_eq!(p.phase(), Phase::Done(Outcome::Pushed));
    assert_eq!(p.action(), None);
    p.advance(Reply::Stored);
    assert_eq!(p.finish(), Some(Outcome::Pushed));
    assert_eq!(p.finish(), None);
    assert_eq!(p.phase(), Phase::Idle);
}

#[test]
fn a_scan_releases_what_no_slot_names() {
    let mut p = Participant::new(1, 8, 3).unwrap();
    // First pop: node 4 comes off, and slot 2 names it.
    p.begin_pop();
    p.advance(Reply::Word(4));
    assert_eq!(p.action(), Some(Action::Store(Cell::Hazard(1), 4)));
    p.advance(Reply::Stored);
    p.advance(Reply::Word(4));
    assert_eq!(p.action(), Some(Action::Load(Cell::Next(4))));
    p.advance(Reply::Word(NIL));
    assert_eq!(p.action(), Some(Action::Cas(Cell::Head, 4, NIL)));
    p.advance(Reply::Swapped(true));
    assert_eq!(p.action(), Some(Action::Load(Cell::Value(4))));
    p.advance(Reply::Word(123));
    assert_eq!(p.action(), Some(Action::Store(Cell::Hazard(1), NIL)));
    p.advance(Reply::Stored);
    assert_eq!(p.retired_len(), 1);
    assert_eq!(p.action(), Some(Action::Load(Cell::Hazard(0))));
    p.advance(Reply::Word(NIL));
    assert_eq!(p.action(), Some(Action::Load(Cell::Hazard(1))));
    p.advance(Reply::Word(NIL));
    assert_eq!(p.action(), Some(Action::Load(Cell::Hazard(2))));
    p.advance(Reply::Word(4));
    assert_eq!(p.finish(), Some(Outcome::Popped(123)));
    assert_eq!((p.retired_len(), p.spare_len()), (1, 0));
    // Second pop: node 5 comes off, and no slot names anything.
    p.begin_pop();
    p.advance(Reply::Word(5));
    p.advance(Reply::Stored);
    p.advance(Reply::Word(5));
    p.advance(Reply::Word(NIL));
    p.advance(Reply::Swapped(true));
    p.advance(Reply::Word(456));
    p.advance(Reply::Stored);
    assert_eq!(p.retired_len(), 2);
    p.advance(Reply::Word(NIL));
    p.advance(Reply::Word(NIL));
    p.advance(Reply::Word(NIL));
    assert_eq!(p.finish(), Some(Outcome::Popped(456)));
    assert_eq!((p.retired_len(), p.spare_len()), (0, 2));
    // The next push links the node released last.
    p.begin_push(1);
    assert_eq!(p.phase(), Phase::Fill { node: 5, value: 1 });
}

#[test]
fn a_reply_of_the_wrong_kind_ends_the_operation_as_corrupt() {
    let mut p = Participant::new(0, 2, 1).unwrap();
    p.begin_pop();
    p.advance(Reply::Stored);
    assert_eq!(p.finish(), Some(Outcome::Corrupt));
    p.begin_pop();
    p.advance(Reply::Word(2));
    assert_eq!(p.finish(), Some(Outcome::Corrupt));
    p.begin_push(3);
    p.advance(Reply::Word(2));
    assert_eq!(p.finish(), Some(Outcome::Exhausted));
}

#[test]
fn shared_cells_answer_each_action() {
    let cells = SharedCells::new(2, 1);
    assert_eq!(cells.perform(Action::Load(Cell::Head)), Some(Reply::Word(NIL)));
    assert_eq!(cells.perform(Action::Load(Cell::Fresh)), Some(Reply::Word(0)));
    assert_eq!(cells.perform(Action::Store(Cell::Value(1), 8)), Some(Reply::Stored));
    assert_eq!(cells.perform(Action::Load(Cell::Value(1))), Some(Reply::Word(8)));
    assert_eq!(cells.perform(Action::Load(Cell::Value(0))), Some(Reply::Word(0)));
    assert_eq!(cells.perform(Action::Cas(Cell::Head, 0, 1)), Some(Reply::Swapped(false)));
    assert_eq!(cells.perform(Action::Cas(Cell::Head, NIL, 1)), Some(Reply::Swapped(true)));
    assert_eq!(cells.perform(Action::Load(Cell::Head)), Some(Reply::Word(1)));
    assert_eq!(cells.perform(Action::Load(Cell::Next(2))), None);
    assert_eq!(cells.perform(Action::Store(Cell::Value(2), 1)), None);
    assert_eq!(cells.perform(Action::Cas(Cell::Hazard(1), NIL, 0)), None);
    assert_eq!(cells.perform(Action::Load(Cell::Hazard(0))), Some(Reply::Word(NIL)));
}

#[test]
fn participants_on_shared_cells_push_and_pop() {
    let cells = SharedCells::new(4, 2);
    let mut a = cells.register().unwrap();
    let mut b = cells.register().unwrap();
    assert_eq!((a.slot(), a.nodes(), a.peers()), (0, 4, 2));
    assert_eq!((b.slot(), b.nodes(), b.peers()), (1, 4, 2));
    for v in [1u64, 2, 3] {
        a.begin_push(v);
        assert!(cells.run(&mut a, 100));
        assert_eq!(a.finish(), Some(Outcome::Pushed));
    }
    b.begin_pop();
    // Three steps are not enough for a pop; the rest of the budget is.
    assert!(!cells.run(&mut b, 3));
    assert_eq!(b.phase(), Phase::Follow { node: 2 });
    assert!(cells.run(&mut b, 100));
    assert_eq!(b.finish(), Some(Outcome::Popped(3)));
    a.begin_pop();
    assert_eq!(cells.step(&mut a), Some(Reply::Word(1)));
    assert!(cells.run(&mut a, 100));
    assert_eq!(a.finish(), Some(Outcome::Popped(2)));
    assert_eq!(cells.step(&mut a), None);
    assert!(b.begin_pop());
    assert!(!b.begin_push(4));
    assert!(!b.begin_pop());
    assert!(cells.run(&mut b, 100));
    assert_eq!(b.finish(), Some(Outcome::Popped(1)));
    a.begin_pop();
    assert!(cells.run(&mut a, 100));
    assert_eq!(a.finish(), Some(Outcome::Empty));
    // Four nodes: one unused, one spare with the first participant, two with
    // the second.
    assert_eq!((a.spare_len(), b.spare_len()), (1, 2));
    for v in [5u64, 6] {
        a.begin_push(v);
        assert!(cells.run(&mut a, 100));
        assert_eq!(a.finish(), Some(Outcome::Pushed));
    }
    a.begin_push(7);
    assert!(cells.run(&mut a, 100));
    assert_eq!(a.finish(), Some(Outcome::Exhausted));
    for v in [8u64, 9] {
        b.begin_push(v);
        assert!(cells.run(&mut b, 100));
        assert_eq!(b.finish(), Some(Outcome::Pushed));
    }
    b.begin_push(10);
    assert!(cells.run(&mut b, 100));
    assert_eq!(b.finish(), Some(Outcome::Exhausted));
    let mut popped: Vec<u64> = Vec::new();
    loop {
        a.begin_pop();
        assert!(cells.run(&mut a, 100));
        match a.finish() {
            Some(Outcome::Popped(v)) => popped.push(v),
            other => {
                assert_eq!(other, Some(Outcome::Empty));
                break;
            }
        }
    }
    assert_eq!(popped, vec![9, 8, 6, 5]);
}

#[test]
fn a_lost_swap_gives_no_seat() {
    assert!(claimed_seat(false, 0, 8, 2).is_none());
    assert!(claimed_seat(true, 2, 8, 2).is_none());
    let p = claimed_seat(true, 1, 8, 2).unwrap();
    assert_eq!((p.slot(), p.nodes(), p.peers()), (1, 8, 2));
    assert_eq!(p.phase(), Phase::Idle);
    assert_eq!((p.retired_len(), p.spare_len()), (0, 0));
}

#[test]
fn memory_is_enlarged_with_empty_nodes() {
    let mut m = Memory::new(1, 1);
    assert_eq!(m.node_count(), 1);
    assert_eq!(m.perform(Action::Store(Cell::Value(0), 5)), Reply::Stored);
    assert_eq!(m.perform(Action::Store(Cell::Next(0), 0)), Reply::Stored);
    assert!(m.enlarge(4));
    assert_eq!(m.node_count(), 4);
    assert_eq!(m.read(Cell::Value(0)), 5);
    assert_eq!(m.read(Cell::Next(0)), 0);
    for n in 1..4 {
        assert_eq!(m.read(Cell::Value(n)), 0);
        assert_eq!(m.read(Cell::Next(n)), NIL);
    }
    assert_eq!(m.read(Cell::Fresh), 0);
    assert_eq!(m.read(Cell::Hazard(0)), NIL);
    // A store that is as large already stays as it is.
    assert!(m.enlarge(2));
    assert_eq!(m.node_count(), 4);
}
