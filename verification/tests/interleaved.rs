use lockfree_stack::Event;
use lockfree_stack::LockFreeStack;
use lockfree_stack::Op;
use lockfree_stack::Outcome;
use lockfree_stack::Phase;
use lockfree_stack::Turn;

fn run_to_end(stack: &mut LockFreeStack, t: usize) -> Outcome {
    while stack.busy(t) {
        stack.step(t);
    }
    stack.finish(t).unwrap()
}

fn replay(events: &[Event]) -> Option<Vec<u64>> {
    let mut content: Vec<u64> = Vec::new();
    for e in events {
        match e.op {
            Op::Push(v) => content.push(v),
            Op::Pop(v) => {
                if content.pop() != Some(v) {
                    return None;
                }
            }
            Op::PopEmpty => {
                if !content.is_empty() {
                    return None;
                }
            }
        }
    }
    Some(content)
}

#[test]
fn four_participants_push_their_own_number() {
    let mut stack = LockFreeStack::with_capacity(16, 4);
    for t in 0..4 {
        assert!(stack.begin_push(t, t as u64));
    }
    // Round robin: every participant takes one step in turn until all are done.
    let mut left = 4;
    while left > 0 {
        left = 0;
        for t in 0..4 {
            if stack.busy(t) {
                stack.step(t);
                left += 1;
            }
        }
    }
    for t in 0..4 {
        assert_eq!(stack.finish(t), Some(Outcome::Pushed));
    }
    let mut popped: Vec<u64> = Vec::new();
    for _ in 0..4 {
        popped.push(stack.pop().unwrap());
    }
    assert_eq!(stack.pop(), None);
    popped.sort();
    assert_eq!(popped, vec![0, 1, 2, 3]);
}

#[test]
fn a_stale_head_makes_the_swap_fail_and_the_push_try_again() {
    let mut stack = LockFreeStack::with_capacity(8, 2);
    assert!(stack.begin_push(1, 7));
    // Participant 1 claims a node, fills it, reads the head and links.
    while !matches!(stack.phase(1), Some(Phase::PushCas { .. })) {
        assert_eq!(stack.step(1), None);
    }
    // Participant 0 gets a whole push in before the swap.
    assert_eq!(stack.push(5), Ok(()));
    // The swap finds the head changed: no effect, back to reading the head.
    assert_eq!(stack.step(1), None);
    assert!(matches!(stack.phase(1), Some(Phase::PushRead { value: 7, .. })));
    let mut events: Vec<Event> = Vec::new();
    while stack.busy(1) {
        if let Some(e) = stack.step(1) {
            events.push(e);
        }
    }
    assert_eq!(events, vec![Event { who: 1, op: Op::Push(7) }]);
    assert_eq!(stack.finish(1), Some(Outcome::Pushed));
    assert_eq!(stack.drain(), vec![7, 5]);
}

#[test]
fn an_announced_node_is_not_released() {
    let mut stack = LockFreeStack::with_capacity(4, 2);
    assert_eq!(stack.push(10), Ok(()));
    assert_eq!(stack.push(20), Ok(()));
    // Participant 1 announces the top node and sees it still on top.
    assert!(stack.begin_pop(1));
    while !matches!(stack.phase(1), Some(Phase::Follow { .. })) {
        stack.step(1);
    }
    assert_eq!(stack.phase(1), Some(Phase::Follow { node: 1 }));
    // Participant 0 pops that node. Its scan finds the node named: not released.
    assert_eq!(stack.pop(), Some(20));
    assert_eq!(stack.participant(0).unwrap().retired_len(), 1);
    assert_eq!(stack.participant(0).unwrap().spare_len(), 0);
    // Participant 1 reads through the node, loses the swap, starts over, pops 10.
    assert_eq!(stack.step(1), None);
    assert_eq!(stack.phase(1), Some(Phase::PopCas { node: 1, next: 0 }));
    assert_eq!(stack.step(1), None);
    assert_eq!(stack.phase(1), Some(Phase::Withdraw));
    assert_eq!(run_to_end(&mut stack, 1), Outcome::Popped(10));
    assert_eq!(stack.participant(1).unwrap().retired_len(), 0);
    assert_eq!(stack.participant(1).unwrap().spare_len(), 1);
    // An empty pop scans nothing: the node of participant 0 is still retired.
    assert_eq!(stack.pop(), None);
    assert_eq!(stack.participant(0).unwrap().retired_len(), 1);
    // Its next pop scans, finds no slot naming either node, and releases both.
    assert_eq!(stack.push(30), Ok(()));
    assert_eq!(stack.pop(), Some(30));
    assert_eq!(stack.participant(0).unwrap().retired_len(), 0);
    assert_eq!(stack.participant(0).unwrap().spare_len(), 2);
}

#[test]
fn a_node_linked_again_before_the_announcement_is_popped_as_the_new_top() {
    let mut stack = LockFreeStack::with_capacity(4, 2);
    assert_eq!(stack.push(1), Ok(()));
    // Participant 1 reads the head, but has not announced the node yet.
    assert!(stack.begin_pop(1));
    stack.step(1);
    assert_eq!(stack.phase(1), Some(Phase::Announce { node: 0 }));
    // Participant 0 pops the node, releases it, and links it again with 99.
    assert_eq!(stack.pop(), Some(1));
    assert_eq!(stack.participant(0).unwrap().spare_len(), 1);
    assert_eq!(stack.push(99), Ok(()));
    // The announced node is on top again: participant 1 pops what it holds now.
    assert_eq!(run_to_end(&mut stack, 1), Outcome::Popped(99));
    assert_eq!(stack.pop(), None);
}

#[test]
fn pushes_and_pops_in_a_skewed_schedule_lose_and_invent_nothing() {
    let peers = 3;
    let per_peer = 5u64;
    let mut stack = LockFreeStack::with_capacity(32, peers);
    let mut events: Vec<Event> = Vec::new();
    let mut next = vec![0u64; peers];
    let mut done = 0;
    let mut tick = 0usize;
    // Participant t takes a step whenever the tick is a multiple of t + 1.
    while done < peers {
        tick += 1;
        for t in 0..peers {
            if tick % (t + 1) != 0 || next[t] > per_peer {
                continue;
            }
            if stack.busy(t) {
                if let Some(e) = stack.step(t) {
                    events.push(e);
                }
            } else if stack.finish(t).is_some() || next[t] == 0 {
                if next[t] < per_peer {
                    assert!(stack.begin_push(t, 100 * t as u64 + next[t]));
                } else {
                    done += 1;
                }
                next[t] += 1;
            }
        }
    }
    let mut pushed: Vec<u64> = events
        .iter()
        .map(|e| match e.op {
            Op::Push(v) => v,
            _ => panic!("only pushes were started"),
        })
        .collect();
    let content = replay(&events).unwrap();
    let mut popped = stack.drain();
    let mut reversed = content.clone();
    reversed.reverse();
    assert_eq!(popped, reversed);
    pushed.sort();
    popped.sort();
    assert_eq!(pushed, popped);
    let mut expected: Vec<u64> = Vec::new();
    for t in 0..peers as u64 {
        for k in 0..per_peer {
            expected.push(100 * t + k);
        }
    }
    assert_eq!(popped, expected);
}

#[test]
fn a_schedule_of_turns_hands_back_what_took_effect() {
    let mut stack = LockFreeStack::with_capacity(4, 2);
    let mut turns = vec![Turn::BeginPush(0, 11), Turn::BeginPush(1, 22)];
    for _ in 0..8 {
        turns.push(Turn::Step(1));
        turns.push(Turn::Step(0));
    }
    turns.push(Turn::Finish(0));
    turns.push(Turn::Finish(1));
    turns.push(Turn::BeginPop(1));
    for _ in 0..12 {
        turns.push(Turn::Step(1));
    }
    let events = stack.play(&turns);
    assert_eq!(
        events,
        vec![
            Event { who: 1, op: Op::Push(22) },
            Event { who: 0, op: Op::Push(11) },
            Event { who: 1, op: Op::Pop(11) },
        ]
    );
    assert_eq!(stack.finish(1), Some(Outcome::Popped(11)));
    assert_eq!(stack.drain(), vec![22]);
}

#[test]
fn turns_that_do_not_apply_change_nothing() {
    let mut stack = LockFreeStack::with_capacity(2, 1);
    assert_eq!(stack.turn(Turn::Step(0)), None);
    assert_eq!(stack.turn(Turn::Step(5)), None);
    assert_eq!(stack.turn(Turn::Finish(0)), None);
    assert!(!stack.begin_push(1, 3));
    assert!(!stack.begin_pop(7));
    assert!(stack.begin_pop(0));
    assert!(!stack.begin_push(0, 3));
    assert_eq!(stack.turn(Turn::BeginPush(0, 3)), None);
    assert_eq!(stack.phase(0), Some(Phase::PopRead));
    assert_eq!(stack.phase(1), None);
    assert_eq!(stack.finish(0), None);
    assert_eq!(stack.step(0), Some(Event { who: 0, op: Op::PopEmpty }));
    assert_eq!(stack.finish(0), Some(Outcome::Empty));
    assert_eq!(stack.phase(0), Some(Phase::Idle));
}

#[test]
fn a_participant_out_of_nodes_ends_exhausted() {
    let mut stack = LockFreeStack::with_capacity(1, 2);
    assert!(stack.begin_push(0, 1));
    assert!(stack.begin_push(1, 2));
    assert_eq!(run_to_end(&mut stack, 1), Outcome::Pushed);
    assert_eq!(run_to_end(&mut stack, 0), Outcome::Exhausted);
    // The owner enlarges the store, and the participant tries again.
    assert!(stack.enlarge());
    assert!(stack.begin_push(0, 1));
    assert_eq!(run_to_end(&mut stack, 0), Outcome::Pushed);
    assert_eq!(stack.drain(), vec![1, 2]);
}

#[test]
fn the_store_is_enlarged_under_operations_on_their_way() {
    let mut stack = LockFreeStack::with_capacity(1, 3);
    assert_eq!(stack.push(5), Ok(()));
    // Participant 1 protects the only node; participant 2 waits to claim one.
    assert!(stack.begin_pop(1));
    while !matches!(stack.phase(1), Some(Phase::PopCas { .. })) {
        stack.step(1);
    }
    assert!(stack.begin_push(2, 6));
    assert_eq!(stack.phase(2), Some(Phase::ClaimLoad { value: 6 }));
    // Participant 0 finds no node and has the store enlarged.
    assert_eq!(stack.push(7), Ok(()));
    assert_eq!(stack.node_count(), 2);
    assert_eq!(stack.phase(1), Some(Phase::PopCas { node: 0, next: lockfree_stack::NIL }));
    // The pop lost its swap to the push and starts over; the other push finds
    // the store full again and ends exhausted.
    assert_eq!(run_to_end(&mut stack, 2), Outcome::Exhausted);
    assert_eq!(run_to_end(&mut stack, 1), Outcome::Popped(7));
    assert_eq!(stack.drain(), vec![5]);
}

#[test]
fn a_long_mixed_schedule_gives_a_history_that_one_stack_can_go_through() {
    let peers = 4usize;
    let mut stack = LockFreeStack::with_capacity(6, peers);
    let mut events: Vec<Event> = Vec::new();
    let mut returned: Vec<Vec<Outcome>> = vec![Vec::new(); peers];
    let mut since_effect = 0usize;
    let mut longest_wait = 0usize;
    let mut state: u64 = 0x2545_f491_4f6c_dd1d;
    let mut tag: u64 = 0;
    for _ in 0..20_000 {
        state = state.wrapping_mul(6364136223846793005).wrapping_add(1442695040888963407);
        let t = ((state >> 33) % peers as u64) as usize;
        if stack.busy(t) {
            let fresh_before = stack.participant(t).unwrap().phase();
            match stack.step(t) {
                Some(e) => {
                    assert_eq!(e.who, t as u64);
                    events.push(e);
                    since_effect = 0;
                }
                None => {
                    let claimed = matches!(fresh_before, Phase::ClaimCas { .. })
                        && matches!(stack.phase(t), Some(Phase::Fill { .. }));
                    since_effect = if claimed { 0 } else { since_effect + 1 };
                }
            }
            longest_wait = longest_wait.max(since_effect);
        } else {
            if let Some(o) = stack.finish(t) {
                returned[t].push(o);
            }
            if (state >> 13) % 2 == 0 {
                tag += 1;
                assert!(stack.begin_push(t, tag));
            } else {
                assert!(stack.begin_pop(t));
            }
        }
        let p = stack.participant(t).unwrap();
        assert!(p.retired_len() <= peers + 1);
    }
    for t in 0..peers {
        while stack.busy(t) {
            if let Some(e) = stack.step(t) {
                events.push(e);
            }
        }
        if let Some(o) = stack.finish(t) {
            returned[t].push(o);
        }
    }
    // No stretch of steps without a successful swap is longer than the bound.
    assert!(longest_wait <= peers * (peers + 10));
    // The events form a history of one stack, and leave what the stack holds.
    let content = replay(&events).unwrap();
    let mut reversed = content.clone();
    reversed.reverse();
    // What each participant was handed is what its events say, in their order.
    for t in 0..peers {
        let mine: Vec<Outcome> = events
            .iter()
            .filter(|e| e.who == t as u64)
            .map(|e| match e.op {
                Op::Push(_) => Outcome::Pushed,
                Op::Pop(v) => Outcome::Popped(v),
                Op::PopEmpty => Outcome::Empty,
            })
            .collect();
        let handed: Vec<Outcome> =
            returned[t].iter().copied().filter(|o| *o != Outcome::Exhausted).collect();
        assert_eq!(mine, handed);
    }
    // Pushed is popped together with what is left, each payload once.
    let mut pushed: Vec<u64> = Vec::new();
    let mut popped: Vec<u64> = Vec::new();
    for e in &events {
        match e.op {
            Op::Push(v) => pushed.push(v),
            Op::Pop(v) => popped.push(v),
            Op::PopEmpty => {}
        }
    }
    assert!(pushed.len() > 100 && popped.len() > 100);
    assert_eq!(stack.drain(), reversed);
    popped.extend(content);
    pushed.sort();
    popped.sort();
    assert_eq!(pushed, popped);
    pushed.dedup();
    assert_eq!(pushed.len(), popped.len());
}
