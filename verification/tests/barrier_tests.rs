use threadkit::barrier::CyclicBarrier;
use threadkit::relay::Tally;
use threadkit::rendezvous::{BarrierError, Departure, Rendezvous, Ticket};

fn arrive(state: &mut Rendezvous<u32>, value: u32) -> Option<Ticket<u32>> {
    let mut slot = Some(value);
    let mut ticket = None;
    if state.try_arrive(&mut slot, &mut ticket) {
        assert_eq!(slot, Some(value));
        assert!(ticket.is_none());
        None
    } else {
        assert_eq!(slot, None);
        ticket
    }
}

fn leave(state: &mut Rendezvous<u32>, generation: u64) -> Option<Departure<u32>> {
    let mut out = None;
    if state.try_leave(generation, &mut out) {
        assert!(out.is_none());
        None
    } else {
        out
    }
}

#[test]
fn no_participants_is_refused() {
    assert!(matches!(Rendezvous::<u32>::new(0), Err(BarrierError::InvalidConfiguration)));
    assert!(matches!(CyclicBarrier::new(0), Err(BarrierError::InvalidConfiguration)));
    assert!(matches!(
        threadkit::collect::CyclicBarrier::<u32>::new(0),
        Err(BarrierError::InvalidConfiguration)
    ));
    assert!(matches!(
        threadkit::relay::CyclicBarrier::new(0),
        Err(BarrierError::InvalidConfiguration)
    ));
}

#[test]
fn nobody_leaves_before_all_have_arrived() {
    let mut state = Rendezvous::<u32>::new(3).unwrap();
    assert_eq!(state.threshold(), 3);
    assert_eq!(state.generation(), 0);
    assert!(matches!(arrive(&mut state, 0), Some(Ticket::Waiting(0))));
    assert_eq!(state.waiting(), 1);
    assert!(leave(&mut state, 0).is_none());
    assert!(matches!(arrive(&mut state, 1), Some(Ticket::Waiting(0))));
    assert!(leave(&mut state, 0).is_none());
    assert!(!state.is_releasing());
    match arrive(&mut state, 2) {
        Some(Ticket::Released(values)) => assert_eq!(values, vec![0, 1, 2]),
        _ => panic!("the third arrival completes the generation"),
    }
    assert_eq!(state.generation(), 1);
    assert_eq!(state.waiting(), 0);
    assert!(state.is_releasing());
}

#[test]
fn every_participant_takes_all_three_values() {
    let mut state = Rendezvous::<u32>::new(3).unwrap();
    arrive(&mut state, 2);
    arrive(&mut state, 0);
    let last = arrive(&mut state, 1);
    let mut seen = match last {
        Some(Ticket::Released(values)) => values,
        _ => panic!("the third arrival completes the generation"),
    };
    let first = leave(&mut state, 0).unwrap();
    assert_eq!(first.values, seen);
    assert!(!first.reopened);
    let second = leave(&mut state, 0).unwrap();
    assert_eq!(second.values, seen);
    assert!(second.reopened);
    seen.sort();
    assert_eq!(seen, vec![0, 1, 2]);
}

#[test]
fn arrivals_wait_while_a_generation_is_leaving() {
    let mut state = Rendezvous::<u32>::new(2).unwrap();
    arrive(&mut state, 1);
    arrive(&mut state, 2);
    assert!(state.is_releasing());
    assert!(arrive(&mut state, 3).is_none());
    assert_eq!(state.waiting(), 0);
    assert!(leave(&mut state, 0).unwrap().reopened);
    assert!(matches!(arrive(&mut state, 3), Some(Ticket::Waiting(1))));
}

#[test]
fn the_barrier_serves_round_after_round() {
    let mut state = Rendezvous::<u32>::new(3).unwrap();
    for round in 0..5u64 {
        assert_eq!(state.generation(), round);
        for value in 0..2 {
            assert!(matches!(arrive(&mut state, value), Some(Ticket::Waiting(g)) if g == round));
        }
        assert!(matches!(arrive(&mut state, 2), Some(Ticket::Released(_))));
        assert!(leave(&mut state, round).is_some());
        assert!(leave(&mut state, round).unwrap().reopened);
        assert!(!state.is_releasing());
    }
    assert_eq!(state.generation(), 5);
}

#[test]
fn barriers_keep_the_number_they_were_made_for() {
    assert_eq!(CyclicBarrier::new(5).unwrap().size(), 5);
    assert_eq!(threadkit::collect::CyclicBarrier::<u32>::new(4).unwrap().threshold(), 4);
}

#[test]
fn a_barrier_for_one_lets_it_pass() {
    let barrier = CyclicBarrier::new(1).unwrap();
    for _ in 0..3 {
        assert_eq!(barrier.wait(), Ok(()));
    }
    let collecting = threadkit::collect::CyclicBarrier::<u32>::new(1).unwrap();
    assert_eq!(collecting.wait(7), Ok(vec![7]));
    assert_eq!(collecting.wait(8), Ok(vec![8]));
}

#[test]
fn values_are_handed_on_only_in_full_number() {
    let barrier = threadkit::collect::CyclicBarrier::<u32>::new(2).unwrap();
    assert_eq!(barrier.complete(vec![1, 2]), Ok(vec![1, 2]));
    assert_eq!(barrier.complete(vec![1]), Err(BarrierError::BrokenBarrier));
    assert_eq!(barrier.complete(vec![]), Err(BarrierError::BrokenBarrier));
}

#[test]
fn a_relay_for_one_lets_it_pass() {
    let barrier = threadkit::relay::CyclicBarrier::new(1).unwrap();
    let waiter = barrier.get_waiter(0);
    let again = waiter.clone();
    assert_eq!(waiter.wait(), Ok(()));
    assert_eq!(again.wait(), Ok(()));
}

#[test]
fn a_relay_hands_out_a_waiter_for_each_participant() {
    let barrier = threadkit::relay::CyclicBarrier::new(3).unwrap();
    let _first = barrier.get_waiter(0);
    let _second = barrier.get_waiter(1);
    let _third = barrier.get_waiter(2);
}

#[test]
fn messages_of_the_next_round_do_not_count_for_this_one() {
    let mut tally = Tally::new(2);
    assert_eq!(tally.round(), 0);
    assert!(!tally.complete());
    assert!(tally.note(0));
    assert!(tally.note(1));
    assert!(tally.note(1));
    assert!(!tally.complete());
    assert!(!tally.note(1));
    assert!(!tally.note(7));
    assert!(tally.note(0));
    assert!(tally.complete());
    assert!(!tally.note(0));
    tally.advance();
    assert_eq!(tally.round(), 1);
    assert!(tally.complete());
    tally.advance();
    assert_eq!(tally.round(), 2);
    assert!(!tally.complete());
}

#[test]
fn a_participant_without_peers_is_complete_at_once() {
    let mut tally = Tally::new(0);
    assert!(tally.complete());
    assert!(!tally.note(0));
    tally.advance();
    assert!(tally.complete());
}
