use uring_read::{Action, Completion, Event, IoError, ReadComplection, Ring, Slot, Stage, Submission};

fn completion(user_data: u64, result: i32) -> Completion {
    Completion { user_data, result }
}

/// Takes an operation to flight and returns its token.
fn submit(op: &mut ReadComplection, ring: &mut Ring) -> u64 {
    let token = match op.poll(ring, Event::Polled) {
        Action::Push(s) => s.user_data,
        other => panic!("{:?}", other),
    };
    assert_eq!(op.poll(ring, Event::Pushed(true)), Action::Drain);
    assert_eq!(op.stage(), Stage::Submitted(token));
    token
}

#[test]
fn a_new_ring_has_every_slot_free() {
    let ring = Ring::new(3);
    assert_eq!(ring.entries(), 3);
    for token in 0..5 {
        assert_eq!(ring.slot(token), Slot::Free);
    }
    assert_eq!(ring.slot(u64::MAX), Slot::Free);
    assert_eq!(Ring::new(0).entries(), 0);
}

#[test]
fn asking_for_a_read_does_nothing_yet() {
    let ring = Ring::new(2);
    let mut buf = vec![7u8; 3];
    let op = ring.read_at(5, &mut buf, 11);
    assert_eq!(op.stage(), Stage::Unsubmitted);
    let request = op.request();
    assert_eq!((request.fd, request.len, request.offset), (5, 3, 11));
    assert_eq!(request.addr, buf.as_ptr() as usize);
    assert_eq!(buf, vec![7u8; 3]);
    assert_eq!(ring.slot(0), Slot::Free);
    assert_eq!(ring.slot(1), Slot::Free);
}

#[test]
fn a_read_runs_from_push_to_result() {
    let mut ring = Ring::new(2);
    let mut buf = vec![0u8; 3];
    let mut op = ring.read_at(5, &mut buf, 11);
    assert_eq!(
        op.poll(&mut ring, Event::Polled),
        Action::Push(Submission { fd: 5, addr: buf.as_ptr() as usize, len: 3, offset: 11, user_data: 0 })
    );
    assert_eq!(op.stage(), Stage::Queued(0));
    assert_eq!(ring.slot(0), Slot::Waiting);
    assert_eq!(op.poll(&mut ring, Event::Pushed(true)), Action::Drain);
    assert_eq!(op.stage(), Stage::Submitted(0));
    assert_eq!(op.poll(&mut ring, Event::Drained(Ok(vec![]))), Action::Wake);
    assert_eq!(op.stage(), Stage::Submitted(0));
    assert_eq!(op.poll(&mut ring, Event::Polled), Action::Drain);
    assert_eq!(
        op.poll(&mut ring, Event::Drained(Ok(vec![completion(0, 3)]))),
        Action::Resolve(Ok(3))
    );
    assert_eq!(op.stage(), Stage::Resolved);
    assert_eq!(ring.slot(0), Slot::Free);
    assert_eq!(op.request().len, 3);
}

#[test]
fn a_refused_push_is_offered_again_unchanged() {
    let mut ring = Ring::new(1);
    let mut buf = [0u8; 4];
    let mut op = ring.read_at(3, &mut buf, 8);
    let first = op.poll(&mut ring, Event::Polled);
    assert_eq!(
        first,
        Action::Push(Submission { fd: 3, addr: buf.as_ptr() as usize, len: 4, offset: 8, user_data: 0 })
    );
    for _ in 0..3 {
        assert_eq!(op.poll(&mut ring, Event::Pushed(false)), Action::Wake);
        assert_eq!(op.stage(), Stage::Queued(0));
        assert_eq!(ring.slot(0), Slot::Waiting);
        assert_eq!(op.poll(&mut ring, Event::Polled), first);
    }
    assert_eq!(op.poll(&mut ring, Event::Pushed(true)), Action::Drain);
    assert_eq!(op.poll(&mut ring, Event::Polled), Action::Drain);
    assert_eq!(op.poll(&mut ring, Event::Pushed(true)), Action::Wake);
    assert_eq!(op.stage(), Stage::Submitted(0));
}

#[test]
fn a_full_table_delays_the_next_read() {
    let mut ring = Ring::new(2);
    let mut a = [0u8; 1];
    let mut b = [0u8; 1];
    let mut c = [0u8; 1];
    let mut first = ring.read_at(3, &mut a, 0);
    let mut second = ring.read_at(3, &mut b, 1);
    let mut third = ring.read_at(3, &mut c, 2);
    assert_eq!(submit(&mut first, &mut ring), 0);
    assert_eq!(submit(&mut second, &mut ring), 1);
    for _ in 0..3 {
        assert_eq!(third.poll(&mut ring, Event::Polled), Action::Wake);
        assert_eq!(third.stage(), Stage::Unsubmitted);
    }
    assert_eq!(ring.slot(0), Slot::Waiting);
    assert_eq!(ring.slot(1), Slot::Waiting);
    assert_eq!(
        second.poll(&mut ring, Event::Drained(Ok(vec![completion(1, 1)]))),
        Action::Resolve(Ok(1))
    );
    assert_eq!(
        third.poll(&mut ring, Event::Polled),
        Action::Push(Submission { fd: 3, addr: c.as_ptr() as usize, len: 1, offset: 2, user_data: 1 })
    );
}

#[test]
fn a_ring_of_no_entries_takes_no_read() {
    let mut ring = Ring::new(0);
    let mut buf = [0u8; 1];
    let mut op = ring.read_at(3, &mut buf, 0);
    assert_eq!(op.poll(&mut ring, Event::Polled), Action::Wake);
    assert_eq!(op.stage(), Stage::Unsubmitted);
}

#[test]
fn the_first_free_slot_is_taken() {
    let mut ring = Ring::new(3);
    let mut bufs = [[0u8; 1]; 4];
    let mut ops: Vec<ReadComplection> = Vec::new();
    for (i, buf) in bufs.iter_mut().enumerate() {
        ops.push(ring.read_at(3, buf, i as u64));
    }
    assert_eq!(submit(&mut ops[0], &mut ring), 0);
    assert_eq!(submit(&mut ops[1], &mut ring), 1);
    assert_eq!(submit(&mut ops[2], &mut ring), 2);
    assert_eq!(
        ops[1].poll(&mut ring, Event::Drained(Ok(vec![completion(1, 1), completion(0, 1)]))),
        Action::Resolve(Ok(1))
    );
    assert_eq!(ring.slot(0), Slot::Done(1));
    assert_eq!(ring.slot(1), Slot::Free);
    assert_eq!(submit(&mut ops[3], &mut ring), 1);
}

#[test]
fn an_error_completion_ends_the_read_with_that_error() {
    let mut ring = Ring::new(1);
    let mut buf = [0u8; 8];
    let mut op = ring.read_at(-1, &mut buf, 0);
    let token = submit(&mut op, &mut ring);
    assert_eq!(
        op.poll(&mut ring, Event::Drained(Ok(vec![completion(token, -9)]))),
        Action::Resolve(Err(IoError { code: 9 }))
    );
    assert_eq!(op.stage(), Stage::Resolved);
    assert_eq!(ring.slot(token), Slot::Free);
}

#[test]
fn an_empty_read_ends_with_zero_bytes() {
    let mut ring = Ring::new(1);
    let mut buf: Vec<u8> = Vec::new();
    let mut op = ring.read_at(3, &mut buf, 0);
    match op.poll(&mut ring, Event::Polled) {
        Action::Push(s) => assert_eq!(s.len, 0),
        other => panic!("{:?}", other),
    }
    assert_eq!(op.poll(&mut ring, Event::Pushed(true)), Action::Drain);
    assert_eq!(
        op.poll(&mut ring, Event::Drained(Ok(vec![completion(0, 0)]))),
        Action::Resolve(Ok(0))
    );
}

#[test]
fn a_failed_flush_is_the_result_and_changes_nothing() {
    let mut ring = Ring::new(2);
    let mut buf = [0u8; 2];
    let mut op = ring.read_at(3, &mut buf, 0);
    let token = submit(&mut op, &mut ring);
    assert_eq!(
        op.poll(&mut ring, Event::Drained(Err(IoError { code: 4 }))),
        Action::Resolve(Err(IoError { code: 4 }))
    );
    assert_eq!(op.stage(), Stage::Submitted(token));
    assert_eq!(ring.slot(token), Slot::Waiting);
    let mut idle = ring.read_at(3, &mut buf, 0);
    assert_eq!(
        idle.poll(&mut ring, Event::Drained(Err(IoError { code: 11 }))),
        Action::Resolve(Err(IoError { code: 11 }))
    );
    assert_eq!(idle.stage(), Stage::Unsubmitted);
}

#[test]
fn a_failed_flush_is_handed_on_by_the_ring() {
    let mut ring = Ring::new(2);
    let mut buf = [0u8; 2];
    let mut op = ring.read_at(3, &mut buf, 0);
    let token = submit(&mut op, &mut ring);
    assert_eq!(ring.submit(Err(IoError { code: 16 })), Err(IoError { code: 16 }));
    assert_eq!(ring.slot(token), Slot::Waiting);
    assert_eq!(ring.submit(Ok(vec![])), Ok(()));
    assert_eq!(ring.slot(token), Slot::Waiting);
    assert_eq!(ring.submit(Ok(vec![completion(token, 2)])), Ok(()));
    assert_eq!(ring.slot(token), Slot::Done(2));
}

#[test]
fn the_last_completion_for_a_slot_stays() {
    let mut ring = Ring::new(2);
    let mut buf = [0u8; 2];
    let mut op = ring.read_at(3, &mut buf, 0);
    let token = submit(&mut op, &mut ring);
    let events = vec![completion(token, 1), completion(1, 5), completion(token, -5), completion(token, 2)];
    assert_eq!(ring.submit(Ok(events)), Ok(()));
    assert_eq!(ring.slot(token), Slot::Done(2));
    assert_eq!(ring.slot(1), Slot::Free);
    assert_eq!(op.poll(&mut ring, Event::Drained(Ok(vec![]))), Action::Resolve(Ok(2)));
}

#[test]
fn a_completion_for_no_slot_changes_nothing() {
    let mut ring = Ring::new(2);
    let mut buf = [0u8; 2];
    let mut op = ring.read_at(3, &mut buf, 0);
    let token = submit(&mut op, &mut ring);
    let stray = vec![completion(1, 4), completion(2, 4), completion(u64::MAX, 4)];
    assert_eq!(op.poll(&mut ring, Event::Drained(Ok(stray))), Action::Wake);
    assert_eq!(ring.slot(token), Slot::Waiting);
    assert_eq!(ring.slot(1), Slot::Free);
    assert_eq!(ring.slot(2), Slot::Free);
}

#[test]
fn a_result_that_another_drain_found_is_read_at_the_next_one() {
    let mut ring = Ring::new(2);
    let mut a = [0u8; 4];
    let mut b = [0u8; 4];
    let mut first = ring.read_at(3, &mut a, 0);
    let mut second = ring.read_at(3, &mut b, 4);
    let one = submit(&mut first, &mut ring);
    let two = submit(&mut second, &mut ring);
    let both = vec![completion(two, 2), completion(one, 4)];
    assert_eq!(first.poll(&mut ring, Event::Drained(Ok(both))), Action::Resolve(Ok(4)));
    assert_eq!(ring.slot(two), Slot::Done(2));
    assert_eq!(second.stage(), Stage::Submitted(two));
    assert_eq!(second.poll(&mut ring, Event::Polled), Action::Drain);
    assert_eq!(second.poll(&mut ring, Event::Drained(Ok(vec![]))), Action::Resolve(Ok(2)));
}

#[test]
fn an_operation_that_has_ended_only_asks_to_be_polled() {
    let mut ring = Ring::new(1);
    let mut buf = [0u8; 2];
    let mut op = ring.read_at(3, &mut buf, 0);
    let token = submit(&mut op, &mut ring);
    assert_eq!(
        op.poll(&mut ring, Event::Drained(Ok(vec![completion(token, 2)]))),
        Action::Resolve(Ok(2))
    );
    assert_eq!(op.poll(&mut ring, Event::Polled), Action::Wake);
    assert_eq!(op.poll(&mut ring, Event::Pushed(true)), Action::Wake);
    assert_eq!(op.poll(&mut ring, Event::Drained(Ok(vec![completion(token, 2)]))), Action::Wake);
    assert_eq!(op.stage(), Stage::Resolved);
    assert_eq!(ring.slot(token), Slot::Free);
}

#[test]
fn an_answer_that_nobody_waits_for_moves_nothing() {
    let mut ring = Ring::new(1);
    let mut buf = [0u8; 2];
    let mut op = ring.read_at(3, &mut buf, 0);
    assert_eq!(op.poll(&mut ring, Event::Pushed(true)), Action::Wake);
    assert_eq!(op.stage(), Stage::Unsubmitted);
    assert_eq!(op.poll(&mut ring, Event::Drained(Ok(vec![completion(0, 1)]))), Action::Wake);
    assert_eq!(op.stage(), Stage::Unsubmitted);
    assert_eq!(ring.slot(0), Slot::Free);
}

#[test]
fn a_drain_in_any_stage_delivers_to_the_others() {
    let mut ring = Ring::new(2);
    let mut a = [0u8; 4];
    let mut b = [0u8; 4];
    let mut first = ring.read_at(3, &mut a, 0);
    let mut waiting = ring.read_at(3, &mut b, 4);
    let one = submit(&mut first, &mut ring);
    assert_eq!(waiting.poll(&mut ring, Event::Drained(Ok(vec![completion(one, 4)]))), Action::Wake);
    assert_eq!(ring.slot(one), Slot::Done(4));
    assert_eq!(first.poll(&mut ring, Event::Drained(Ok(vec![]))), Action::Resolve(Ok(4)));
}

#[test]
fn dropping_before_the_start_takes_nothing() {
    let mut ring = Ring::new(1);
    let mut buf = [0u8; 2];
    let mut op = ring.read_at(3, &mut buf, 0);
    assert_eq!(op.abandon(&mut ring), None);
    assert_eq!(op.stage(), Stage::Resolved);
    assert_eq!(ring.slot(0), Slot::Free);
}

#[test]
fn dropping_before_acceptance_frees_the_slot() {
    let mut ring = Ring::new(1);
    let mut buf = [0u8; 2];
    let mut op = ring.read_at(3, &mut buf, 0);
    assert!(matches!(op.poll(&mut ring, Event::Polled), Action::Push(_)));
    assert_eq!(op.poll(&mut ring, Event::Pushed(false)), Action::Wake);
    assert_eq!(op.abandon(&mut ring), None);
    assert_eq!(op.stage(), Stage::Resolved);
    assert_eq!(ring.slot(0), Slot::Free);
}

#[test]
fn dropping_in_flight_keeps_the_slot_until_the_completion() {
    let mut ring = Ring::new(1);
    let mut buf = [0u8; 2];
    let mut gone = ring.read_at(3, &mut buf, 0);
    let token = submit(&mut gone, &mut ring);
    assert_eq!(gone.abandon(&mut ring), Some(token));
    assert_eq!(gone.stage(), Stage::Resolved);
    assert_eq!(ring.slot(token), Slot::Orphaned);

    let mut next_buf = [0u8; 2];
    let mut next = ring.read_at(3, &mut next_buf, 0);
    assert_eq!(next.poll(&mut ring, Event::Polled), Action::Wake);
    assert_eq!(next.poll(&mut ring, Event::Drained(Ok(vec![completion(token, 2)]))), Action::Wake);
    assert_eq!(ring.slot(token), Slot::Free);
    assert_eq!(submit(&mut next, &mut ring), token);
    assert_eq!(ring.slot(token), Slot::Waiting);
}

#[test]
fn dropping_with_the_result_waiting_frees_the_slot() {
    let mut ring = Ring::new(1);
    let mut buf = [0u8; 2];
    let mut op = ring.read_at(3, &mut buf, 0);
    let token = submit(&mut op, &mut ring);
    assert_eq!(ring.submit(Ok(vec![completion(token, 2)])), Ok(()));
    assert_eq!(op.abandon(&mut ring), None);
    assert_eq!(ring.slot(token), Slot::Free);
}

#[test]
fn dropping_after_the_end_changes_nothing() {
    let mut ring = Ring::new(2);
    let mut a = [0u8; 2];
    let mut b = [0u8; 2];
    let mut done = ring.read_at(3, &mut a, 0);
    let token = submit(&mut done, &mut ring);
    assert_eq!(
        done.poll(&mut ring, Event::Drained(Ok(vec![completion(token, 2)]))),
        Action::Resolve(Ok(2))
    );
    let mut other = ring.read_at(3, &mut b, 0);
    assert_eq!(submit(&mut other, &mut ring), token);
    assert_eq!(done.abandon(&mut ring), None);
    assert_eq!(ring.slot(token), Slot::Waiting);
    assert_eq!(other.stage(), Stage::Submitted(token));
}

#[test]
fn dropping_after_a_failed_flush_keeps_the_slot() {
    let mut ring = Ring::new(1);
    let mut buf = [0u8; 2];
    let mut op = ring.read_at(3, &mut buf, 0);
    let token = submit(&mut op, &mut ring);
    assert_eq!(
        op.poll(&mut ring, Event::Drained(Err(IoError { code: 4 }))),
        Action::Resolve(Err(IoError { code: 4 }))
    );
    assert_eq!(op.abandon(&mut ring), Some(token));
    assert_eq!(ring.slot(token), Slot::Orphaned);
}
