use relay_engine::{Accepted, LoopState, LoopStep, Message, MessageKind, OverflowPolicy, Relay, RelayError};

fn msg(s: &str) -> Message {
    Message::new(s.as_bytes().to_vec(), MessageKind::Binary)
}

fn pending_payloads(r: &Relay) -> Vec<Vec<u8>> {
    r.pending().iter().map(|m| m.payload().clone()).collect()
}

fn claimed(step: LoopStep) -> Vec<u8> {
    match step {
        LoopStep::Claimed(m) => m.into_payload(),
        other => panic!("expected a claim, got {:?}", other),
    }
}

#[test]
fn drop_oldest_evicts_then_consumer_claims_in_order() {
    let mut r = Relay::new(2, OverflowPolicy::DropOldest);
    assert!(matches!(r.submit(msg("A")), Ok(Accepted::Queued { evicted: None })));
    assert!(matches!(r.submit(msg("B")), Ok(Accepted::Queued { evicted: None })));
    match r.submit(msg("C")) {
        Ok(Accepted::Queued { evicted: Some(e) }) => assert_eq!(e.payload(), &b"A".to_vec()),
        other => panic!("unexpected {:?}", other),
    }
    assert_eq!(pending_payloads(&r), vec![b"B".to_vec(), b"C".to_vec()]);
    let (conn, first) = r.open_connection().unwrap();
    assert_eq!(claimed(first), b"B".to_vec());
    assert_eq!(claimed(r.finish_forward(conn, true)), b"C".to_vec());
    assert!(matches!(r.finish_forward(conn, true), LoopStep::Waiting));
    assert_eq!(r.pending_len(), 0);
}

#[test]
fn block_on_full_refuses_until_a_claim_frees_the_slot() {
    let mut r = Relay::new(1, OverflowPolicy::Block);
    let (c, step) = r.open_connection().unwrap();
    assert!(matches!(step, LoopStep::Waiting));
    match r.submit(msg("X")) {
        Ok(Accepted::Claimed { conn, message }) => {
            assert_eq!(conn, c);
            assert_eq!(message.payload(), &b"X".to_vec());
        }
        other => panic!("unexpected {:?}", other),
    }
    assert!(matches!(r.submit(msg("Y")), Ok(Accepted::Queued { evicted: None })));
    let z = r.submit(msg("Z"));
    match z {
        Err(rej) => {
            assert_eq!(rej.error, RelayError::Full);
            assert_eq!(rej.message.payload(), &b"Z".to_vec());
        }
        other => panic!("unexpected {:?}", other),
    }
    assert_eq!(pending_payloads(&r), vec![b"Y".to_vec()]);
    assert_eq!(claimed(r.finish_forward(c, true)), b"Y".to_vec());
    assert!(matches!(r.submit(msg("Z")), Ok(Accepted::Queued { evicted: None })));
}

#[test]
fn block_on_full_with_no_consumer_holds_the_second_message_back() {
    let mut r = Relay::new(1, OverflowPolicy::Block);
    assert!(matches!(r.submit(msg("X")), Ok(Accepted::Queued { evicted: None })));
    assert!(matches!(r.submit(msg("Y")), Err(ref rej) if rej.error == RelayError::Full));
    let (_, step) = r.open_connection().unwrap();
    assert_eq!(claimed(step), b"X".to_vec());
    assert!(matches!(r.submit(msg("Y")), Ok(Accepted::Queued { evicted: None })));
}

#[test]
fn each_message_goes_to_exactly_one_waiting_loop() {
    let mut r = Relay::new(4, OverflowPolicy::Block);
    let (a, _) = r.open_connection().unwrap();
    let (b, _) = r.open_connection().unwrap();
    let (c, _) = r.open_connection().unwrap();
    let mut got = Vec::new();
    for p in ["m1", "m2"] {
        match r.submit(msg(p)) {
            Ok(Accepted::Claimed { conn, message }) => got.push((conn, message.into_payload())),
            other => panic!("unexpected {:?}", other),
        }
    }
    assert_eq!(got, vec![(a, b"m1".to_vec()), (b, b"m2".to_vec())]);
    assert_eq!(r.state_of(a), LoopState::Forwarding);
    assert_eq!(r.state_of(b), LoopState::Forwarding);
    assert_eq!(r.state_of(c), LoopState::Waiting);
    assert_eq!(r.pending_len(), 0);
}

#[test]
fn claims_follow_arrival_order_of_messages_and_loops() {
    let mut r = Relay::new(8, OverflowPolicy::Block);
    for p in ["1", "2", "3"] {
        assert!(r.submit(msg(p)).is_ok());
    }
    let (a, s1) = r.open_connection().unwrap();
    let (b, s2) = r.open_connection().unwrap();
    assert_eq!(claimed(s1), b"1".to_vec());
    assert_eq!(claimed(s2), b"2".to_vec());
    assert_eq!(claimed(r.finish_forward(b, true)), b"3".to_vec());
    assert!(matches!(r.finish_forward(a, true), LoopStep::Waiting));
    assert!(matches!(r.finish_forward(b, true), LoopStep::Waiting));
    let order: Vec<u64> = r.waiting().iter().copied().collect();
    assert_eq!(order, vec![a, b]);
}

#[test]
fn failed_write_ends_only_that_loop() {
    let mut r = Relay::new(2, OverflowPolicy::Block);
    let (a, _) = r.open_connection().unwrap();
    let (b, _) = r.open_connection().unwrap();
    assert!(matches!(r.submit(msg("lost")), Ok(Accepted::Claimed { conn, .. }) if conn == a));
    assert!(matches!(r.finish_forward(a, false), LoopStep::Closed));
    assert_eq!(r.state_of(a), LoopState::Closed);
    assert!(matches!(r.submit(msg("next")), Ok(Accepted::Claimed { conn, .. }) if conn == b));
    assert_eq!(r.pending_len(), 0);
}

#[test]
fn peer_disconnect_mid_forward_ends_only_that_loop() {
    let mut r = Relay::new(2, OverflowPolicy::DropOldest);
    let (a, _) = r.open_connection().unwrap();
    let (b, _) = r.open_connection().unwrap();
    assert!(r.submit(msg("x")).is_ok());
    r.disconnect(a);
    assert_eq!(r.state_of(a), LoopState::Closed);
    assert_eq!(r.state_of(b), LoopState::Waiting);
    assert!(matches!(r.submit(msg("y")), Ok(Accepted::Claimed { conn, .. }) if conn == b));
}

#[test]
fn disconnect_of_a_waiting_loop_removes_it_from_the_queue() {
    let mut r = Relay::new(2, OverflowPolicy::Block);
    let (a, _) = r.open_connection().unwrap();
    let (b, _) = r.open_connection().unwrap();
    r.disconnect(a);
    assert!(matches!(r.submit(msg("y")), Ok(Accepted::Claimed { conn, .. }) if conn == b));
    r.disconnect(99);
    assert_eq!(r.state_of(b), LoopState::Forwarding);
}

#[test]
fn close_wakes_every_waiting_loop() {
    let mut r = Relay::new(2, OverflowPolicy::Block);
    let (a, _) = r.open_connection().unwrap();
    let (b, _) = r.open_connection().unwrap();
    let (c, _) = r.open_connection().unwrap();
    assert!(r.submit(msg("busy")).is_ok());
    let woken = r.close();
    assert_eq!(woken, vec![b, c]);
    assert!(r.is_closed());
    assert_eq!(r.state_of(b), LoopState::Closed);
    assert_eq!(r.state_of(c), LoopState::Closed);
    assert_eq!(r.state_of(a), LoopState::Forwarding);
    assert!(matches!(r.finish_forward(a, true), LoopStep::Closed));
    match r.submit(msg("late")) {
        Err(rej) => assert_eq!(rej.error, RelayError::ChannelClosed),
        other => panic!("unexpected {:?}", other),
    }
    let (_, step) = r.open_connection().unwrap();
    assert!(matches!(step, LoopStep::Closed));
}

#[test]
fn close_lets_busy_loops_drain_what_is_pending() {
    let mut r = Relay::new(2, OverflowPolicy::Block);
    assert!(r.submit(msg("p")).is_ok());
    let woken = r.close();
    assert!(woken.is_empty());
    let (c, step) = r.open_connection().unwrap();
    assert_eq!(claimed(step), b"p".to_vec());
    assert!(matches!(r.finish_forward(c, true), LoopStep::Closed));
}

#[test]
fn new_relay_reports_its_configuration() {
    let r = Relay::new(3, OverflowPolicy::DropOldest);
    assert_eq!(r.capacity(), 3);
    assert_eq!(r.policy(), OverflowPolicy::DropOldest);
    assert!(!r.is_closed());
    assert_eq!(r.pending_len(), 0);
    assert_eq!(r.state_of(0), LoopState::Closed);
}

#[test]
fn drop_oldest_keeps_capacity_over_many_submissions() {
    let mut r = Relay::new(3, OverflowPolicy::DropOldest);
    for i in 0..10u8 {
        assert!(r.submit(Message::new(vec![i], MessageKind::Binary)).is_ok());
        assert!(r.pending_len() <= 3);
    }
    assert_eq!(pending_payloads(&r), vec![vec![7u8], vec![8u8], vec![9u8]]);
}
