use dood::{
    inbound_action, outbound_header, ChainAdvance, Delivery, Header, InboundAction, InboundError,
    InboundStep, RatchetError, RatchetState, RatchetTurn, SessionRole, StateError, MAX_SKIP,
    STATE_VERSION,
};

fn key(tag: u8, n: u64) -> Vec<u8> {
    let mut k = vec![tag; 32];
    k[31] = n as u8;
    k
}

fn alice_key() -> Vec<u8> {
    vec![0xA1; 32]
}

/// A receiving session already on Alice's chain `alice_key()` with `nr == 0`.
fn receiver_on_chain() -> RatchetState {
    let mut bob = RatchetState::new_responder(vec![1; 32], vec![2; 32], vec![3; 32]);
    let turn = RatchetTurn {
        old_chain_keys: vec![],
        new_chain_keys: vec![],
        next_chain_key: key(0xC0, 1),
        root_key: vec![4; 32],
        own_ratchet_secret: vec![5; 32],
        own_ratchet_public: vec![6; 32],
        sending_chain: vec![7; 32],
    };
    // counter 0 arrives first and turns the ratchet
    assert_eq!(bob.inbound_step(&alice_key(), 0, 0), InboundStep::Turn { old_from: 0, old_to: 0, new_to: 0 });
    assert!(bob.commit_turn(&alice_key(), 0, 0, turn).is_ok());
    bob
}

fn advance(state: &mut RatchetState, n: u64, keys: Vec<Vec<u8>>) {
    let from = state.nr;
    assert_eq!(
        state.inbound_step(&alice_key(), n, 0),
        InboundStep::Advance { skip_from: from, skip_to: n }
    );
    let adv = ChainAdvance { skipped_keys: keys, next_chain_key: key(0xC0, n + 1) };
    assert_eq!(state.commit_advance(&alice_key(), n, adv), Ok(()));
}

#[test]
fn out_of_order_delivery_is_served_from_cache() {
    // fresh receiver; messages 0,1,2 arrive as 2,0,1
    let mut bob = RatchetState::new_responder(vec![1; 32], vec![2; 32], vec![3; 32]);
    let turn = RatchetTurn {
        old_chain_keys: vec![],
        new_chain_keys: vec![key(0xEE, 0), key(0xEE, 1)],
        next_chain_key: key(0xC0, 3),
        root_key: vec![4; 32],
        own_ratchet_secret: vec![5; 32],
        own_ratchet_public: vec![6; 32],
        sending_chain: vec![7; 32],
    };
    assert_eq!(bob.inbound_step(&alice_key(), 2, 0), InboundStep::Turn { old_from: 0, old_to: 0, new_to: 2 });
    assert!(bob.commit_turn(&alice_key(), 2, 0, turn).is_ok());
    assert_eq!(bob.nr, 3);
    assert_eq!(bob.skipped.len(), 2);

    assert_eq!(bob.classify(&alice_key(), 0), Delivery::SkipHit);
    assert_eq!(bob.take_skipped(&alice_key(), 0), Some(key(0xEE, 0)));
    assert_eq!(bob.classify(&alice_key(), 1), Delivery::SkipHit);
    assert_eq!(bob.take_skipped(&alice_key(), 1), Some(key(0xEE, 1)));
    assert_eq!(bob.skipped.len(), 0);
    // all three are now stale
    for n in 0..3 {
        assert_eq!(bob.classify(&alice_key(), n), Delivery::Stale);
    }
}

#[test]
fn duplicate_envelope_is_stale_and_leaves_state() {
    let mut bob = receiver_on_chain();
    advance(&mut bob, 1, vec![]);
    let nr = bob.nr;
    let cached = bob.skipped.len();
    // the same envelope again
    assert_eq!(bob.classify(&alice_key(), 1), Delivery::Stale);
    assert_eq!(bob.inbound_step(&alice_key(), 1, 0), InboundStep::Stale);
    // a commit for it is refused and changes nothing
    let adv = ChainAdvance { skipped_keys: vec![], next_chain_key: key(0xC0, 9) };
    assert_eq!(bob.commit_advance(&alice_key(), 1, adv), Err(RatchetError::Mismatch));
    assert_eq!(bob.nr, nr);
    assert_eq!(bob.skipped.len(), cached);
    assert_eq!(bob.receiving_chain, Some(key(0xC0, 2)));
}

#[test]
fn duplicate_after_skip_hit_is_stale() {
    let mut bob = receiver_on_chain();
    advance(&mut bob, 2, vec![key(0xEE, 1)]);
    assert_eq!(bob.take_skipped(&alice_key(), 1), Some(key(0xEE, 1)));
    assert_eq!(bob.classify(&alice_key(), 1), Delivery::Stale);
    assert_eq!(bob.take_skipped(&alice_key(), 1), None);
}

#[test]
fn lost_message_key_stays_for_its_counter_only() {
    let mut bob = receiver_on_chain();
    // counter 1 is lost; counter 2 arrives
    advance(&mut bob, 2, vec![key(0xEE, 1)]);
    assert_eq!(bob.nr, 3);
    assert_eq!(bob.classify(&alice_key(), 1), Delivery::SkipHit);
    // no other counter reaches the cached key
    assert_eq!(bob.take_skipped(&alice_key(), 0), None);
    assert_eq!(bob.take_skipped(&alice_key(), 2), None);
    assert_eq!(bob.take_skipped(&vec![0xB0; 32], 1), None);
    assert_eq!(bob.classify(&alice_key(), 2), Delivery::Stale);
    assert_eq!(bob.classify(&alice_key(), 3), Delivery::Fresh);
    assert_eq!(bob.take_skipped(&alice_key(), 1), Some(key(0xEE, 1)));
}

#[test]
fn gap_beyond_limit_is_invalid() {
    let bob = receiver_on_chain();
    assert_eq!(bob.inbound_step(&alice_key(), MAX_SKIP + 2, 0), InboundStep::Invalid);
    assert_eq!(
        bob.inbound_step(&alice_key(), MAX_SKIP + 1, 0),
        InboundStep::Advance { skip_from: 1, skip_to: MAX_SKIP + 1 }
    );
    assert_eq!(bob.inbound_step(&alice_key(), u64::MAX, 0), InboundStep::Invalid);
    assert_eq!(bob.inbound_step(&vec![0xB0; 32], MAX_SKIP + 1, 0), InboundStep::Invalid);
}

#[test]
fn previous_chain_envelope_is_stale_unless_cached() {
    let mut bob = receiver_on_chain();
    // Alice turned her ratchet; her old chain had 3 messages, counter 1 and 2 unseen
    let turn = RatchetTurn {
        old_chain_keys: vec![key(0xEE, 1), key(0xEE, 2)],
        new_chain_keys: vec![],
        next_chain_key: key(0xD0, 1),
        root_key: vec![8; 32],
        own_ratchet_secret: vec![9; 32],
        own_ratchet_public: vec![10; 32],
        sending_chain: vec![11; 32],
    };
    let new_remote = vec![0xA2; 32];
    assert_eq!(bob.inbound_step(&new_remote, 0, 3), InboundStep::Turn { old_from: 1, old_to: 3, new_to: 0 });
    assert!(bob.commit_turn(&new_remote, 0, 3, turn).is_ok());
    assert_eq!(bob.previous_remote, Some(alice_key()));
    assert_eq!(bob.remote, Some(new_remote.clone()));
    assert_eq!(bob.pn, 0);
    assert_eq!(bob.ns, 0);
    assert_eq!(bob.nr, 1);
    assert_eq!(bob.classify(&alice_key(), 2), Delivery::SkipHit);
    assert_eq!(bob.classify(&alice_key(), 0), Delivery::Stale);
    assert_eq!(bob.classify(&alice_key(), 7), Delivery::Stale);
    assert_eq!(bob.classify(&new_remote, 0), Delivery::Stale);
    assert_eq!(bob.take_skipped(&alice_key(), 2), Some(key(0xEE, 2)));
}

#[test]
fn turn_with_wrong_key_count_is_refused() {
    let mut bob = RatchetState::new_responder(vec![1; 32], vec![2; 32], vec![3; 32]);
    let turn = RatchetTurn {
        old_chain_keys: vec![],
        new_chain_keys: vec![key(0xEE, 0)],
        next_chain_key: key(0xC0, 3),
        root_key: vec![4; 32],
        own_ratchet_secret: vec![5; 32],
        own_ratchet_public: vec![6; 32],
        sending_chain: vec![7; 32],
    };
    assert_eq!(bob.commit_turn(&alice_key(), 2, 0, turn), Err(RatchetError::Mismatch));
    assert_eq!(bob.remote, None);
    assert_eq!(bob.nr, 0);
}

#[test]
fn sending_advances_counter() {
    let mut alice = RatchetState::new_initiator(vec![1; 32], vec![2; 32], alice_key(), vec![0xB5; 32], vec![3; 32]);
    assert_eq!(alice.role, SessionRole::Initiator);
    assert_eq!(alice.next_send(), Ok((0, 0)));
    assert_eq!(alice.commit_send(vec![4; 32]), Ok(()));
    assert_eq!(alice.commit_send(vec![5; 32]), Ok(()));
    assert_eq!(alice.ns, 2);
    assert_eq!(alice.sending_chain, Some(vec![5; 32]));
    let h = outbound_header(&alice, None).unwrap();
    assert_eq!(h.remote, alice_key());
    assert_eq!(h.n, 2);
    assert_eq!(h.pn, 0);
    assert!(h.handshake.is_none());

    let mut bob = RatchetState::new_responder(vec![1; 32], vec![2; 32], vec![3; 32]);
    assert_eq!(bob.next_send(), Err(RatchetError::NoSendingChain));
    assert_eq!(bob.commit_send(vec![4; 32]), Err(RatchetError::NoSendingChain));
    assert!(outbound_header(&bob, None).is_err());
    bob.sending_chain = Some(vec![1; 32]);
    bob.ns = u64::MAX;
    assert_eq!(bob.next_send(), Err(RatchetError::CounterExhausted));
}

#[test]
fn inbound_without_session_needs_handshake() {
    let h = Header { remote: alice_key(), n: 0, pn: 0, handshake: None };
    assert_eq!(inbound_action(None, &h), InboundAction::Reject(InboundError::MissingHandshake));
    let h = Header {
        remote: alice_key(),
        n: 0,
        pn: 0,
        handshake: Some(dood::HandshakeMetadata { sender_identity: vec![9; 32], one_time_pre_key: None }),
    };
    assert_eq!(inbound_action(None, &h), InboundAction::EstablishResponder);
    let bob = receiver_on_chain();
    assert_eq!(inbound_action(Some(&bob), &h), InboundAction::Stale);
    let far = Header { remote: alice_key(), n: u64::MAX, pn: 0, handshake: None };
    assert_eq!(inbound_action(Some(&bob), &far), InboundAction::Reject(InboundError::InvalidEnvelope));
}

#[test]
fn restored_state_is_checked() {
    let bob = receiver_on_chain();
    let bob = RatchetState::restore(STATE_VERSION, bob).unwrap();
    assert_eq!(bob.nr, 1);
    assert!(matches!(RatchetState::restore(STATE_VERSION + 1, bob), Err(StateError::CorruptState)));

    // a cached key for the current chain at or past `nr` is corrupt
    let cache = dood::SkippedKeyCache::from_entries(vec![dood::SkippedKey {
        remote: alice_key(),
        counter: 5,
        message_key: key(0xEE, 5),
    }])
    .unwrap();
    let mut s = receiver_on_chain();
    s.skipped = cache;
    assert!(matches!(RatchetState::restore(STATE_VERSION, s), Err(StateError::CorruptState)));
}

#[test]
fn second_turn_evicts_oldest_chain() {
    let mut bob = receiver_on_chain();
    let turn = |old: Vec<Vec<u8>>, tag: u8| RatchetTurn {
        old_chain_keys: old,
        new_chain_keys: vec![],
        next_chain_key: vec![tag; 32],
        root_key: vec![tag; 32],
        own_ratchet_secret: vec![tag; 32],
        own_ratchet_public: vec![tag; 32],
        sending_chain: vec![tag; 32],
    };
    let second = vec![0xA2; 32];
    let third = vec![0xA3; 32];
    // Alice's first chain ended at 2 messages; counter 1 was never received
    assert!(bob.commit_turn(&second, 0, 2, turn(vec![key(0xEE, 1)], 0x40)).is_ok());
    assert_eq!(bob.classify(&alice_key(), 1), Delivery::SkipHit);
    // her second chain ended at 1 message: the first chain's keys go
    assert!(bob.commit_turn(&third, 0, 1, turn(vec![], 0x50)).is_ok());
    assert_eq!(bob.previous_remote, Some(second.clone()));
    assert_eq!(bob.skipped.len(), 0);
    assert_eq!(bob.classify(&alice_key(), 1), Delivery::Fresh);
    assert_eq!(bob.classify(&second, 0), Delivery::Stale);
    assert_eq!(bob.classify(&third, 0), Delivery::Stale);
}
