use dood::{
    handshake_for, inbound_action, open_envelope, outbound_header, seal_envelope, Envelope,
    InboundAction, KeyBundle, RatchetState, RatchetTurn, SessionDirectory, SessionRole,
    WireEnvelope,
};

// Stand-ins for the primitive provider's key material; the "ciphertext" is
// the plaintext itself, so the test follows the bookkeeping only.
const ALICE_IDENTITY: [u8; 32] = [0xA0; 32];
const BOB_SIGNED_PRE_KEY: [u8; 32] = [0xB1; 32];

fn send(state: &mut RatchetState, with_handshake: Option<dood::HandshakeMetadata>, text: &str) -> WireEnvelope {
    let header = outbound_header(state, with_handshake).unwrap();
    let e = Envelope { associated_data: vec![0xAD; 32], header, ciphertext: text.as_bytes().to_vec() };
    let w = seal_envelope(&e);
    let next = vec![state.ns as u8 + 1; 32];
    state.commit_send(next).unwrap();
    w
}

/// Processes a batch for `owner`; returns the plaintexts newly read.
fn fetch(dir: &mut SessionDirectory, owner: &str, from: &str, batch: &[WireEnvelope]) -> Vec<String> {
    let mut read = Vec::new();
    for w in batch {
        let e = open_envelope(&w.ciphertext, &w.header).unwrap();
        let action = inbound_action(dir.load(owner, from), &e.header);
        let turn = |own: u8| RatchetTurn {
            old_chain_keys: vec![],
            new_chain_keys: vec![],
            next_chain_key: vec![own; 32],
            root_key: vec![own; 32],
            own_ratchet_secret: vec![own; 32],
            own_ratchet_public: vec![own ^ 0xFF; 32],
            sending_chain: vec![own; 32],
        };
        match action {
            InboundAction::EstablishResponder => {
                let mut s = RatchetState::new_responder(vec![0x11; 32], vec![0x12; 32], BOB_SIGNED_PRE_KEY.to_vec());
                s.commit_turn(&e.header.remote, e.header.n, e.header.pn, turn(0x20)).unwrap();
                assert!(dir.establish(owner, from, s));
            }
            InboundAction::Turn { .. } => {
                let mut s = dir.take(owner, from).unwrap();
                s.commit_turn(&e.header.remote, e.header.n, e.header.pn, turn(0x30)).unwrap();
                dir.store(owner, from, s);
            }
            InboundAction::Stale => continue,
            _ => panic!("unexpected action"),
        }
        read.push(String::from_utf8(e.ciphertext).unwrap());
    }
    read
}

#[test]
fn alice_and_bob_exchange_first_messages() {
    let mut alice_dir = SessionDirectory::new();
    let mut bob_dir = SessionDirectory::new();

    // Alice has no session with Bob: she initiates from his bundle.
    assert!(alice_dir.load("alice", "bob").is_none());
    let bundle = KeyBundle {
        identity_key: vec![0xB0; 32],
        signed_pre_key: BOB_SIGNED_PRE_KEY.to_vec(),
        signed_pre_key_signature: vec![0xB2; 64],
        one_time_pre_key: Some(vec![0xB3; 32]),
    };
    let mut alice = RatchetState::new_initiator(
        vec![0x11; 32],
        vec![0xA1; 32],
        vec![0xA2; 32],
        bundle.signed_pre_key.clone(),
        vec![0xA3; 32],
    );
    let hs = handshake_for(&ALICE_IDENTITY, &bundle);
    assert_eq!(hs.one_time_pre_key, Some(vec![0xB3; 32]));
    let hi = send(&mut alice, Some(hs), "hi");
    assert!(alice_dir.establish("alice", "bob", alice));

    // Bob's fetch answers the handshake and reads "hi".
    assert_eq!(fetch(&mut bob_dir, "bob", "alice", &[hi]), vec!["hi".to_string()]);
    let bob_state = bob_dir.load("bob", "alice").unwrap();
    assert_eq!(bob_state.role, SessionRole::Responder);
    assert_eq!(bob_state.remote, Some(vec![0xA2; 32]));

    // Bob replies; his envelope carries no handshake.
    let mut bob = bob_dir.take("bob", "alice").unwrap();
    assert!(bob_dir.load("bob", "alice").is_none());
    let hello = send(&mut bob, None, "hello");
    bob_dir.store("bob", "alice", bob);
    let opened = open_envelope(&hello.ciphertext, &hello.header).unwrap();
    assert!(opened.header.handshake.is_none());

    // Alice's fetch reads "hello"; fetching again yields nothing new.
    let batch = vec![hello];
    assert_eq!(fetch(&mut alice_dir, "alice", "bob", &batch), vec!["hello".to_string()]);
    assert!(fetch(&mut alice_dir, "alice", "bob", &[]).is_empty());
    assert!(fetch(&mut alice_dir, "alice", "bob", &batch).is_empty());
    assert_eq!(alice_dir.load("alice", "bob").unwrap().role, SessionRole::Initiator);
}
