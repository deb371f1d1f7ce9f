use dood::{
    decode_header, encode_header, open_envelope, seal_envelope, Envelope, EnvelopeError,
    HandshakeMetadata, Header, HEADER_VERSION,
};

fn header(handshake: Option<HandshakeMetadata>) -> Header {
    Header { remote: vec![7; 32], n: 0x0102030405060708, pn: 3, handshake }
}

#[test]
fn header_layout_without_handshake() {
    let b = encode_header(&header(None));
    assert_eq!(b.len(), 50);
    assert_eq!(b[0], HEADER_VERSION);
    assert_eq!(&b[1..33], &[7u8; 32][..]);
    assert_eq!(&b[33..41], &[1, 2, 3, 4, 5, 6, 7, 8]);
    assert_eq!(&b[41..49], &[0, 0, 0, 0, 0, 0, 0, 3]);
    assert_eq!(b[49], 0);
    let h = decode_header(&b).unwrap();
    assert_eq!(h.remote, vec![7; 32]);
    assert_eq!(h.n, 0x0102030405060708);
    assert_eq!(h.pn, 3);
    assert!(h.handshake.is_none());
}

#[test]
fn header_round_trip_with_handshake() {
    let hs = HandshakeMetadata { sender_identity: vec![9; 32], one_time_pre_key: Some(vec![5; 32]) };
    let b = encode_header(&header(Some(hs)));
    assert_eq!(b.len(), 114);
    assert_eq!(b[49], 2);
    let h = decode_header(&b).unwrap();
    let hs = h.handshake.unwrap();
    assert_eq!(hs.sender_identity, vec![9; 32]);
    assert_eq!(hs.one_time_pre_key, Some(vec![5; 32]));

    let hs = HandshakeMetadata { sender_identity: vec![9; 32], one_time_pre_key: None };
    let b = encode_header(&header(Some(hs)));
    assert_eq!(b.len(), 82);
    let h = decode_header(&b).unwrap();
    assert!(h.handshake.unwrap().one_time_pre_key.is_none());
}

#[test]
fn malformed_headers_are_refused() {
    let b = encode_header(&header(None));
    assert!(decode_header(&b[..49]).is_none());
    let mut wrong_version = b.clone();
    wrong_version[0] = 2;
    assert!(decode_header(&wrong_version).is_none());
    let mut wrong_tag = b.clone();
    wrong_tag[49] = 3;
    assert!(decode_header(&wrong_tag).is_none());
    let mut trailing = b.clone();
    trailing.push(0);
    assert!(decode_header(&trailing).is_none());
    assert!(decode_header(&[]).is_none());
}

#[test]
fn sealed_envelope_opens_to_itself() {
    let e = Envelope {
        associated_data: vec![1; 32],
        header: header(Some(HandshakeMetadata { sender_identity: vec![9; 32], one_time_pre_key: None })),
        ciphertext: b"hi".to_vec(),
    };
    let w = seal_envelope(&e);
    assert_eq!(w.ciphertext, "aGk=");
    assert_ne!(w.header.as_bytes(), &e.associated_data[..]);
    let back = open_envelope(&w.ciphertext, &w.header).unwrap();
    assert_eq!(back.associated_data, vec![1; 32]);
    assert_eq!(back.ciphertext, b"hi".to_vec());
    assert_eq!(back.header.remote, vec![7; 32]);
    assert_eq!(back.header.n, 0x0102030405060708);
    assert_eq!(back.header.pn, 3);
    assert_eq!(back.header.handshake.unwrap().sender_identity, vec![9; 32]);
}

#[test]
fn empty_payload_round_trips() {
    let e = Envelope { associated_data: vec![0; 32], header: header(None), ciphertext: vec![] };
    let w = seal_envelope(&e);
    assert_eq!(w.ciphertext, "");
    let back = open_envelope(&w.ciphertext, &w.header).unwrap();
    assert!(back.ciphertext.is_empty());
}

#[test]
fn envelope_errors() {
    let e = Envelope { associated_data: vec![0; 32], header: header(None), ciphertext: vec![1, 2] };
    let w = seal_envelope(&e);
    assert!(matches!(open_envelope("!!", &w.header), Err(EnvelopeError::CiphertextEncoding)));
    assert!(matches!(open_envelope(&w.ciphertext, "%%%"), Err(EnvelopeError::HeaderEncoding)));
    // 3 bytes of header: shorter than the associated data
    assert!(matches!(open_envelope(&w.ciphertext, "AAAA"), Err(EnvelopeError::MissingAssociatedData)));
    // 33 zero bytes: associated data and a one-byte header
    let short = "AAAAAAAAAAAAAAAAAAAAAAAAAAAAAAAAAAAAAAAAAAAA";
    assert!(matches!(open_envelope(&w.ciphertext, short), Err(EnvelopeError::MalformedHeader)));
}

#[test]
fn base64_of_known_bytes() {
    assert_eq!(dood::to_base64(b"hi"), "aGk=");
    assert_eq!(dood::to_base64(&[0xff, 0xfe, 0xfd]), "//79");
    assert_eq!(dood::to_base64(&[]), "");
}

#[test]
fn authenticated_data_is_associated_data_then_header() {
    let h = header(None);
    let a = dood::authenticated_data(&[4u8; 32], &h);
    assert_eq!(a.len(), 82);
    assert_eq!(&a[..32], &[4u8; 32][..]);
    assert_eq!(&a[32..], &encode_header(&h)[..]);
}
