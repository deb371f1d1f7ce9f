use base64::prelude::BASE64_STANDARD;
use base64::Engine;
use vstd::prelude::*;

use crate::bytes::{append_bytes, be8, copy_range, from_be8, lemma_be8_round_trip, push_be8, read_be8};

verus! {

/// Length of the associated data in front of every header.
pub const ASSOCIATED_DATA_LEN: usize = 32;

/// Length of every public key the header carries.
pub const KEY_LEN: usize = 32;

/// Version byte of the structured header layout.
pub const HEADER_VERSION: u8 = 1;

/// The standard base64 text of `b`.
pub uninterp spec fn base64_text(b: Seq<u8>) -> Seq<char>;

/// The bytes that the standard base64 text `s` decodes to, if it is valid.
pub uninterp spec fn base64_bytes(s: Seq<char>) -> Option<Seq<u8>>;

/// Relies on base64's `Engine::encode` for the standard engine: the text is a
/// function of the bytes, and decoding it gives the bytes back.
#[verifier::external_body]
pub(crate) fn encode_base64(b: &[u8]) -> (r: String)
    requires
        b@.len() <= usize::MAX / 2,
    ensures
        r@ == base64_text(b@),
        base64_bytes(r@) == Some(b@),
{
    BASE64_STANDARD.encode(b)
}

/// Relies on base64's `Engine::decode` for the standard engine: `None` where
/// the text is not valid standard base64.
#[verifier::external_body]
pub(crate) fn decode_base64(s: &str) -> (r: Option<Vec<u8>>)
    ensures
        match r {
            Some(v) => base64_bytes(s@) == Some(v@),
            None => base64_bytes(s@) is None,
        },
{
    BASE64_STANDARD.decode(s).ok()
}

/// Standard base64 of `b`, as the relay's authentication headers carry it.
pub fn to_base64(b: &[u8]) -> (r: String)
    requires
        b@.len() <= usize::MAX / 2,
    ensures
        r@ == base64_text(b@),
{
    encode_base64(b)
}

/// Handshake metadata: present only on a session's first envelope.
pub struct HandshakeMetadata {
    /// The sender's long-term identity public key.
    pub sender_identity: Vec<u8>,
    /// The recipient's one-time pre-key that the sender used, if any.
    pub one_time_pre_key: Option<Vec<u8>>,
}

/// The structured part of an envelope header.
pub struct Header {
    /// The sender's current ratchet public key.
    pub remote: Vec<u8>,
    /// Counter of the message on the sender's chain.
    pub n: u64,
    /// Length of the sender's previous chain.
    pub pn: u64,
    pub handshake: Option<HandshakeMetadata>,
}

pub struct HeaderView {
    pub remote: Seq<u8>,
    pub n: u64,
    pub pn: u64,
    pub handshake: Option<(Seq<u8>, Option<Seq<u8>>)>,
}

impl View for Header {
    type V = HeaderView;

    open spec fn view(&self) -> HeaderView {
        HeaderView {
            remote: self.remote@,
            n: self.n,
            pn: self.pn,
            handshake: match self.handshake {
                None => None,
                Some(h) => Some(
                    (
                        h.sender_identity@,
                        match h.one_time_pre_key {
                            None => None,
                            Some(k) => Some(k@),
                        },
                    ),
                ),
            },
        }
    }
}

/// Every key in the header has the fixed key length.
pub open spec fn header_wf(h: HeaderView) -> bool {
    &&& h.remote.len() == KEY_LEN
    &&& match h.handshake {
        None => true,
        Some((id, opk)) => id.len() == KEY_LEN && match opk {
            None => true,
            Some(k) => k.len() == KEY_LEN,
        },
    }
}

/// The layout: version, remote key, `n` and `pn` big-endian, a tag for the
/// handshake (0 none, 1 identity, 2 identity and one-time pre-key), its keys.
pub open spec fn header_bytes(h: HeaderView) -> Seq<u8> {
    seq![HEADER_VERSION] + h.remote + be8(h.n) + be8(h.pn) + match h.handshake {
        None => seq![0u8],
        Some((id, None)) => seq![1u8] + id,
        Some((id, Some(opk))) => seq![2u8] + id + opk,
    }
}

/// The header that `b` lays out, if it is one.
pub open spec fn parse_header(b: Seq<u8>) -> Option<HeaderView> {
    if b.len() < 50 || b[0] != HEADER_VERSION {
        None
    } else {
        let remote = b.subrange(1, 33);
        let n = from_be8(b.subrange(33, 41));
        let pn = from_be8(b.subrange(41, 49));
        if b[49] == 0 && b.len() == 50 {
            Some(HeaderView { remote, n, pn, handshake: None })
        } else if b[49] == 1 && b.len() == 82 {
            Some(HeaderView { remote, n, pn, handshake: Some((b.subrange(50, 82), None)) })
        } else if b[49] == 2 && b.len() == 114 {
            Some(
                HeaderView {
                    remote,
                    n,
                    pn,
                    handshake: Some((b.subrange(50, 82), Some(b.subrange(82, 114)))),
                },
            )
        } else {
            None
        }
    }
}

/// Laying a well-formed header out and parsing it gives it back.
pub proof fn lemma_header_round_trip(h: HeaderView)
    requires
        header_wf(h),
    ensures
        parse_header(header_bytes(h)) == Some(h),
{
    let b = header_bytes(h);
    lemma_be8_round_trip(h.n);
    lemma_be8_round_trip(h.pn);
    assert(b.subrange(1, 33) =~= h.remote);
    assert(b.subrange(33, 41) =~= be8(h.n));
    assert(b.subrange(41, 49) =~= be8(h.pn));
    match h.handshake {
        None => {},
        Some((id, None)) => {
            assert(b.subrange(50, 82) =~= id);
        },
        Some((id, Some(opk))) => {
            assert(b.subrange(50, 82) =~= id);
            assert(b.subrange(82, 114) =~= opk);
        },
    }
}

/// Lays out the structured header.
pub fn encode_header(h: &Header) -> (b: Vec<u8>)
    requires
        header_wf(h@),
    ensures
        b@ == header_bytes(h@),
{
    let mut out: Vec<u8> = Vec::new();
    out.push(HEADER_VERSION);
    append_bytes(&mut out, h.remote.as_slice());
    push_be8(&mut out, h.n);
    push_be8(&mut out, h.pn);
    let ghost front = out@;
    match &h.handshake {
        None => {
            out.push(0u8);
        },
        Some(hs) => match &hs.one_time_pre_key {
            None => {
                out.push(1u8);
                append_bytes(&mut out, hs.sender_identity.as_slice());
            },
            Some(k) => {
                out.push(2u8);
                append_bytes(&mut out, hs.sender_identity.as_slice());
                append_bytes(&mut out, k.as_slice());
            },
        },
    }
    assert(out@ =~= header_bytes(h@));
    out
}

/// Parses a structured header; `None` where `b` lays out none.
pub fn decode_header(b: &[u8]) -> (r: Option<Header>)
    ensures
        match r {
            Some(h) => parse_header(b@) == Some(h@),
            None => parse_header(b@) is None,
        },
{
    if b.len() < 50 || b[0] != HEADER_VERSION {
        return None;
    }
    let remote = copy_range(b, 1, 33);
    let n = read_be8(b, 33);
    let pn = read_be8(b, 41);
    let tag = b[49];
    let handshake = if tag == 0 && b.len() == 50 {
        None
    } else if tag == 1 && b.len() == 82 {
        Some(HandshakeMetadata { sender_identity: copy_range(b, 50, 82), one_time_pre_key: None })
    } else if tag == 2 && b.len() == 114 {
        Some(
            HandshakeMetadata {
                sender_identity: copy_range(b, 50, 82),
                one_time_pre_key: Some(copy_range(b, 82, 114)),
            },
        )
    } else {
        return None;
    };
    let h = Header { remote, n, pn, handshake };
    assert(parse_header(b@) == Some(h@));
    Some(h)
}

/// What the authenticated encryption of an envelope covers besides the
/// plaintext: the associated data followed by the structured header.
pub fn authenticated_data(associated_data: &[u8], h: &Header) -> (r: Vec<u8>)
    requires
        header_wf(h@),
    ensures
        r@ == associated_data@ + header_bytes(h@),
{
    let mut r = crate::bytes::copy_bytes(associated_data);
    let hb = encode_header(h);
    append_bytes(&mut r, hb.as_slice());
    r
}

/// An envelope: associated data, header and ciphertext.
pub struct Envelope {
    pub associated_data: Vec<u8>,
    pub header: Header,
    pub ciphertext: Vec<u8>,
}

pub struct EnvelopeView {
    pub associated_data: Seq<u8>,
    pub header: HeaderView,
    pub ciphertext: Seq<u8>,
}

impl View for Envelope {
    type V = EnvelopeView;

    open spec fn view(&self) -> EnvelopeView {
        EnvelopeView {
            associated_data: self.associated_data@,
            header: self.header@,
            ciphertext: self.ciphertext@,
        }
    }
}

/// An envelope as the relay carries it: base64 of the ciphertext, and base64
/// of the associated data followed by the structured header.
pub struct WireEnvelope {
    pub ciphertext: String,
    pub header: String,
}

/// Why an inbound envelope could not be read.
#[derive(Clone, Copy, PartialEq, Eq, Debug, Structural)]
pub enum EnvelopeError {
    /// The ciphertext is not valid base64.
    CiphertextEncoding,
    /// The header is not valid base64.
    HeaderEncoding,
    /// The header is shorter than the associated data.
    MissingAssociatedData,
    /// The structured header cannot be parsed.
    MalformedHeader,
}

pub open spec fn envelope_wf(e: EnvelopeView) -> bool {
    &&& e.associated_data.len() == ASSOCIATED_DATA_LEN
    &&& header_wf(e.header)
    &&& e.ciphertext.len() <= usize::MAX / 2
}

/// What reading the two wire texts gives.
pub open spec fn open_wire(ciphertext: Seq<char>, header: Seq<char>) -> Result<EnvelopeView, EnvelopeError> {
    match base64_bytes(ciphertext) {
        None => Err(EnvelopeError::CiphertextEncoding),
        Some(ct) => match base64_bytes(header) {
            None => Err(EnvelopeError::HeaderEncoding),
            Some(full) => if full.len() < ASSOCIATED_DATA_LEN {
                Err(EnvelopeError::MissingAssociatedData)
            } else {
                match parse_header(full.subrange(ASSOCIATED_DATA_LEN as int, full.len() as int)) {
                    None => Err(EnvelopeError::MalformedHeader),
                    Some(h) => Ok(
                        EnvelopeView {
                            associated_data: full.subrange(0, ASSOCIATED_DATA_LEN as int),
                            header: h,
                            ciphertext: ct,
                        },
                    ),
                }
            },
        },
    }
}

/// Reads an inbound envelope from its two wire texts.
pub fn open_envelope(ciphertext: &str, header: &str) -> (r: Result<Envelope, EnvelopeError>)
    ensures
        match r {
            Ok(e) => open_wire(ciphertext@, header@) == Ok::<EnvelopeView, EnvelopeError>(e@),
            Err(err) => open_wire(ciphertext@, header@) == Err::<EnvelopeView, EnvelopeError>(err),
        },
{
    let ct = match decode_base64(ciphertext) {
        Some(v) => v,
        None => {
            return Err(EnvelopeError::CiphertextEncoding);
        },
    };
    let full = match decode_base64(header) {
        Some(v) => v,
        None => {
            return Err(EnvelopeError::HeaderEncoding);
        },
    };
    if full.len() < ASSOCIATED_DATA_LEN {
        return Err(EnvelopeError::MissingAssociatedData);
    }
    let rest = copy_range(full.as_slice(), ASSOCIATED_DATA_LEN, full.len());
    let h = match decode_header(rest.as_slice()) {
        Some(h) => h,
        None => {
            return Err(EnvelopeError::MalformedHeader);
        },
    };
    let ad = copy_range(full.as_slice(), 0, ASSOCIATED_DATA_LEN);
    let e = Envelope { associated_data: ad, header: h, ciphertext: ct };
    Ok(e)
}

/// Puts an outbound envelope on the wire. Reading it back gives the same
/// envelope.
pub fn seal_envelope(e: &Envelope) -> (w: WireEnvelope)
    requires
        envelope_wf(e@),
    ensures
        w.ciphertext@ == base64_text(e.ciphertext@),
        w.header@ == base64_text(e.associated_data@ + header_bytes(e.header@)),
        open_wire(w.ciphertext@, w.header@) == Ok::<EnvelopeView, EnvelopeError>(e@),
{
    let mut full = crate::bytes::copy_bytes(e.associated_data.as_slice());
    let hb = encode_header(&e.header);
    append_bytes(&mut full, hb.as_slice());
    let ciphertext = encode_base64(e.ciphertext.as_slice());
    let header = encode_base64(full.as_slice());
    proof {
        lemma_header_round_trip(e.header@);
        assert(full@.subrange(0, ASSOCIATED_DATA_LEN as int) =~= e.associated_data@);
        assert(full@.subrange(ASSOCIATED_DATA_LEN as int, full@.len() as int) =~= header_bytes(e.header@));
    }
    WireEnvelope { ciphertext, header }
}

} // verus!
