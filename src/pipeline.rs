use vstd::prelude::*;

use crate::bundle::KeyBundle;
use crate::envelope::{HandshakeMetadata, Header};
use crate::ratchet::{inbound_step_of, InboundStep, RatchetError, RatchetState};

verus! {

/// Why an inbound envelope is dropped before any decryption.
#[derive(Clone, Copy, PartialEq, Eq, Debug, Structural)]
pub enum InboundError {
    /// No session exists and the envelope carries no handshake metadata.
    MissingHandshake,
    /// The envelope cannot belong to the session.
    InvalidEnvelope,
}

/// What the pipeline does with an inbound envelope.
#[derive(Clone, Copy, PartialEq, Eq, Debug, Structural)]
pub enum InboundAction {
    /// Already received: dropped silently, the session unchanged.
    Stale,
    /// Decrypt with the cached key, which is then removed.
    SkipHit,
    /// Derive along the current receiving chain (see `InboundStep::Advance`).
    Advance { skip_from: u64, skip_to: u64 },
    /// Turn the ratchet (see `InboundStep::Turn`).
    Turn { old_from: u64, old_to: u64, new_to: u64 },
    /// No session yet: answer the handshake as responder, then turn the
    /// ratchet to the envelope's chain.
    EstablishResponder,
    Reject(InboundError),
}

pub open spec fn inbound_action_of(session: Option<RatchetState>, h: Header) -> InboundAction {
    match session {
        None => if h.handshake is Some {
            InboundAction::EstablishResponder
        } else {
            InboundAction::Reject(InboundError::MissingHandshake)
        },
        Some(s) => match inbound_step_of(s, h.remote@, h.n, h.pn) {
            InboundStep::Stale => InboundAction::Stale,
            InboundStep::SkipHit => InboundAction::SkipHit,
            InboundStep::Advance { skip_from, skip_to } => InboundAction::Advance { skip_from, skip_to },
            InboundStep::Turn { old_from, old_to, new_to } => InboundAction::Turn { old_from, old_to, new_to },
            InboundStep::Invalid => InboundAction::Reject(InboundError::InvalidEnvelope),
        },
    }
}

/// Decides what to do with an inbound envelope, before any state changes:
/// the replay guard runs on an existing session, and without one the
/// envelope must carry handshake metadata.
pub fn inbound_action(session: Option<&RatchetState>, header: &Header) -> (a: InboundAction)
    requires
        session matches Some(s) ==> s.wf(),
    ensures
        a == inbound_action_of(
            match session {
                Some(s) => Some(*s),
                None => None,
            },
            *header,
        ),
{
    match session {
        None => if header.handshake.is_some() {
            InboundAction::EstablishResponder
        } else {
            InboundAction::Reject(InboundError::MissingHandshake)
        },
        Some(s) => match s.inbound_step(header.remote.as_slice(), header.n, header.pn) {
            InboundStep::Stale => InboundAction::Stale,
            InboundStep::SkipHit => InboundAction::SkipHit,
            InboundStep::Advance { skip_from, skip_to } => InboundAction::Advance { skip_from, skip_to },
            InboundStep::Turn { old_from, old_to, new_to } => InboundAction::Turn { old_from, old_to, new_to },
            InboundStep::Invalid => InboundAction::Reject(InboundError::InvalidEnvelope),
        },
    }
}

/// The handshake metadata of a session created on the outbound path: the
/// local identity key and the peer's one-time pre-key that was used.
pub fn handshake_for(identity_key: &[u8], bundle: &KeyBundle) -> (m: HandshakeMetadata)
    ensures
        m.sender_identity@ == identity_key@,
        match (m.one_time_pre_key, bundle.one_time_pre_key) {
            (Some(a), Some(b)) => a@ == b@,
            (None, None) => true,
            _ => false,
        },
{
    let one_time_pre_key = match &bundle.one_time_pre_key {
        Some(k) => Some(crate::bytes::copy_bytes(k.as_slice())),
        None => None,
    };
    HandshakeMetadata { sender_identity: crate::bytes::copy_bytes(identity_key), one_time_pre_key }
}

/// The header of the next outbound envelope. `handshake` is the metadata of
/// a session created by this send, and only then given: it rides on the
/// session's first envelope alone.
pub fn outbound_header(state: &RatchetState, handshake: Option<HandshakeMetadata>) -> (r: Result<Header, RatchetError>)
    ensures
        match r {
            Ok(h) => {
                &&& state.sending_chain is Some
                &&& state.ns < u64::MAX
                &&& h.remote@ == state.own_ratchet_public@
                &&& h.n == state.ns
                &&& h.pn == state.pn
                &&& h.handshake == handshake
            },
            Err(e) => (state.sending_chain is None && e == RatchetError::NoSendingChain) || (
            state.sending_chain is Some && state.ns == u64::MAX && e == RatchetError::CounterExhausted),
        },
{
    match state.next_send() {
        Ok((n, pn)) => Ok(
            Header {
                remote: crate::bytes::copy_bytes(state.own_ratchet_public.as_slice()),
                n,
                pn,
                handshake,
            },
        ),
        Err(e) => Err(e),
    }
}

} // verus!
