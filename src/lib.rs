//! Client-side session engine of an end-to-end encrypted messenger.
//!
//! It holds the skipped-message-key cache, the replay guard and the ratchet
//! bookkeeping, the envelope codec, key-bundle validation, peer resolution
//! and the session directory. The cryptographic primitives (key agreement,
//! key derivation, authenticated encryption) stay with a primitive provider:
//! their results come in as key material, and the functions here decide what
//! has to be derived and record it.

pub mod bundle;
pub mod bytes;
pub mod cli;
pub mod envelope;
pub mod peer;
pub mod pipeline;
pub mod ratchet;
pub mod session;
pub mod skipped;

pub use bundle::{
    parse_key_bundle, BundleError, BundleField, DeviceKeyBundle, KeyBundle, RawKeyBundle,
    SIGNATURE_LEN,
};
pub use cli::{
    chat_command, ensure_logged_in, ensure_server_configured, get_db_path, truncate, ChatCommand,
    CliError,
};
pub use envelope::{
    authenticated_data, decode_header, encode_header, open_envelope, seal_envelope, to_base64,
    Envelope, EnvelopeError, HandshakeMetadata, Header, WireEnvelope, ASSOCIATED_DATA_LEN,
    HEADER_VERSION, KEY_LEN,
};
pub use peer::{
    resolve_and_record, resolve_peer, DirectoryDevice, DirectoryUser, PeerDirectory, PeerError,
    PeerMapping,
};
pub use pipeline::{handshake_for, inbound_action, outbound_header, InboundAction, InboundError};
pub use ratchet::{
    ChainAdvance, Delivery, InboundStep, RatchetError, RatchetState, RatchetTurn, SessionRole,
    StateError, MAX_SKIP, STATE_VERSION,
};
pub use session::{session_key, SessionDirectory, SessionEntry};
pub use skipped::{SkippedKey, SkippedKeyCache, MAX_CACHED_KEYS};
