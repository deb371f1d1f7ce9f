use vstd::prelude::*;

use crate::envelope::{base64_bytes, decode_base64, KEY_LEN};

verus! {

/// Length of a signed pre-key signature.
pub const SIGNATURE_LEN: usize = 64;

/// A key bundle as the relay publishes it: base64 fields, any of them absent.
pub struct RawKeyBundle {
    pub identity_key: Option<String>,
    pub signed_pre_key: Option<String>,
    pub signed_pre_key_signature: Option<String>,
    pub one_time_pre_key: Option<String>,
}

/// One device of a peer and its published bundle.
pub struct DeviceKeyBundle {
    pub device_id: u64,
    pub key_bundle: RawKeyBundle,
}

/// A validated key bundle.
pub struct KeyBundle {
    pub identity_key: Vec<u8>,
    pub signed_pre_key: Vec<u8>,
    pub signed_pre_key_signature: Vec<u8>,
    pub one_time_pre_key: Option<Vec<u8>>,
}

#[derive(Clone, Copy, PartialEq, Eq, Debug, Structural)]
pub enum BundleField {
    IdentityKey,
    SignedPreKey,
    Signature,
}

/// Why a published key bundle was refused.
#[derive(Clone, Copy, PartialEq, Eq, Debug, Structural)]
pub enum BundleError {
    /// The peer advertises no device.
    NoDevices,
    Missing(BundleField),
    BadEncoding(BundleField),
    BadLength(BundleField),
}

pub open spec fn text_of(o: Option<String>) -> Option<Seq<char>> {
    match o {
        Some(s) => Some(s@),
        None => None,
    }
}

/// A required field: present, valid base64, of length `len`.
pub open spec fn field_bytes(text: Seq<char>, len: nat, which: BundleField) -> Result<Seq<u8>, BundleError> {
    match base64_bytes(text) {
        None => Err(BundleError::BadEncoding(which)),
        Some(b) => if b.len() == len {
            Ok(b)
        } else {
            Err(BundleError::BadLength(which))
        },
    }
}

/// The optional one-time pre-key: kept only where it is valid.
pub open spec fn optional_key(text: Option<Seq<char>>) -> Option<Seq<u8>> {
    match text {
        Some(t) => match base64_bytes(t) {
            Some(b) => if b.len() == KEY_LEN {
                Some(b)
            } else {
                None
            },
            None => None,
        },
        None => None,
    }
}

pub struct KeyBundleView {
    pub identity_key: Seq<u8>,
    pub signed_pre_key: Seq<u8>,
    pub signed_pre_key_signature: Seq<u8>,
    pub one_time_pre_key: Option<Seq<u8>>,
}

impl View for KeyBundle {
    type V = KeyBundleView;

    open spec fn view(&self) -> KeyBundleView {
        KeyBundleView {
            identity_key: self.identity_key@,
            signed_pre_key: self.signed_pre_key@,
            signed_pre_key_signature: self.signed_pre_key_signature@,
            one_time_pre_key: match self.one_time_pre_key {
                Some(k) => Some(k@),
                None => None,
            },
        }
    }
}

/// The bundle of the first device: fields are checked for presence first,
/// then decoded and length-checked in order.
pub open spec fn bundle_of(devices: Seq<DeviceKeyBundle>) -> Result<KeyBundleView, BundleError> {
    if devices.len() == 0 {
        Err(BundleError::NoDevices)
    } else {
        let kb = devices[0].key_bundle;
        match (text_of(kb.identity_key), text_of(kb.signed_pre_key), text_of(kb.signed_pre_key_signature)) {
            (None, _, _) => Err(BundleError::Missing(BundleField::IdentityKey)),
            (Some(_), None, _) => Err(BundleError::Missing(BundleField::SignedPreKey)),
            (Some(_), Some(_), None) => Err(BundleError::Missing(BundleField::Signature)),
            (Some(ik), Some(spk), Some(sig)) => match field_bytes(ik, KEY_LEN as nat, BundleField::IdentityKey) {
                Err(e) => Err(e),
                Ok(ikb) => match field_bytes(spk, KEY_LEN as nat, BundleField::SignedPreKey) {
                    Err(e) => Err(e),
                    Ok(spkb) => match field_bytes(sig, SIGNATURE_LEN as nat, BundleField::Signature) {
                        Err(e) => Err(e),
                        Ok(sigb) => Ok(
                            KeyBundleView {
                                identity_key: ikb,
                                signed_pre_key: spkb,
                                signed_pre_key_signature: sigb,
                                one_time_pre_key: optional_key(text_of(kb.one_time_pre_key)),
                            },
                        ),
                    },
                },
            },
        }
    }
}

fn decode_field(text: &String, len: usize, which: BundleField) -> (r: Result<Vec<u8>, BundleError>)
    ensures
        match r {
            Ok(b) => field_bytes(text@, len as nat, which) == Ok::<Seq<u8>, BundleError>(b@),
            Err(e) => field_bytes(text@, len as nat, which) == Err::<Seq<u8>, BundleError>(e),
        },
{
    match decode_base64(text.as_str()) {
        None => Err(BundleError::BadEncoding(which)),
        Some(b) => if b.len() == len {
            Ok(b)
        } else {
            Err(BundleError::BadLength(which))
        },
    }
}

/// Validates the key bundle of a peer's first device (a single device per
/// peer is addressed).
pub fn parse_key_bundle(devices: &Vec<DeviceKeyBundle>) -> (r: Result<KeyBundle, BundleError>)
    ensures
        match r {
            Ok(b) => bundle_of(devices@) == Ok::<KeyBundleView, BundleError>(b@),
            Err(e) => bundle_of(devices@) == Err::<KeyBundleView, BundleError>(e),
        },
{
    if devices.len() == 0 {
        return Err(BundleError::NoDevices);
    }
    let kb = &devices[0].key_bundle;
    let ik_text = match &kb.identity_key {
        Some(t) => t,
        None => {
            return Err(BundleError::Missing(BundleField::IdentityKey));
        },
    };
    let spk_text = match &kb.signed_pre_key {
        Some(t) => t,
        None => {
            return Err(BundleError::Missing(BundleField::SignedPreKey));
        },
    };
    let sig_text = match &kb.signed_pre_key_signature {
        Some(t) => t,
        None => {
            return Err(BundleError::Missing(BundleField::Signature));
        },
    };
    let identity_key = match decode_field(ik_text, KEY_LEN, BundleField::IdentityKey) {
        Ok(b) => b,
        Err(e) => {
            return Err(e);
        },
    };
    let signed_pre_key = match decode_field(spk_text, KEY_LEN, BundleField::SignedPreKey) {
        Ok(b) => b,
        Err(e) => {
            return Err(e);
        },
    };
    let signed_pre_key_signature = match decode_field(sig_text, SIGNATURE_LEN, BundleField::Signature) {
        Ok(b) => b,
        Err(e) => {
            return Err(e);
        },
    };
    let one_time_pre_key = match &kb.one_time_pre_key {
        Some(t) => match decode_base64(t.as_str()) {
            Some(b) => if b.len() == KEY_LEN {
                Some(b)
            } else {
                None
            },
            None => None,
        },
        None => None,
    };
    Ok(KeyBundle { identity_key, signed_pre_key, signed_pre_key_signature, one_time_pre_key })
}

} // verus!
