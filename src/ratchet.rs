use vstd::prelude::*;

use crate::skipped::{
    cached_key, drop_range, keep_remote, key_views, lemma_cached_key_at, lemma_drop_complete,
    lemma_drop_sound, lemma_drop_unique, lemma_keep_sound, lemma_keep_unique, stored,
    SkippedKeyCache,
};

verus! {

/// Most message keys one envelope may make the receiver derive ahead.
pub const MAX_SKIP: u64 = 1000;

/// Which side created the session.
#[derive(Clone, Copy, PartialEq, Eq, Debug, Structural)]
pub enum SessionRole {
    /// Created on the outbound path, from the peer's key bundle.
    Initiator,
    /// Created on the inbound path, from an envelope's handshake metadata.
    Responder,
}

/// Per-conversation ratchet state. Key material is opaque bytes produced by
/// the primitive provider; this type keeps the counters, the remote ratchet
/// keys and the skipped-message-key cache.
pub struct RatchetState {
    pub role: SessionRole,
    pub root_key: Vec<u8>,
    pub own_ratchet_secret: Vec<u8>,
    pub own_ratchet_public: Vec<u8>,
    pub sending_chain: Option<Vec<u8>>,
    /// Next counter to send.
    pub ns: u64,
    pub receiving_chain: Option<Vec<u8>>,
    /// Next counter expected on the receiving chain.
    pub nr: u64,
    /// Length of the previous sending chain.
    pub pn: u64,
    /// Current remote ratchet public key.
    pub remote: Option<Vec<u8>>,
    /// Remote ratchet public key before the current one.
    pub previous_remote: Option<Vec<u8>>,
    pub skipped: SkippedKeyCache,
}

/// How an inbound envelope stands against a session.
#[derive(Clone, Copy, PartialEq, Eq, Debug, Structural)]
pub enum Delivery {
    /// Already received or past use: dropped without any change.
    Stale,
    /// Its key is in the skipped-message-key cache.
    SkipHit,
    /// Not seen yet: the ratchet has to derive its key.
    Fresh,
}

/// What the primitive provider has to derive for an inbound envelope.
#[derive(Clone, Copy, PartialEq, Eq, Debug, Structural)]
pub enum InboundStep {
    Stale,
    SkipHit,
    /// Same receiving chain: cache the keys of counters `[skip_from, skip_to)`,
    /// then decrypt with the key of counter `skip_to`.
    Advance { skip_from: u64, skip_to: u64 },
    /// New remote ratchet key: cache the old chain's keys for `[old_from, old_to)`,
    /// turn the ratchet, cache the new chain's keys for `[0, new_to)` and decrypt
    /// with the key of counter `new_to`.
    Turn { old_from: u64, old_to: u64, new_to: u64 },
    /// The envelope cannot belong to this session.
    Invalid,
}

/// Version of the persisted ratchet-state record.
pub const STATE_VERSION: u32 = 1;

/// A persisted ratchet state that cannot be used.
#[derive(Clone, Copy, PartialEq, Eq, Debug, Structural)]
pub enum StateError {
    /// Unknown record version, or a state that breaks the ratchet's invariant.
    CorruptState,
}

/// Why an inbound commit or an outbound step was refused.
#[derive(Clone, Copy, PartialEq, Eq, Debug, Structural)]
pub enum RatchetError {
    /// The derived material does not fit the step the state calls for.
    Mismatch,
    /// The session has no sending chain yet.
    NoSendingChain,
    /// The sending counter is exhausted.
    CounterExhausted,
}

/// Keys the provider derived for an `Advance` step.
pub struct ChainAdvance {
    /// Message keys for the skipped counters, in order.
    pub skipped_keys: Vec<Vec<u8>>,
    /// Receiving chain key after the envelope's own counter.
    pub next_chain_key: Vec<u8>,
}

/// Keys the provider derived for a `Turn` step.
pub struct RatchetTurn {
    /// Message keys for the rest of the old receiving chain, in order.
    pub old_chain_keys: Vec<Vec<u8>>,
    /// Message keys for the skipped counters of the new chain, in order.
    pub new_chain_keys: Vec<Vec<u8>>,
    /// Receiving chain key after the envelope's own counter.
    pub next_chain_key: Vec<u8>,
    pub root_key: Vec<u8>,
    pub own_ratchet_secret: Vec<u8>,
    pub own_ratchet_public: Vec<u8>,
    pub sending_chain: Vec<u8>,
}

pub open spec fn key_is(k: Option<Vec<u8>>, r: Seq<u8>) -> bool {
    k is Some && k->0@ == r
}

/// The replay guard: a cached key wins; otherwise a counter below `nr` on
/// the current chain, or anything on the previous chain, is stale.
pub open spec fn delivery_of(s: RatchetState, remote: Seq<u8>, n: u64) -> Delivery {
    if cached_key(s.skipped@, remote, n) is Some {
        Delivery::SkipHit
    } else if (key_is(s.remote, remote) && n < s.nr) || key_is(s.previous_remote, remote) {
        Delivery::Stale
    } else {
        Delivery::Fresh
    }
}

/// End of the old chain's run to cache on a turn.
pub open spec fn old_chain_end(s: RatchetState, pn: u64) -> u64 {
    if s.receiving_chain is Some && pn > s.nr {
        pn
    } else {
        s.nr
    }
}

pub open spec fn inbound_step_of(s: RatchetState, remote: Seq<u8>, n: u64, pn: u64) -> InboundStep {
    match delivery_of(s, remote, n) {
        Delivery::Stale => InboundStep::Stale,
        Delivery::SkipHit => InboundStep::SkipHit,
        Delivery::Fresh => {
            if n == u64::MAX {
                InboundStep::Invalid
            } else if key_is(s.remote, remote) {
                if s.receiving_chain is None || n - s.nr > MAX_SKIP {
                    InboundStep::Invalid
                } else {
                    InboundStep::Advance { skip_from: s.nr, skip_to: n }
                }
            } else if old_chain_end(s, pn) - s.nr > MAX_SKIP || n > MAX_SKIP {
                InboundStep::Invalid
            } else {
                InboundStep::Turn { old_from: s.nr, old_to: old_chain_end(s, pn), new_to: n }
            }
        },
    }
}

/// Everything but the cache is equal.
pub open spec fn same_but_cache(a: RatchetState, b: RatchetState) -> bool {
    &&& a.role == b.role
    &&& a.root_key == b.root_key
    &&& a.own_ratchet_secret == b.own_ratchet_secret
    &&& a.own_ratchet_public == b.own_ratchet_public
    &&& a.sending_chain == b.sending_chain
    &&& a.ns == b.ns
    &&& a.receiving_chain == b.receiving_chain
    &&& a.nr == b.nr
    &&& a.pn == b.pn
    &&& a.remote == b.remote
    &&& a.previous_remote == b.previous_remote
}

/// `new` is `old` after the cached key for `remote` and `n` was used.
pub open spec fn consumed(old: RatchetState, new: RatchetState, remote: Seq<u8>, n: u64) -> bool {
    &&& same_but_cache(old, new)
    &&& new.skipped@ == drop_range(old.skipped@, remote, n as int, n + 1)
}

/// `new` is `old` after an `Advance` step to counter `n` on chain `remote`.
pub open spec fn advanced(
    old: RatchetState,
    new: RatchetState,
    remote: Seq<u8>,
    n: u64,
    keys: Seq<Seq<u8>>,
    next_chain_key: Seq<u8>,
) -> bool {
    &&& new.role == old.role
    &&& new.root_key == old.root_key
    &&& new.own_ratchet_secret == old.own_ratchet_secret
    &&& new.own_ratchet_public == old.own_ratchet_public
    &&& new.sending_chain == old.sending_chain
    &&& new.ns == old.ns
    &&& new.pn == old.pn
    &&& new.remote == old.remote
    &&& new.previous_remote == old.previous_remote
    &&& new.receiving_chain is Some && new.receiving_chain->0@ == next_chain_key
    &&& new.nr == n + 1
    &&& new.skipped@ == stored(old.skipped@, remote, old.nr, keys)
}

/// `new` is `old` after a `Turn` step to counter `n` on the new chain `remote`.
pub open spec fn turned(
    old: RatchetState,
    new: RatchetState,
    remote: Seq<u8>,
    n: u64,
    pn: u64,
    t: RatchetTurn,
) -> bool {
    &&& new.role == old.role
    &&& new.root_key == t.root_key
    &&& new.own_ratchet_secret == t.own_ratchet_secret
    &&& new.own_ratchet_public == t.own_ratchet_public
    &&& new.sending_chain == Some(t.sending_chain)
    &&& new.ns == 0
    &&& new.pn == old.ns
    &&& key_is(new.remote, remote)
    &&& new.previous_remote == old.remote
    &&& new.receiving_chain == Some(t.next_chain_key)
    &&& new.nr == n + 1
    &&& new.skipped@ == stored(turn_kept(old, t), remote, 0, key_views(t.new_chain_keys@))
}

/// What a turn keeps of the cache: with the rest of the old chain stored,
/// the keys of the old chain, which becomes the previous one. Keys of older
/// chains are evicted.
pub open spec fn turn_kept(old: RatchetState, t: RatchetTurn) -> Seq<(Seq<u8>, u64, Seq<u8>)> {
    if old.remote is Some {
        keep_remote(
            stored(old.skipped@, old.remote->0@, old.nr, key_views(t.old_chain_keys@)),
            old.remote->0@,
        )
    } else {
        Seq::empty()
    }
}

fn key_matches(k: &Option<Vec<u8>>, r: &[u8]) -> (b: bool)
    ensures
        b == key_is(*k, r@),
{
    match k {
        Some(v) => crate::bytes::bytes_equal(v.as_slice(), r),
        None => false,
    }
}

impl RatchetState {
    /// Well-formed: the cache is; it holds keys of the current and the
    /// previous chain only, and of the current chain only for counters
    /// below `nr`.
    pub open spec fn wf(&self) -> bool {
        &&& self.skipped.wf()
        &&& forall|i: int|
            0 <= i < self.skipped@.len() && key_is(self.remote, #[trigger] self.skipped@[i].0)
                ==> self.skipped@[i].1 < self.nr
        &&& forall|i: int|
            0 <= i < self.skipped@.len() ==> key_is(self.remote, #[trigger] self.skipped@[i].0)
                || key_is(self.previous_remote, self.skipped@[i].0)
    }

    /// Accepts a state read back from storage: the record version must be
    /// `STATE_VERSION` and the state well-formed.
    pub fn restore(version: u32, state: RatchetState) -> (r: Result<RatchetState, StateError>)
        ensures
            r is Ok <==> (version == STATE_VERSION && state.wf()),
            match r {
                Ok(s) => s == state,
                Err(e) => e == StateError::CorruptState,
            },
    {
        if version != STATE_VERSION || !state.check_wf() {
            return Err(StateError::CorruptState);
        }
        Ok(state)
    }

    fn check_wf(&self) -> (r: bool)
        ensures
            r == self.wf(),
    {
        if !self.skipped.check_wf() {
            return false;
        }
        let n = self.skipped.len();
        let mut i: usize = 0;
        while i < n
            invariant
                n == self.skipped@.len(),
                i <= n,
                forall|k: int|
                    0 <= k < i && key_is(self.remote, #[trigger] self.skipped@[k].0) ==> self.skipped@[k].1 < self.nr,
                forall|k: int|
                    0 <= k < i ==> key_is(self.remote, #[trigger] self.skipped@[k].0) || key_is(
                        self.previous_remote,
                        self.skipped@[k].0,
                    ),
            decreases n - i,
        {
            let e = self.skipped.entry(i);
            let current = key_matches(&self.remote, e.remote.as_slice());
            if current && e.counter >= self.nr {
                assert(key_is(self.remote, self.skipped@[i as int].0));
                return false;
            }
            if !current && !key_matches(&self.previous_remote, e.remote.as_slice()) {
                assert(!key_is(self.remote, self.skipped@[i as int].0));
                return false;
            }
            i = i + 1;
        }
        true
    }

    /// A session created on the outbound path: the provider's key agreement
    /// gave the root key, the own ratchet key pair and the first sending
    /// chain, against the peer's published ratchet key.
    pub fn new_initiator(
        root_key: Vec<u8>,
        own_ratchet_secret: Vec<u8>,
        own_ratchet_public: Vec<u8>,
        peer_ratchet_public: Vec<u8>,
        sending_chain: Vec<u8>,
    ) -> (s: RatchetState)
        ensures
            s.wf(),
            s.role == SessionRole::Initiator,
            s.root_key == root_key,
            s.own_ratchet_secret == own_ratchet_secret,
            s.own_ratchet_public == own_ratchet_public,
            s.sending_chain == Some(sending_chain),
            s.ns == 0 && s.nr == 0 && s.pn == 0,
            s.receiving_chain is None,
            s.remote == Some(peer_ratchet_public),
            s.previous_remote is None,
            s.skipped@.len() == 0,
    {
        RatchetState {
            role: SessionRole::Initiator,
            root_key,
            own_ratchet_secret,
            own_ratchet_public,
            sending_chain: Some(sending_chain),
            ns: 0,
            receiving_chain: None,
            nr: 0,
            pn: 0,
            remote: Some(peer_ratchet_public),
            previous_remote: None,
            skipped: SkippedKeyCache::new(),
        }
    }

    /// A session created on the inbound path: the provider's key agreement
    /// gave the root key; the own ratchet key pair is the signed pre-key.
    /// No chain exists until the first envelope turns the ratchet.
    pub fn new_responder(root_key: Vec<u8>, own_ratchet_secret: Vec<u8>, own_ratchet_public: Vec<u8>) -> (s: RatchetState)
        ensures
            s.wf(),
            s.role == SessionRole::Responder,
            s.root_key == root_key,
            s.own_ratchet_secret == own_ratchet_secret,
            s.own_ratchet_public == own_ratchet_public,
            s.sending_chain is None && s.receiving_chain is None,
            s.ns == 0 && s.nr == 0 && s.pn == 0,
            s.remote is None && s.previous_remote is None,
            s.skipped@.len() == 0,
    {
        RatchetState {
            role: SessionRole::Responder,
            root_key,
            own_ratchet_secret,
            own_ratchet_public,
            sending_chain: None,
            ns: 0,
            receiving_chain: None,
            nr: 0,
            pn: 0,
            remote: None,
            previous_remote: None,
            skipped: SkippedKeyCache::new(),
        }
    }

    /// The replay guard, before any mutation.
    pub fn classify(&self, remote: &[u8], n: u64) -> (d: Delivery)
        requires
            self.wf(),
        ensures
            d == delivery_of(*self, remote@, n),
    {
        match self.skipped.find(remote, n) {
            Some(i) => {
                proof {
                    lemma_cached_key_at(self.skipped@, i as int);
                }
                Delivery::SkipHit
            },
            None => {
                if (key_matches(&self.remote, remote) && n < self.nr) || key_matches(
                    &self.previous_remote,
                    remote,
                ) {
                    Delivery::Stale
                } else {
                    Delivery::Fresh
                }
            },
        }
    }

    /// What has to be derived for an envelope with ratchet key `remote`,
    /// counter `n` and previous chain length `pn`.
    pub fn inbound_step(&self, remote: &[u8], n: u64, pn: u64) -> (st: InboundStep)
        requires
            self.wf(),
        ensures
            st == inbound_step_of(*self, remote@, n, pn),
    {
        match self.classify(remote, n) {
            Delivery::Stale => InboundStep::Stale,
            Delivery::SkipHit => InboundStep::SkipHit,
            Delivery::Fresh => {
                if n == u64::MAX {
                    InboundStep::Invalid
                } else if key_matches(&self.remote, remote) {
                    if self.receiving_chain.is_none() || n - self.nr > MAX_SKIP {
                        InboundStep::Invalid
                    } else {
                        InboundStep::Advance { skip_from: self.nr, skip_to: n }
                    }
                } else {
                    let old_to = if self.receiving_chain.is_some() && pn > self.nr {
                        pn
                    } else {
                        self.nr
                    };
                    if old_to - self.nr > MAX_SKIP || n > MAX_SKIP {
                        InboundStep::Invalid
                    } else {
                        InboundStep::Turn { old_from: self.nr, old_to, new_to: n }
                    }
                }
            },
        }
    }

    /// Uses the cached key for `remote` and `n`: it is removed and returned.
    pub fn take_skipped(&mut self, remote: &[u8], n: u64) -> (k: Option<Vec<u8>>)
        requires
            old(self).wf(),
        ensures
            final(self).wf(),
            consumed(*old(self), *final(self), remote@, n),
            match k {
                Some(key) => cached_key(old(self).skipped@, remote@, n) == Some(key@),
                None => cached_key(old(self).skipped@, remote@, n) is None,
            },
    {
        proof {
            lemma_drop_sound(self.skipped@, remote@, n as int, n + 1);
        }
        self.skipped.take(remote, n)
    }

    /// Records an `Advance` step to counter `n` on the current chain.
    pub fn commit_advance(&mut self, remote: &[u8], n: u64, adv: ChainAdvance) -> (r: Result<(), RatchetError>)
        requires
            old(self).wf(),
        ensures
            final(self).wf(),
            r is Ok <==> (inbound_step_of(*old(self), remote@, n, 0) == (InboundStep::Advance {
                skip_from: old(self).nr,
                skip_to: n,
            }) && adv.skipped_keys@.len() == n - old(self).nr),
            r is Ok ==> advanced(
                *old(self),
                *final(self),
                remote@,
                n,
                key_views(adv.skipped_keys@),
                adv.next_chain_key@,
            ),
            r is Err ==> *final(self) == *old(self),
    {
        let st = self.inbound_step(remote, n, 0);
        match st {
            InboundStep::Advance { skip_from, skip_to } => {
                if skip_to != n || adv.skipped_keys.len() as u64 != n - self.nr {
                    return Err(RatchetError::Mismatch);
                }
            },
            _ => {
                return Err(RatchetError::Mismatch);
            },
        }
        let ghost s0 = *self;
        let ghost kv = key_views(adv.skipped_keys@);
        let lo = self.nr;
        self.skipped.store_run(remote, lo, adv.skipped_keys);
        self.nr = n + 1;
        self.receiving_chain = Some(adv.next_chain_key);
        proof {
            lemma_stored_counters(s0.skipped@, remote@, lo, kv);
            assert forall|i: int|
                0 <= i < self.skipped@.len() && key_is(self.remote, #[trigger] self.skipped@[i].0)
                    implies self.skipped@[i].1 < self.nr by {
                let e = self.skipped@[i];
                if !(e.0 == remote@ && lo <= e.1 < lo + kv.len()) {
                    let j = choose|j: int| 0 <= j < s0.skipped@.len() && #[trigger] s0.skipped@[j] == e;
                }
            }
            assert forall|i: int| 0 <= i < self.skipped@.len() implies key_is(self.remote, #[trigger] self.skipped@[i].0)
                || key_is(self.previous_remote, self.skipped@[i].0) by {
                let e = self.skipped@[i];
                if !(e.0 == remote@ && lo <= e.1 < lo + kv.len()) {
                    let j = choose|j: int| 0 <= j < s0.skipped@.len() && #[trigger] s0.skipped@[j] == e;
                }
            }
        }
        Ok(())
    }

    /// Records a `Turn` step to counter `n` on the new chain `remote`.
    pub fn commit_turn(&mut self, remote: &[u8], n: u64, pn: u64, t: RatchetTurn) -> (r: Result<(), RatchetError>)
        requires
            old(self).wf(),
        ensures
            final(self).wf(),
            r is Ok <==> (inbound_step_of(*old(self), remote@, n, pn) == (InboundStep::Turn {
                old_from: old(self).nr,
                old_to: old_chain_end(*old(self), pn),
                new_to: n,
            }) && t.old_chain_keys@.len() == old_chain_end(*old(self), pn) - old(self).nr
                && t.new_chain_keys@.len() == n && (old(self).remote is None ==> t.old_chain_keys@.len() == 0)),
            r is Ok ==> turned(*old(self), *final(self), remote@, n, pn, t),
            r is Err ==> *final(self) == *old(self),
    {
        let st = self.inbound_step(remote, n, pn);
        match st {
            InboundStep::Turn { old_from, old_to, new_to } => {
                if new_to != n || t.old_chain_keys.len() as u64 != old_to - self.nr
                    || t.new_chain_keys.len() as u64 != n || (self.remote.is_none()
                    && t.old_chain_keys.len() != 0) {
                    return Err(RatchetError::Mismatch);
                }
            },
            _ => {
                return Err(RatchetError::Mismatch);
            },
        }
        let ghost s0 = *self;
        let ghost t0 = t;
        let RatchetTurn {
            old_chain_keys,
            new_chain_keys,
            next_chain_key,
            root_key,
            own_ratchet_secret,
            own_ratchet_public,
            sending_chain,
        } = t;
        match &self.remote {
            Some(old_remote) => {
                self.skipped.store_run(old_remote.as_slice(), self.nr, old_chain_keys);
                let ghost with_old = self.skipped@;
                self.skipped.retain_remote(old_remote.as_slice());
                proof {
                    lemma_keep_sound(with_old, old_remote@);
                }
            },
            None => {
                self.skipped = SkippedKeyCache::new();
            },
        }
        let ghost kept = self.skipped@;
        assert(kept == turn_kept(s0, t0));
        self.skipped.store_run(remote, 0, new_chain_keys);
        self.previous_remote = self.remote.take();
        self.remote = Some(crate::bytes::copy_bytes(remote));
        self.pn = self.ns;
        self.ns = 0;
        self.nr = n + 1;
        self.root_key = root_key;
        self.own_ratchet_secret = own_ratchet_secret;
        self.own_ratchet_public = own_ratchet_public;
        self.sending_chain = Some(sending_chain);
        self.receiving_chain = Some(next_chain_key);
        proof {
            lemma_stored_counters(kept, remote@, 0, key_views(t0.new_chain_keys@));
            assert forall|i: int|
                0 <= i < self.skipped@.len() && key_is(self.remote, #[trigger] self.skipped@[i].0)
                    implies self.skipped@[i].1 < self.nr by {
                let e = self.skipped@[i];
                if !(e.0 == remote@ && 0 <= e.1 < n) {
                    let j = choose|j: int| 0 <= j < kept.len() && #[trigger] kept[j] == e && !(kept[j].0 == remote@ && 0 <= kept[j].1 < n);
                    assert(kept[j].0 == s0.remote->0@);
                }
            }
            assert forall|i: int| 0 <= i < self.skipped@.len() implies key_is(self.remote, #[trigger] self.skipped@[i].0)
                || key_is(self.previous_remote, self.skipped@[i].0) by {
                let e = self.skipped@[i];
                if !(e.0 == remote@ && 0 <= e.1 < n) {
                    let j = choose|j: int| 0 <= j < kept.len() && #[trigger] kept[j] == e && !(kept[j].0 == remote@ && 0 <= kept[j].1 < n);
                    assert(kept[j].0 == s0.remote->0@);
                }
            }
        }
        Ok(())
    }

    /// The header fields of the next outbound envelope: own ratchet key,
    /// counter `ns` and previous chain length `pn`.
    pub fn next_send(&self) -> (r: Result<(u64, u64), RatchetError>)
        ensures
            match r {
                Ok((n, pn)) => self.sending_chain is Some && self.ns < u64::MAX && n == self.ns && pn == self.pn,
                Err(e) => (self.sending_chain is None && e == RatchetError::NoSendingChain) || (self.sending_chain is Some && self.ns == u64::MAX && e == RatchetError::CounterExhausted),
            },
    {
        if self.sending_chain.is_none() {
            Err(RatchetError::NoSendingChain)
        } else if self.ns == u64::MAX {
            Err(RatchetError::CounterExhausted)
        } else {
            Ok((self.ns, self.pn))
        }
    }

    /// Records one sent message: the sending chain moves on and `ns` grows by one.
    pub fn commit_send(&mut self, next_chain_key: Vec<u8>) -> (r: Result<(), RatchetError>)
        requires
            old(self).wf(),
        ensures
            final(self).wf(),
            r is Ok <==> (old(self).sending_chain is Some && old(self).ns < u64::MAX),
            r is Ok ==> {
                &&& final(self).ns == old(self).ns + 1
                &&& final(self).sending_chain == Some(next_chain_key)
                &&& final(self).role == old(self).role
                &&& final(self).root_key == old(self).root_key
                &&& final(self).own_ratchet_secret == old(self).own_ratchet_secret
                &&& final(self).own_ratchet_public == old(self).own_ratchet_public
                &&& final(self).receiving_chain == old(self).receiving_chain
                &&& final(self).nr == old(self).nr
                &&& final(self).pn == old(self).pn
                &&& final(self).remote == old(self).remote
                &&& final(self).previous_remote == old(self).previous_remote
                &&& final(self).skipped@ == old(self).skipped@
            },
            r is Err ==> *final(self) == *old(self),
    {
        match self.next_send() {
            Ok(_) => {
                self.ns = self.ns + 1;
                self.sending_chain = Some(next_chain_key);
                Ok(())
            },
            Err(e) => Err(e),
        }
    }
}

/// A delivery that advanced the current chain to counter `n` cannot be
/// delivered again: the same envelope is then stale.
pub proof fn lemma_advance_then_stale(
    old: RatchetState,
    new: RatchetState,
    remote: Seq<u8>,
    n: u64,
    keys: Seq<Seq<u8>>,
    next_chain_key: Seq<u8>,
)
    requires
        old.wf(),
        inbound_step_of(old, remote, n, 0) == (InboundStep::Advance { skip_from: old.nr, skip_to: n }),
        keys.len() == n - old.nr,
        advanced(old, new, remote, n, keys, next_chain_key),
    ensures
        delivery_of(new, remote, n) == Delivery::Stale,
{
    lemma_stored_counters(old.skipped@, remote, old.nr, keys);
    if cached_key(new.skipped@, remote, n) is Some {
        let i = choose|i: int| 0 <= i < new.skipped@.len() && #[trigger] new.skipped@[i].0 == remote && new.skipped@[i].1 == n;
        let e = new.skipped@[i];
        if !(e.0 == remote && old.nr <= e.1 < old.nr + keys.len()) {
            let j = choose|j: int| 0 <= j < old.skipped@.len() && #[trigger] old.skipped@[j] == e && !(old.skipped@[j].0 == remote && old.nr <= old.skipped@[j].1 < old.nr + keys.len());
            assert(key_is(old.remote, old.skipped@[j].0));
        }
    }
}

/// A delivery that turned the ratchet to the new chain `remote` at counter
/// `n` cannot be delivered again: the same envelope is then stale.
pub proof fn lemma_turn_then_stale(
    old: RatchetState,
    new: RatchetState,
    remote: Seq<u8>,
    n: u64,
    pn: u64,
    t: RatchetTurn,
)
    requires
        old.wf(),
        n < u64::MAX,
        !key_is(old.remote, remote),
        t.new_chain_keys@.len() == n,
        t.old_chain_keys@.len() <= u64::MAX - old.nr,
        turned(old, new, remote, n, pn, t),
    ensures
        delivery_of(new, remote, n) == Delivery::Stale,
{
    let kept = turn_kept(old, t);
    if old.remote is Some {
        lemma_keep_sound(
            stored(old.skipped@, old.remote->0@, old.nr, key_views(t.old_chain_keys@)),
            old.remote->0@,
        );
    }
    lemma_stored_counters(kept, remote, 0, key_views(t.new_chain_keys@));
    if cached_key(new.skipped@, remote, n) is Some {
        let i = choose|i: int| 0 <= i < new.skipped@.len() && #[trigger] new.skipped@[i].0 == remote && new.skipped@[i].1 == n;
        let e = new.skipped@[i];
        if !(e.0 == remote && 0 <= e.1 < n) {
            let j = choose|j: int| 0 <= j < kept.len() && #[trigger] kept[j] == e && !(kept[j].0 == remote && 0 <= kept[j].1 < n);
        }
    }
}

/// A message served from the cache cannot be delivered again: the same
/// envelope is then stale.
pub proof fn lemma_skip_hit_then_stale(old: RatchetState, new: RatchetState, remote: Seq<u8>, n: u64)
    requires
        old.wf(),
        delivery_of(old, remote, n) == Delivery::SkipHit,
        consumed(old, new, remote, n),
    ensures
        delivery_of(new, remote, n) == Delivery::Stale,
{
    let i0 = choose|i: int| 0 <= i < old.skipped@.len() && #[trigger] old.skipped@[i].0 == remote && old.skipped@[i].1 == n;
    assert(key_is(old.remote, remote) || key_is(old.previous_remote, remote));
    assert(key_is(old.remote, remote) ==> n < old.nr);
    lemma_drop_sound(old.skipped@, remote, n as int, n + 1);
    if cached_key(new.skipped@, remote, n) is Some {
        let i = choose|i: int| 0 <= i < new.skipped@.len() && #[trigger] new.skipped@[i].0 == remote && new.skipped@[i].1 == n;
        let e = new.skipped@[i];
        let j = choose|j: int| 0 <= j < old.skipped@.len() && new.skipped@[i] == #[trigger] old.skipped@[j] && !(old.skipped@[j].0 == remote && n <= old.skipped@[j].1 < n + 1);
    }
}

/// After an `Advance` step to counter `n`, every skipped counter of the chain
/// is served from the cache, with the key derived for it.
pub proof fn lemma_advance_caches_gap(
    old: RatchetState,
    new: RatchetState,
    remote: Seq<u8>,
    n: u64,
    keys: Seq<Seq<u8>>,
    next_chain_key: Seq<u8>,
)
    requires
        old.wf(),
        inbound_step_of(old, remote, n, 0) == (InboundStep::Advance { skip_from: old.nr, skip_to: n }),
        keys.len() == n - old.nr,
        advanced(old, new, remote, n, keys, next_chain_key),
    ensures
        forall|m: u64|
            old.nr <= m < n ==> delivery_of(new, remote, m) == Delivery::SkipHit && cached_key(
                new.skipped@,
                remote,
                m,
            ) == Some(keys[m - old.nr]),
{
    crate::skipped::lemma_stored_unique(old.skipped@, remote, old.nr, keys);
    assert forall|m: u64| old.nr <= m < n implies delivery_of(new, remote, m) == Delivery::SkipHit
        && cached_key(new.skipped@, remote, m) == Some(keys[m - old.nr]) by {
        let i = m - old.nr;
        assert(cached_key(new.skipped@, remote, (old.nr + i) as u64) == Some(keys[i]));
    }
}

/// After a `Turn` step to counter `n`, every skipped counter of the new chain
/// is served from the cache, with the key derived for it.
pub proof fn lemma_turn_caches_gap(
    old: RatchetState,
    new: RatchetState,
    remote: Seq<u8>,
    n: u64,
    pn: u64,
    t: RatchetTurn,
)
    requires
        old.wf(),
        n <= MAX_SKIP,
        t.new_chain_keys@.len() == n,
        t.old_chain_keys@.len() <= u64::MAX - old.nr,
        turned(old, new, remote, n, pn, t),
    ensures
        forall|m: u64|
            m < n ==> delivery_of(new, remote, m) == Delivery::SkipHit && cached_key(
                new.skipped@,
                remote,
                m,
            ) == Some(t.new_chain_keys@[m as int]@),
{
    let kept = turn_kept(old, t);
    let kv = key_views(t.new_chain_keys@);
    if old.remote is Some {
        let with_old = stored(old.skipped@, old.remote->0@, old.nr, key_views(t.old_chain_keys@));
        crate::skipped::lemma_stored_unique(old.skipped@, old.remote->0@, old.nr, key_views(t.old_chain_keys@));
        lemma_keep_unique(with_old, old.remote->0@);
    }
    crate::skipped::lemma_stored_unique(kept, remote, 0, kv);
    assert forall|m: u64| m < n implies delivery_of(new, remote, m) == Delivery::SkipHit
        && cached_key(new.skipped@, remote, m) == Some(t.new_chain_keys@[m as int]@) by {
        assert(cached_key(new.skipped@, remote, (0 + m) as u64) == Some(kv[m as int]));
    }
}

/// Using one cached key leaves every other cached key where it was: a key
/// is served only for its own remote key and counter, and only once.
pub proof fn lemma_take_keeps_others(old: RatchetState, new: RatchetState, remote: Seq<u8>, n: u64)
    requires
        old.wf(),
        consumed(old, new, remote, n),
    ensures
        cached_key(new.skipped@, remote, n) is None,
        forall|r: Seq<u8>, m: u64|
            !(r == remote && m == n) ==> #[trigger] cached_key(new.skipped@, r, m) == cached_key(
                old.skipped@,
                r,
                m,
            ),
{
    let s = old.skipped@;
    let d = new.skipped@;
    lemma_drop_sound(s, remote, n as int, n + 1);
    lemma_drop_complete(s, remote, n as int, n + 1);
    lemma_drop_unique(s, remote, n as int, n + 1);
    if cached_key(d, remote, n) is Some {
        let i = choose|i: int| 0 <= i < d.len() && #[trigger] d[i].0 == remote && d[i].1 == n;
        let j = choose|j: int| 0 <= j < s.len() && d[i] == #[trigger] s[j] && !(s[j].0 == remote && n <= s[j].1 < n + 1);
    }
    assert forall|r: Seq<u8>, m: u64| !(r == remote && m == n) implies #[trigger] cached_key(d, r, m) == cached_key(s, r, m) by {
        if cached_key(s, r, m) is Some {
            let i = choose|i: int| 0 <= i < s.len() && #[trigger] s[i].0 == r && s[i].1 == m;
            lemma_cached_key_at(s, i);
            let j = choose|j: int| 0 <= j < d.len() && #[trigger] d[j] == s[i];
            lemma_cached_key_at(d, j);
        } else if cached_key(d, r, m) is Some {
            let i = choose|i: int| 0 <= i < d.len() && #[trigger] d[i].0 == r && d[i].1 == m;
            let j = choose|j: int| 0 <= j < s.len() && d[i] == #[trigger] s[j] && !(s[j].0 == remote && n <= s[j].1 < n + 1);
            assert(s[j].0 == r && s[j].1 == m);
        }
    }
}

/// Counters of a stored run: every entry for `remote` after storing keys from
/// `lo` either was there before or is one of the run's.
proof fn lemma_stored_counters(s: Seq<(Seq<u8>, u64, Seq<u8>)>, remote: Seq<u8>, lo: u64, keys: Seq<Seq<u8>>)
    requires
        lo + keys.len() <= u64::MAX,
    ensures
        forall|i: int|
            0 <= i < stored(s, remote, lo, keys).len() ==> {
                let e = #[trigger] stored(s, remote, lo, keys)[i];
                (e.0 == remote && lo <= e.1 < lo + keys.len()) || exists|j: int|
                    0 <= j < s.len() && #[trigger] s[j] == e && !(s[j].0 == remote && lo <= s[j].1
                        < lo + keys.len())
            },
{
    lemma_drop_sound(s, remote, lo as int, lo + keys.len());
    let d = drop_range(s, remote, lo as int, lo + keys.len());
    let c = crate::skipped::chain_slots(remote, lo, keys);
    let t = d + c;
    let r = stored(s, remote, lo, keys);
    let off = t.len() - r.len();
    assert forall|i: int| 0 <= i < r.len() implies {
        let e = #[trigger] r[i];
        (e.0 == remote && lo <= e.1 < lo + keys.len()) || exists|j: int|
            0 <= j < s.len() && #[trigger] s[j] == e && !(s[j].0 == remote && lo <= s[j].1 < lo
                + keys.len())
    } by {
        assert(r[i] == t[i + off]);
        if i + off < d.len() {
            assert(t[i + off] == d[i + off]);
        } else {
            assert(t[i + off] == c[i + off - d.len()]);
        }
    }
}

} // verus!
