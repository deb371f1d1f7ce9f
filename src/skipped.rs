use vstd::prelude::*;

verus! {

/// Most message keys the cache keeps; beyond it the oldest entries go first.
pub const MAX_CACHED_KEYS: usize = 1000;

/// A message key derived for a counter that has not been received yet.
pub struct SkippedKey {
    pub remote: Vec<u8>,
    pub counter: u64,
    pub message_key: Vec<u8>,
}

impl SkippedKey {
    /// The entry as (remote ratchet key, counter, message key).
    pub open spec fn slot(&self) -> (Seq<u8>, u64, Seq<u8>) {
        (self.remote@, self.counter, self.message_key@)
    }
}

/// Skipped-message keys, oldest first, at most one per (remote key, counter).
pub struct SkippedKeyCache {
    entries: Vec<SkippedKey>,
}

pub open spec fn slots_of(v: Seq<SkippedKey>) -> Seq<(Seq<u8>, u64, Seq<u8>)> {
    v.map_values(|e: SkippedKey| e.slot())
}

impl View for SkippedKeyCache {
    type V = Seq<(Seq<u8>, u64, Seq<u8>)>;

    closed spec fn view(&self) -> Seq<(Seq<u8>, u64, Seq<u8>)> {
        slots_of(self.entries@)
    }
}

/// No two entries share a remote key and a counter.
pub open spec fn slots_unique(s: Seq<(Seq<u8>, u64, Seq<u8>)>) -> bool {
    forall|i: int, j: int|
        #![trigger s[i], s[j]]
        0 <= i < s.len() && 0 <= j < s.len() && i != j ==> !(s[i].0 == s[j].0 && s[i].1 == s[j].1)
}

/// Some entry is for `remote` and `counter`.
pub open spec fn holds_slot(s: Seq<(Seq<u8>, u64, Seq<u8>)>, remote: Seq<u8>, counter: u64) -> bool {
    exists|i: int| 0 <= i < s.len() && #[trigger] s[i].0 == remote && s[i].1 == counter
}

/// The cached message key for `remote` and `counter`, if any.
pub open spec fn cached_key(s: Seq<(Seq<u8>, u64, Seq<u8>)>, remote: Seq<u8>, counter: u64) -> Option<Seq<u8>> {
    if holds_slot(s, remote, counter) {
        Some(s[choose|i: int| 0 <= i < s.len() && #[trigger] s[i].0 == remote && s[i].1 == counter].2)
    } else {
        None
    }
}

/// The entries of `s` but those for `remote` with a counter in `[lo, hi)`, in order.
pub open spec fn drop_range(s: Seq<(Seq<u8>, u64, Seq<u8>)>, remote: Seq<u8>, lo: int, hi: int) -> Seq<(Seq<u8>, u64, Seq<u8>)>
    decreases s.len(),
{
    if s.len() == 0 {
        s
    } else {
        let rest = drop_range(s.drop_last(), remote, lo, hi);
        let e = s.last();
        if e.0 == remote && lo <= e.1 < hi {
            rest
        } else {
            rest.push(e)
        }
    }
}

/// The entries of `s` for `remote`, in order.
pub open spec fn keep_remote(s: Seq<(Seq<u8>, u64, Seq<u8>)>, remote: Seq<u8>) -> Seq<(Seq<u8>, u64, Seq<u8>)>
    decreases s.len(),
{
    if s.len() == 0 {
        s
    } else {
        let rest = keep_remote(s.drop_last(), remote);
        if s.last().0 == remote {
            rest.push(s.last())
        } else {
            rest
        }
    }
}

/// Entries for `remote` with counters `lo, lo + 1, ...`, one per key.
pub open spec fn chain_slots(remote: Seq<u8>, lo: u64, keys: Seq<Seq<u8>>) -> Seq<(Seq<u8>, u64, Seq<u8>)> {
    Seq::new(keys.len(), |i: int| (remote, (lo + i) as u64, keys[i]))
}

/// The newest `MAX_CACHED_KEYS` entries.
pub open spec fn bounded(s: Seq<(Seq<u8>, u64, Seq<u8>)>) -> Seq<(Seq<u8>, u64, Seq<u8>)> {
    if s.len() > MAX_CACHED_KEYS {
        s.subrange(s.len() - MAX_CACHED_KEYS, s.len() as int)
    } else {
        s
    }
}

/// The cache after the keys of a chain run from counter `lo` are stored.
pub open spec fn stored(s: Seq<(Seq<u8>, u64, Seq<u8>)>, remote: Seq<u8>, lo: u64, keys: Seq<Seq<u8>>) -> Seq<(Seq<u8>, u64, Seq<u8>)> {
    bounded(drop_range(s, remote, lo as int, lo + keys.len()) + chain_slots(remote, lo, keys))
}

pub open spec fn key_views(keys: Seq<Vec<u8>>) -> Seq<Seq<u8>> {
    keys.map_values(|k: Vec<u8>| k@)
}

pub proof fn lemma_cached_key_at(s: Seq<(Seq<u8>, u64, Seq<u8>)>, i: int)
    requires
        slots_unique(s),
        0 <= i < s.len(),
    ensures
        cached_key(s, s[i].0, s[i].1) == Some(s[i].2),
{
    assert(holds_slot(s, s[i].0, s[i].1));
}

pub proof fn lemma_drop_sound(s: Seq<(Seq<u8>, u64, Seq<u8>)>, remote: Seq<u8>, lo: int, hi: int)
    ensures
        forall|j: int|
            #![trigger drop_range(s, remote, lo, hi)[j]]
            0 <= j < drop_range(s, remote, lo, hi).len() ==> exists|i: int|
                0 <= i < s.len() && drop_range(s, remote, lo, hi)[j] == #[trigger] s[i] && !(s[i].0
                    == remote && lo <= s[i].1 < hi),
    decreases s.len(),
{
    if s.len() > 0 {
        let p = s.drop_last();
        lemma_drop_sound(p, remote, lo, hi);
        let rest = drop_range(p, remote, lo, hi);
        let d = drop_range(s, remote, lo, hi);
        assert forall|j: int| #![trigger d[j]] 0 <= j < d.len() implies exists|i: int|
            0 <= i < s.len() && d[j] == #[trigger] s[i] && !(s[i].0 == remote && lo <= s[i].1
                < hi) by {
            if j < rest.len() {
                let i = choose|i: int|
                    0 <= i < p.len() && rest[j] == #[trigger] p[i] && !(p[i].0 == remote && lo
                        <= p[i].1 < hi);
                assert(d[j] == s[i]);
            } else {
                assert(d[j] == s[s.len() - 1]);
            }
        }
    }
}

pub proof fn lemma_keep_sound(s: Seq<(Seq<u8>, u64, Seq<u8>)>, remote: Seq<u8>)
    ensures
        keep_remote(s, remote).len() <= s.len(),
        forall|j: int|
            #![trigger keep_remote(s, remote)[j]]
            0 <= j < keep_remote(s, remote).len() ==> keep_remote(s, remote)[j].0 == remote
                && exists|i: int| 0 <= i < s.len() && keep_remote(s, remote)[j] == #[trigger] s[i],
    decreases s.len(),
{
    if s.len() > 0 {
        let p = s.drop_last();
        lemma_keep_sound(p, remote);
        let rest = keep_remote(p, remote);
        let d = keep_remote(s, remote);
        assert forall|j: int| #![trigger d[j]] 0 <= j < d.len() implies d[j].0 == remote && exists|i: int|
            0 <= i < s.len() && d[j] == #[trigger] s[i] by {
            if j < rest.len() {
                let i = choose|i: int| 0 <= i < p.len() && rest[j] == #[trigger] p[i];
                assert(d[j] == s[i]);
            } else {
                assert(d[j] == s[s.len() - 1]);
            }
        }
    }
}

pub proof fn lemma_keep_unique(s: Seq<(Seq<u8>, u64, Seq<u8>)>, remote: Seq<u8>)
    requires
        slots_unique(s),
    ensures
        slots_unique(keep_remote(s, remote)),
    decreases s.len(),
{
    if s.len() > 0 {
        let p = s.drop_last();
        assert(slots_unique(p)) by {
            assert forall|a: int, b: int|
                0 <= a < p.len() && 0 <= b < p.len() && a != b implies !(p[a].0 == p[b].0
                && p[a].1 == p[b].1) by {
                assert(p[a] == s[a] && p[b] == s[b]);
            }
        }
        lemma_keep_unique(p, remote);
        lemma_keep_sound(p, remote);
        let rest = keep_remote(p, remote);
        let d = keep_remote(s, remote);
        let e = s.last();
        if e.0 == remote {
            assert forall|a: int, b: int|
                0 <= a < d.len() && 0 <= b < d.len() && a != b implies !(d[a].0 == d[b].0
                && d[a].1 == d[b].1) by {
                if a < rest.len() && b < rest.len() {
                    assert(d[a] == rest[a] && d[b] == rest[b]);
                } else if a < rest.len() {
                    let i = choose|i: int| 0 <= i < p.len() && rest[a] == #[trigger] p[i];
                    assert(s[i] == p[i]);
                    assert(d[b] == s[s.len() - 1]);
                } else if b < rest.len() {
                    let i = choose|i: int| 0 <= i < p.len() && rest[b] == #[trigger] p[i];
                    assert(s[i] == p[i]);
                    assert(d[a] == s[s.len() - 1]);
                }
            }
        }
    }
}

pub proof fn lemma_drop_complete(s: Seq<(Seq<u8>, u64, Seq<u8>)>, remote: Seq<u8>, lo: int, hi: int)
    ensures
        forall|i: int|
            0 <= i < s.len() && !(s[i].0 == remote && lo <= s[i].1 < hi) ==> exists|j: int|
                0 <= j < drop_range(s, remote, lo, hi).len() && #[trigger] drop_range(
                    s,
                    remote,
                    lo,
                    hi,
                )[j] == s[i],
    decreases s.len(),
{
    if s.len() > 0 {
        let p = s.drop_last();
        lemma_drop_complete(p, remote, lo, hi);
        let rest = drop_range(p, remote, lo, hi);
        let d = drop_range(s, remote, lo, hi);
        assert forall|i: int| 0 <= i < s.len() && !(s[i].0 == remote && lo <= s[i].1 < hi) implies exists|j: int|
            0 <= j < d.len() && #[trigger] d[j] == s[i] by {
            if i < p.len() {
                assert(p[i] == s[i]);
                let j = choose|j: int| 0 <= j < rest.len() && #[trigger] rest[j] == p[i];
                assert(d[j] == s[i]);
            } else {
                assert(d[rest.len() as int] == s[i]);
            }
        }
    }
}

pub proof fn lemma_drop_unique(s: Seq<(Seq<u8>, u64, Seq<u8>)>, remote: Seq<u8>, lo: int, hi: int)
    requires
        slots_unique(s),
    ensures
        slots_unique(drop_range(s, remote, lo, hi)),
    decreases s.len(),
{
    if s.len() > 0 {
        let p = s.drop_last();
        assert(slots_unique(p)) by {
            assert forall|a: int, b: int|
                0 <= a < p.len() && 0 <= b < p.len() && a != b implies !(p[a].0 == p[b].0
                && p[a].1 == p[b].1) by {
                assert(p[a] == s[a] && p[b] == s[b]);
            }
        }
        lemma_drop_unique(p, remote, lo, hi);
        lemma_drop_sound(p, remote, lo, hi);
        let rest = drop_range(p, remote, lo, hi);
        let d = drop_range(s, remote, lo, hi);
        let e = s.last();
        if !(e.0 == remote && lo <= e.1 < hi) {
            assert(d == rest.push(e));
            assert forall|a: int, b: int|
                0 <= a < d.len() && 0 <= b < d.len() && a != b implies !(d[a].0 == d[b].0
                && d[a].1 == d[b].1) by {
                if a < rest.len() && b < rest.len() {
                    assert(d[a] == rest[a] && d[b] == rest[b]);
                } else if a < rest.len() {
                    let i = choose|i: int|
                        0 <= i < p.len() && rest[a] == #[trigger] p[i] && !(p[i].0 == remote
                            && lo <= p[i].1 < hi);
                    assert(s[i] == p[i]);
                    assert(d[b] == s[s.len() - 1]);
                } else if b < rest.len() {
                    let i = choose|i: int|
                        0 <= i < p.len() && rest[b] == #[trigger] p[i] && !(p[i].0 == remote
                            && lo <= p[i].1 < hi);
                    assert(s[i] == p[i]);
                    assert(d[a] == s[s.len() - 1]);
                }
            }
        }
    }
}

proof fn lemma_slots_push(v: Seq<SkippedKey>, e: SkippedKey)
    ensures
        slots_of(v.push(e)) == slots_of(v).push(e.slot()),
{
    assert(slots_of(v.push(e)) =~= slots_of(v).push(e.slot()));
}

proof fn lemma_slots_skip(v: Seq<SkippedKey>, k: int)
    requires
        0 <= k <= v.len(),
    ensures
        slots_of(v.skip(k)) == slots_of(v).skip(k),
{
    assert(slots_of(v.skip(k)) =~= slots_of(v).skip(k));
}

impl SkippedKeyCache {
    /// Well-formed: unique slots, within the bound.
    pub open spec fn wf(&self) -> bool {
        slots_unique(self@) && self@.len() <= MAX_CACHED_KEYS
    }

    pub fn new() -> (c: SkippedKeyCache)
        ensures
            c.wf(),
            c@ == Seq::<(Seq<u8>, u64, Seq<u8>)>::empty(),
    {
        let c = SkippedKeyCache { entries: Vec::new() };
        assert(c@ =~= Seq::<(Seq<u8>, u64, Seq<u8>)>::empty());
        c
    }

    pub fn len(&self) -> (n: usize)
        ensures
            n == self@.len(),
    {
        self.entries.len()
    }

    /// The entry at `i`, oldest first.
    pub fn entry(&self, i: usize) -> (e: &SkippedKey)
        requires
            i < self@.len(),
        ensures
            e.slot() == self@[i as int],
    {
        &self.entries[i]
    }

    /// Index of the entry for `remote` and `counter`.
    pub fn find(&self, remote: &[u8], counter: u64) -> (r: Option<usize>)
        ensures
            match r {
                Some(i) => i < self@.len() && self@[i as int].0 == remote@ && self@[i as int].1 == counter,
                None => !holds_slot(self@, remote@, counter),
            },
    {
        let mut i: usize = 0;
        while i < self.entries.len()
            invariant
                i <= self.entries@.len(),
                self@.len() == self.entries@.len(),
                forall|k: int| 0 <= k < i ==> !(#[trigger] self@[k].0 == remote@ && self@[k].1 == counter),
            decreases self.entries@.len() - i,
        {
            let e = &self.entries[i];
            if e.counter == counter && crate::bytes::bytes_equal(e.remote.as_slice(), remote) {
                return Some(i);
            }
            i = i + 1;
        }
        None
    }

    /// Removes the entries for `remote` with a counter in `[lo, hi)`.
    fn drop_run(&mut self, remote: &[u8], lo: u64, hi: u128)
        ensures
            final(self)@ == drop_range(old(self)@, remote@, lo as int, hi as int),
    {
        let ghost s = old(self)@;
        let mut rest: Vec<SkippedKey> = Vec::new();
        std::mem::swap(&mut self.entries, &mut rest);
        let mut kept: Vec<SkippedKey> = Vec::new();
        let total = rest.len();
        let mut taken: usize = 0;
        assert(s.take(0) =~= Seq::<(Seq<u8>, u64, Seq<u8>)>::empty());
        assert(s.skip(0) =~= s);
        while rest.len() > 0
            invariant
                s.len() == total,
                taken + rest@.len() == total,
                slots_of(rest@) == s.skip(taken as int),
                slots_of(kept@) == drop_range(s.take(taken as int), remote@, lo as int, hi as int),
            decreases rest@.len(),
        {
            let ghost before = rest@;
            let e = rest.remove(0);
            proof {
                assert(slots_of(before)[0] == e.slot());
                assert(e.slot() == s[taken as int]);
                assert(rest@ =~= before.skip(1));
                lemma_slots_skip(before, 1);
                assert(s.skip(taken as int).skip(1) =~= s.skip(taken + 1));
                assert(s.take(taken + 1).drop_last() =~= s.take(taken as int));
                assert(s.take(taken + 1).last() == s[taken as int]);
            }
            let hit = e.counter >= lo && (e.counter as u128) < hi && crate::bytes::bytes_equal(
                e.remote.as_slice(),
                remote,
            );
            if !hit {
                let ghost k0 = kept@;
                let ghost es = e.slot();
                kept.push(e);
                proof {
                    lemma_slots_push(k0, e);
                }
            }
            taken = taken + 1;
        }
        assert(s.take(taken as int) =~= s);
        self.entries = kept;
    }

    /// Removes and returns the cached key for `remote` and `counter`.
    pub fn take(&mut self, remote: &[u8], counter: u64) -> (k: Option<Vec<u8>>)
        requires
            old(self).wf(),
        ensures
            final(self).wf(),
            match k {
                Some(key) => cached_key(old(self)@, remote@, counter) == Some(key@),
                None => cached_key(old(self)@, remote@, counter) is None,
            },
            final(self)@ == drop_range(old(self)@, remote@, counter as int, counter + 1),
    {
        proof {
            lemma_drop_unique(self@, remote@, counter as int, counter + 1);
        }
        match self.find(remote, counter) {
            Some(i) => {
                proof {
                    lemma_cached_key_at(self@, i as int);
                }
                let key = crate::bytes::copy_bytes(self.entries[i].message_key.as_slice());
                self.drop_run(remote, counter, counter as u128 + 1);
                proof {
                    assert(final(self)@.len() <= old(self)@.len()) by {
                        lemma_drop_len(old(self)@, remote@, counter as int, counter + 1);
                    }
                }
                Some(key)
            },
            None => {
                self.drop_run(remote, counter, counter as u128 + 1);
                proof {
                    lemma_drop_len(old(self)@, remote@, counter as int, counter + 1);
                }
                None
            },
        }
    }

    /// A cache holding `entries`, oldest first, where they are unique per
    /// remote key and counter and within the bound.
    pub fn from_entries(entries: Vec<SkippedKey>) -> (r: Option<SkippedKeyCache>)
        ensures
            match r {
                Some(c) => c.wf() && c@ == slots_of(entries@),
                None => !(slots_unique(slots_of(entries@)) && entries@.len() <= MAX_CACHED_KEYS),
            },
    {
        if entries.len() > MAX_CACHED_KEYS {
            return None;
        }
        let c = SkippedKeyCache { entries };
        if c.slots_distinct() {
            Some(c)
        } else {
            None
        }
    }

    fn slots_distinct(&self) -> (r: bool)
        ensures
            r == slots_unique(self@),
    {
        let n = self.entries.len();
        let mut i: usize = 0;
        while i < n
            invariant
                n == self@.len(),
                i <= n,
                forall|a: int, b: int|
                    #![trigger self@[a], self@[b]]
                    0 <= a < i && 0 <= b < n && a != b ==> !(self@[a].0 == self@[b].0 && self@[a].1 == self@[b].1),
            decreases n - i,
        {
            let mut j: usize = 0;
            while j < n
                invariant
                    n == self@.len(),
                    i < n,
                    j <= n,
                    forall|a: int, b: int|
                        #![trigger self@[a], self@[b]]
                        0 <= a < i && 0 <= b < n && a != b ==> !(self@[a].0 == self@[b].0 && self@[a].1 == self@[b].1),
                    forall|b: int|
                        0 <= b < j && b != i ==> !(self@[i as int].0 == #[trigger] self@[b].0 && self@[i as int].1 == self@[b].1),
                decreases n - j,
            {
                if j != i {
                    let a = &self.entries[i];
                    let b = &self.entries[j];
                    if a.counter == b.counter && crate::bytes::bytes_equal(a.remote.as_slice(), b.remote.as_slice()) {
                        assert(!slots_unique(self@)) by {
                            assert(self@[i as int].0 == self@[j as int].0 && self@[i as int].1 == self@[j as int].1);
                        }
                        return false;
                    }
                }
                j = j + 1;
            }
            i = i + 1;
        }
        true
    }

    pub fn check_wf(&self) -> (r: bool)
        ensures
            r == self.wf(),
    {
        self.entries.len() <= MAX_CACHED_KEYS && self.slots_distinct()
    }

    /// The entries, oldest first.
    pub fn into_entries(self) -> (v: Vec<SkippedKey>)
        ensures
            slots_of(v@) == self@,
    {
        self.entries
    }

    /// Keeps only the entries for `remote`.
    pub fn retain_remote(&mut self, remote: &[u8])
        requires
            old(self).wf(),
        ensures
            final(self).wf(),
            final(self)@ == keep_remote(old(self)@, remote@),
    {
        proof {
            lemma_keep_unique(self@, remote@);
            lemma_keep_sound(self@, remote@);
        }
        let ghost s = old(self)@;
        let mut rest: Vec<SkippedKey> = Vec::new();
        std::mem::swap(&mut self.entries, &mut rest);
        let mut kept: Vec<SkippedKey> = Vec::new();
        let total = rest.len();
        let mut taken: usize = 0;
        assert(s.take(0) =~= Seq::<(Seq<u8>, u64, Seq<u8>)>::empty());
        assert(s.skip(0) =~= s);
        while rest.len() > 0
            invariant
                s.len() == total,
                taken + rest@.len() == total,
                slots_of(rest@) == s.skip(taken as int),
                slots_of(kept@) == keep_remote(s.take(taken as int), remote@),
            decreases rest@.len(),
        {
            let ghost before = rest@;
            let e = rest.remove(0);
            proof {
                assert(slots_of(before)[0] == e.slot());
                assert(e.slot() == s[taken as int]);
                assert(rest@ =~= before.skip(1));
                lemma_slots_skip(before, 1);
                assert(s.skip(taken as int).skip(1) =~= s.skip(taken + 1));
                assert(s.take(taken + 1).drop_last() =~= s.take(taken as int));
                assert(s.take(taken + 1).last() == s[taken as int]);
            }
            if crate::bytes::bytes_equal(e.remote.as_slice(), remote) {
                let ghost k0 = kept@;
                kept.push(e);
                proof {
                    lemma_slots_push(k0, e);
                }
            }
            taken = taken + 1;
        }
        assert(s.take(taken as int) =~= s);
        self.entries = kept;
    }

    /// Stores the message keys of a chain run: `keys[i]` for counter `lo + i`.
    /// Entries already held for those counters are replaced; beyond
    /// `MAX_CACHED_KEYS` entries the oldest are evicted.
    pub fn store_run(&mut self, remote: &[u8], lo: u64, keys: Vec<Vec<u8>>)
        requires
            old(self).wf(),
            lo + keys@.len() <= u64::MAX,
        ensures
            final(self).wf(),
            final(self)@ == stored(old(self)@, remote@, lo, key_views(keys@)),
    {
        let ghost s = old(self)@;
        let ghost kv = key_views(keys@);
        let hi = lo as u128 + keys.len() as u128;
        self.drop_run(remote, lo, hi);
        let ghost d = self@;
        let mut keys = keys;
        let n = keys.len();
        let mut rev: Vec<Vec<u8>> = Vec::new();
        while keys.len() > 0
            invariant
                keys@.len() + rev@.len() == n,
                forall|k: int| 0 <= k < keys@.len() ==> #[trigger] keys@[k]@ == kv[k],
                forall|k: int| 0 <= k < rev@.len() ==> #[trigger] rev@[k]@ == kv[n - 1 - k],
                kv.len() == n,
            decreases keys@.len(),
        {
            let k = keys.pop().unwrap();
            rev.push(k);
        }
        let mut i: usize = 0;
        assert(d =~= d + chain_slots(remote@, lo, kv).take(0));
        while rev.len() > 0
            invariant
                i + rev@.len() == n,
                forall|k: int| 0 <= k < rev@.len() ==> #[trigger] rev@[k]@ == kv[n - 1 - k],
                kv.len() == n,
                lo + n <= u64::MAX,
                self@ == d + chain_slots(remote@, lo, kv).take(i as int),
            decreases rev@.len(),
        {
            let k = rev.pop().unwrap();
            let e = SkippedKey {
                remote: crate::bytes::copy_bytes(remote),
                counter: lo + i as u64,
                message_key: k,
            };
            let ghost v0 = self.entries@;
            self.entries.push(e);
            proof {
                lemma_slots_push(v0, e);
                assert(e.slot() == chain_slots(remote@, lo, kv)[i as int]);
                assert(chain_slots(remote@, lo, kv).take(i + 1) =~= chain_slots(
                    remote@,
                    lo,
                    kv,
                ).take(i as int).push(e.slot()));
                assert(self@ =~= d + chain_slots(remote@, lo, kv).take(i + 1));
            }
            i = i + 1;
        }
        assert(chain_slots(remote@, lo, kv).take(i as int) =~= chain_slots(remote@, lo, kv));
        let ghost t = self@;
        assert(t.subrange(0, t.len() as int) =~= t);
        while self.entries.len() > MAX_CACHED_KEYS
            invariant
                self@.len() <= t.len(),
                self@ == t.subrange(t.len() - self@.len(), t.len() as int),
                t.len() > MAX_CACHED_KEYS ==> self@.len() >= MAX_CACHED_KEYS,
                t.len() <= MAX_CACHED_KEYS ==> self@.len() == t.len(),
            decreases self@.len(),
        {
            let ghost v0 = self.entries@;
            self.entries.remove(0);
            proof {
                assert(self.entries@ =~= v0.skip(1));
                lemma_slots_skip(v0, 1);
                assert(self@ =~= t.subrange(t.len() - self@.len(), t.len() as int));
            }
        }
        proof {
            assert(self@ =~= bounded(t));
            lemma_stored_unique(s, remote@, lo, kv);
        }
    }
}

pub proof fn lemma_drop_len(s: Seq<(Seq<u8>, u64, Seq<u8>)>, remote: Seq<u8>, lo: int, hi: int)
    ensures
        drop_range(s, remote, lo, hi).len() <= s.len(),
    decreases s.len(),
{
    if s.len() > 0 {
        lemma_drop_len(s.drop_last(), remote, lo, hi);
    }
}

/// Storing a chain run keeps the slots unique and within the bound, and
/// every stored key is then found under its counter.
#[verifier::rlimit(30)]
pub proof fn lemma_stored_unique(s: Seq<(Seq<u8>, u64, Seq<u8>)>, remote: Seq<u8>, lo: u64, keys: Seq<Seq<u8>>)
    requires
        slots_unique(s),
        lo + keys.len() <= u64::MAX,
    ensures
        slots_unique(stored(s, remote, lo, keys)),
        stored(s, remote, lo, keys).len() <= MAX_CACHED_KEYS,
        keys.len() <= MAX_CACHED_KEYS ==> forall|i: int| 0 <= i < keys.len() ==> cached_key(stored(s, remote, lo, keys), remote, (lo + i) as u64) == Some(#[trigger] keys[i]),
{
    lemma_drop_sound(s, remote, lo as int, lo + keys.len());
    lemma_drop_unique(s, remote, lo as int, lo + keys.len());
    let d = drop_range(s, remote, lo as int, lo + keys.len());
    let c = chain_slots(remote, lo, keys);
    let t = d + c;
    assert forall|a: int, b: int| 0 <= a < t.len() && 0 <= b < t.len() && a != b implies !(#[trigger] t[a].0 == #[trigger] t[b].0 && t[a].1 == t[b].1) by {
        if a < d.len() && b < d.len() {
            assert(t[a] == d[a] && t[b] == d[b]);
        } else if a < d.len() {
            let i = choose|i: int| 0 <= i < s.len() && #[trigger] d[a] == s[i] && !(s[i].0 == remote && lo <= s[i].1 < lo + keys.len());
            assert(t[a] == d[a]);
            assert(t[b] == c[b - d.len()]);
        } else if b < d.len() {
            let i = choose|i: int| 0 <= i < s.len() && #[trigger] d[b] == s[i] && !(s[i].0 == remote && lo <= s[i].1 < lo + keys.len());
            assert(t[b] == d[b]);
            assert(t[a] == c[a - d.len()]);
        } else {
            assert(t[a] == c[a - d.len()]);
            assert(t[b] == c[b - d.len()]);
        }
    }
    let r = bounded(t);
    let off = t.len() - r.len();
    assert forall|a: int, b: int| 0 <= a < r.len() && 0 <= b < r.len() && a != b implies !(#[trigger] r[a].0 == #[trigger] r[b].0 && r[a].1 == r[b].1) by {
        assert(r[a] == t[a + off] && r[b] == t[b + off]);
    }
    if keys.len() <= MAX_CACHED_KEYS {
        assert forall|i: int| 0 <= i < keys.len() implies cached_key(r, remote, (lo + i) as u64) == Some(#[trigger] keys[i]) by {
            let j = d.len() + i - off;
            assert(r[j] == t[d.len() + i]);
            assert(t[d.len() + i] == c[i]);
            lemma_cached_key_at(r, j);
        }
    }
}

} // verus!
