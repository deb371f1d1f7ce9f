use vstd::prelude::*;

use crate::ratchet::RatchetState;

verus! {

/// The storage key of the session between `owner` and `peer`.
pub open spec fn session_key_of(owner: Seq<char>, peer: Seq<char>) -> Seq<char> {
    owner + seq![':'] + peer
}

/// `owner:peer`, so that two local accounts never share a peer's session.
pub fn session_key(owner: &str, peer: &str) -> (k: String)
    ensures
        k@ == session_key_of(owner@, peer@),
{
    let mut k = String::from_str(owner);
    proof {
        reveal_strlit(":");
    }
    k.append(":");
    k.append(peer);
    assert(k@ =~= session_key_of(owner@, peer@));
    k
}

pub struct SessionEntry {
    pub key: String,
    pub state: RatchetState,
}

/// At most one ratchet state per (owner, peer).
pub struct SessionDirectory {
    entries: Vec<SessionEntry>,
}

/// The directory after establishing `fresh` under `key`: an existing record
/// stays authoritative, and `fresh` is used only where none exists.
pub open spec fn established(m: Map<Seq<char>, RatchetState>, key: Seq<char>, fresh: RatchetState) -> Map<Seq<char>, RatchetState> {
    if m.contains_key(key) {
        m
    } else {
        m.insert(key, fresh)
    }
}

impl SessionDirectory {
    pub closed spec fn records(&self) -> Seq<SessionEntry> {
        self.entries@
    }

    /// The directory as a map from storage keys to ratchet states.
    pub open spec fn map_view(&self) -> Map<Seq<char>, RatchetState> {
        Map::new(
            |k: Seq<char>| exists|i: int| 0 <= i < self.records().len() && #[trigger] self.records()[i].key@ == k,
            |k: Seq<char>| {
                let i = choose|i: int| 0 <= i < self.records().len() && #[trigger] self.records()[i].key@ == k;
                self.records()[i].state
            },
        )
    }

    pub open spec fn wf(&self) -> bool {
        &&& forall|i: int, j: int|
            #![trigger self.records()[i], self.records()[j]]
            0 <= i < self.records().len() && 0 <= j < self.records().len() && i != j
                ==> self.records()[i].key@ != self.records()[j].key@
        &&& forall|i: int| 0 <= i < self.records().len() ==> (#[trigger] self.records()[i]).state.wf()
    }

    pub fn new() -> (d: SessionDirectory)
        ensures
            d.wf(),
            d.map_view() == Map::<Seq<char>, RatchetState>::empty(),
    {
        let d = SessionDirectory { entries: Vec::new() };
        assert(d.map_view() =~= Map::<Seq<char>, RatchetState>::empty());
        d
    }

    fn index_of(&self, key: &String) -> (r: Option<usize>)
        ensures
            match r {
                Some(i) => i < self.records().len() && self.records()[i as int].key@ == key@,
                None => forall|i: int| 0 <= i < self.records().len() ==> #[trigger] self.records()[i].key@ != key@,
            },
    {
        let mut i: usize = 0;
        while i < self.entries.len()
            invariant
                i <= self.entries@.len(),
                forall|k: int| 0 <= k < i ==> #[trigger] self.entries@[k].key@ != key@,
            decreases self.entries@.len() - i,
        {
            if self.entries[i].key == *key {
                return Some(i);
            }
            i = i + 1;
        }
        None
    }

    proof fn lemma_at(&self, i: int)
        requires
            self.wf(),
            0 <= i < self.records().len(),
        ensures
            self.map_view().contains_key(self.records()[i].key@),
            self.map_view()[self.records()[i].key@] == self.records()[i].state,
    {
        let k = self.records()[i].key@;
        assert(self.map_view().contains_key(k));
        let j = choose|j: int| 0 <= j < self.records().len() && #[trigger] self.records()[j].key@ == k;
        assert(j == i);
    }

    /// The session between `owner` and `peer`, if one exists.
    pub fn load(&self, owner: &str, peer: &str) -> (r: Option<&RatchetState>)
        requires
            self.wf(),
        ensures
            match r {
                Some(s) => self.map_view().contains_key(session_key_of(owner@, peer@))
                    && self.map_view()[session_key_of(owner@, peer@)] == *s && s.wf(),
                None => !self.map_view().contains_key(session_key_of(owner@, peer@)),
            },
    {
        let key = session_key(owner, peer);
        match self.index_of(&key) {
            Some(i) => {
                proof {
                    self.lemma_at(i as int);
                }
                Some(&self.entries[i].state)
            },
            None => None,
        }
    }

    /// Overwrites the session between `owner` and `peer` (last writer wins).
    pub fn store(&mut self, owner: &str, peer: &str, state: RatchetState)
        requires
            old(self).wf(),
            state.wf(),
        ensures
            final(self).wf(),
            final(self).map_view() == old(self).map_view().insert(session_key_of(owner@, peer@), state),
    {
        let key = session_key(owner, peer);
        let ghost k = key@;
        let ghost before = self.entries@;
        let ghost st = state;
        match self.index_of(&key) {
            Some(i) => {
                self.entries.set(i, SessionEntry { key, state });
                proof {
                    assert(self.records()[i as int].key@ == k);
                    assert forall|x: Seq<char>| #[trigger] self.map_view().contains_key(x) == old(self).map_view().insert(k, st).contains_key(x) by {
                        if old(self).map_view().contains_key(x) && x != k {
                            let j = choose|j: int| 0 <= j < before.len() && #[trigger] before[j].key@ == x;
                            assert(self.records()[j] == before[j]);
                        }
                        if self.map_view().contains_key(x) && x != k {
                            let j = choose|j: int| 0 <= j < self.records().len() && #[trigger] self.records()[j].key@ == x;
                            assert(self.records()[j] == before[j]);
                        }
                    }
                    assert forall|x: Seq<char>| #[trigger] self.map_view().contains_key(x) implies self.map_view()[x] == old(self).map_view().insert(k, st)[x] by {
                        let j = choose|j: int| 0 <= j < self.records().len() && #[trigger] self.records()[j].key@ == x;
                        if x == k {
                            assert(j == i);
                        } else {
                            assert(self.records()[j] == before[j]);
                            let j2 = choose|j2: int| 0 <= j2 < before.len() && #[trigger] before[j2].key@ == x;
                            assert(j2 == j);
                        }
                    }
                    assert(self.map_view() =~= old(self).map_view().insert(k, st));
                }
            },
            None => {
                self.entries.push(SessionEntry { key, state });
                proof {
                    let last = before.len() as int;
                    assert(self.records()[last].key@ == k);
                    assert forall|x: Seq<char>| #[trigger] self.map_view().contains_key(x) == old(self).map_view().insert(k, st).contains_key(x) by {
                        if old(self).map_view().contains_key(x) && x != k {
                            let j = choose|j: int| 0 <= j < before.len() && #[trigger] before[j].key@ == x;
                            assert(self.records()[j] == before[j]);
                        }
                        if self.map_view().contains_key(x) && x != k {
                            let j = choose|j: int| 0 <= j < self.records().len() && #[trigger] self.records()[j].key@ == x;
                            assert(self.records()[j] == before[j]);
                        }
                    }
                    assert forall|x: Seq<char>| #[trigger] self.map_view().contains_key(x) implies self.map_view()[x] == old(self).map_view().insert(k, st)[x] by {
                        let j = choose|j: int| 0 <= j < self.records().len() && #[trigger] self.records()[j].key@ == x;
                        if x == k {
                            assert(j == last);
                        } else {
                            assert(self.records()[j] == before[j]);
                            let j2 = choose|j2: int| 0 <= j2 < before.len() && #[trigger] before[j2].key@ == x;
                            assert(j2 == j);
                        }
                    }
                    assert(self.map_view() =~= old(self).map_view().insert(k, st));
                }
            },
        }
    }

    /// Moves the session between `owner` and `peer` out of the directory,
    /// for a load-mutate-store step; `store` puts it back.
    pub fn take(&mut self, owner: &str, peer: &str) -> (r: Option<RatchetState>)
        requires
            old(self).wf(),
        ensures
            final(self).wf(),
            match r {
                Some(s) => old(self).map_view().contains_key(session_key_of(owner@, peer@))
                    && old(self).map_view()[session_key_of(owner@, peer@)] == s && s.wf(),
                None => !old(self).map_view().contains_key(session_key_of(owner@, peer@)),
            },
            final(self).map_view() == old(self).map_view().remove(session_key_of(owner@, peer@)),
    {
        let key = session_key(owner, peer);
        let ghost k = key@;
        let ghost before = self.entries@;
        match self.index_of(&key) {
            Some(i) => {
                proof {
                    self.lemma_at(i as int);
                }
                let e = self.entries.remove(i);
                proof {
                    assert forall|a: int| 0 <= a < self.records().len() implies #[trigger] self.records()[a] == if a < i { before[a] } else { before[a + 1] } by {}
                    assert forall|x: Seq<char>| #[trigger] self.map_view().contains_key(x) == old(self).map_view().remove(k).contains_key(x) by {
                        if old(self).map_view().contains_key(x) && x != k {
                            let j = choose|j: int| 0 <= j < before.len() && #[trigger] before[j].key@ == x;
                            assert(j != i);
                            let a = if j < i { j } else { j - 1 };
                            assert(self.records()[a] == before[j]);
                        }
                        if self.map_view().contains_key(x) {
                            let j = choose|j: int| 0 <= j < self.records().len() && #[trigger] self.records()[j].key@ == x;
                            let b = if j < i { j } else { j + 1 };
                            assert(self.records()[j] == before[b]);
                            assert(b != i);
                        }
                    }
                    assert forall|x: Seq<char>| #[trigger] self.map_view().contains_key(x) implies self.map_view()[x] == old(self).map_view().remove(k)[x] by {
                        let j = choose|j: int| 0 <= j < self.records().len() && #[trigger] self.records()[j].key@ == x;
                        let b = if j < i { j } else { j + 1 };
                        assert(self.records()[j] == before[b]);
                        let j2 = choose|j2: int| 0 <= j2 < before.len() && #[trigger] before[j2].key@ == x;
                        assert(j2 == b);
                    }
                    assert(self.map_view() =~= old(self).map_view().remove(k));
                }
                Some(e.state)
            },
            None => {
                proof {
                    assert(!self.map_view().contains_key(k));
                    assert(self.map_view() =~= old(self).map_view().remove(k));
                }
                None
            },
        }
    }

    /// Establishes `fresh` as the session between `owner` and `peer` unless
    /// one exists already; says whether `fresh` was taken.
    pub fn establish(&mut self, owner: &str, peer: &str, fresh: RatchetState) -> (created: bool)
        requires
            old(self).wf(),
            fresh.wf(),
        ensures
            final(self).wf(),
            created == !old(self).map_view().contains_key(session_key_of(owner@, peer@)),
            final(self).map_view() == established(old(self).map_view(), session_key_of(owner@, peer@), fresh),
    {
        match self.load(owner, peer) {
            Some(_) => false,
            None => {
                self.store(owner, peer, fresh);
                true
            },
        }
    }
}

/// Establishing a session for the same peer twice does not fork it: the
/// first record stays, and there is one record for the key.
pub proof fn lemma_establish_twice(m: Map<Seq<char>, RatchetState>, key: Seq<char>, first: RatchetState, second: RatchetState)
    ensures
        established(established(m, key, first), key, second) == established(m, key, first),
        established(established(m, key, first), key, second).contains_key(key),
        !m.contains_key(key) ==> established(established(m, key, first), key, second)[key] == first,
        m.contains_key(key) ==> established(established(m, key, first), key, second)[key] == m[key],
        established(established(m, key, first), key, second).dom() == m.dom().insert(key),
{
    assert(established(established(m, key, first), key, second).dom() =~= m.dom().insert(key));
}

} // verus!
