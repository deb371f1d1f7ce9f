use vstd::prelude::*;

verus! {

/// A device as the relay's directory lists it.
pub struct DirectoryDevice {
    pub id: Option<u64>,
}

/// A user as the relay's directory search returns it.
pub struct DirectoryUser {
    pub username: Option<String>,
    pub id: Option<u64>,
    pub devices: Option<Vec<DirectoryDevice>>,
}

/// Why a peer name could not be resolved.
#[derive(Clone, Copy, PartialEq, Eq, Debug, Structural)]
pub enum PeerError {
    /// No result carries exactly the name.
    PeerNotFound,
    /// The peer advertises no device.
    NoDevicesForPeer,
    /// The matching result lacks its user id, its device list or a device id.
    MalformedEntry,
}

pub open spec fn named(u: DirectoryUser, name: Seq<char>) -> bool {
    u.username is Some && u.username->0@ == name
}

/// Index of the first result from `i` on that carries exactly `name`.
pub open spec fn first_named(users: Seq<DirectoryUser>, name: Seq<char>, i: int) -> Option<int>
    decreases users.len() - i,
{
    if i < 0 || i >= users.len() {
        None
    } else if named(users[i], name) {
        Some(i)
    } else {
        first_named(users, name, i + 1)
    }
}

/// Routing ids of the first exact match: its user id and its first device.
pub open spec fn resolution(users: Seq<DirectoryUser>, name: Seq<char>) -> Result<(u64, u64), PeerError> {
    match first_named(users, name, 0) {
        None => Err(PeerError::PeerNotFound),
        Some(i) => {
            let u = users[i];
            if u.id is None {
                Err(PeerError::MalformedEntry)
            } else if u.devices is None {
                Err(PeerError::MalformedEntry)
            } else if u.devices->0@.len() == 0 {
                Err(PeerError::NoDevicesForPeer)
            } else if u.devices->0@[0].id is None {
                Err(PeerError::MalformedEntry)
            } else {
                Ok((u.id->0, u.devices->0@[0].id->0))
            }
        },
    }
}

/// Resolves a peer name against the directory's search results. Only the
/// first advertised device is addressed.
pub fn resolve_peer(username: &str, users: &Vec<DirectoryUser>) -> (r: Result<(u64, u64), PeerError>)
    ensures
        r == resolution(users@, username@),
{
    let name = String::from_str(username);
    let mut i: usize = 0;
    while i < users.len()
        invariant
            i <= users@.len(),
            name@ == username@,
            first_named(users@, username@, 0) == first_named(users@, username@, i as int),
        decreases users@.len() - i,
    {
        let u = &users[i];
        let hit = match &u.username {
            Some(s) => *s == name,
            None => false,
        };
        if hit {
            let uid = match u.id {
                Some(x) => x,
                None => {
                    return Err(PeerError::MalformedEntry);
                },
            };
            let devices = match &u.devices {
                Some(d) => d,
                None => {
                    return Err(PeerError::MalformedEntry);
                },
            };
            if devices.len() == 0 {
                return Err(PeerError::NoDevicesForPeer);
            }
            return match devices[0].id {
                Some(did) => Ok((uid, did)),
                None => Err(PeerError::MalformedEntry),
            };
        }
        i = i + 1;
    }
    Err(PeerError::PeerNotFound)
}

/// A cached mapping from a peer name to its routing ids.
pub struct PeerMapping {
    pub username: String,
    pub user_id: u64,
    pub device_id: u64,
}

/// Cached peer routing ids, one mapping per name; a refresh overwrites.
pub struct PeerDirectory {
    mappings: Vec<PeerMapping>,
}

impl PeerDirectory {
    pub closed spec fn entries(&self) -> Seq<PeerMapping> {
        self.mappings@
    }

    /// The cache as a map from names to (user id, device id).
    pub open spec fn map_view(&self) -> Map<Seq<char>, (u64, u64)> {
        Map::new(
            |k: Seq<char>| exists|i: int| 0 <= i < self.entries().len() && #[trigger] self.entries()[i].username@ == k,
            |k: Seq<char>| {
                let i = choose|i: int| 0 <= i < self.entries().len() && #[trigger] self.entries()[i].username@ == k;
                (self.entries()[i].user_id, self.entries()[i].device_id)
            },
        )
    }

    pub open spec fn wf(&self) -> bool {
        forall|i: int, j: int|
            #![trigger self.entries()[i], self.entries()[j]]
            0 <= i < self.entries().len() && 0 <= j < self.entries().len() && i != j
                ==> self.entries()[i].username@ != self.entries()[j].username@
    }

    pub fn new() -> (d: PeerDirectory)
        ensures
            d.wf(),
            d.map_view() == Map::<Seq<char>, (u64, u64)>::empty(),
    {
        let d = PeerDirectory { mappings: Vec::new() };
        assert(d.map_view() =~= Map::<Seq<char>, (u64, u64)>::empty());
        d
    }

    fn index_of(&self, username: &String) -> (r: Option<usize>)
        ensures
            match r {
                Some(i) => i < self.entries().len() && self.entries()[i as int].username@ == username@,
                None => forall|i: int| 0 <= i < self.entries().len() ==> #[trigger] self.entries()[i].username@ != username@,
            },
    {
        let mut i: usize = 0;
        while i < self.mappings.len()
            invariant
                i <= self.mappings@.len(),
                forall|k: int| 0 <= k < i ==> #[trigger] self.mappings@[k].username@ != username@,
            decreases self.mappings@.len() - i,
        {
            if self.mappings[i].username == *username {
                return Some(i);
            }
            i = i + 1;
        }
        None
    }

    /// The cached routing ids of `username`.
    pub fn lookup(&self, username: &str) -> (r: Option<(u64, u64)>)
        requires
            self.wf(),
        ensures
            match r {
                Some(ids) => self.map_view().contains_key(username@) && self.map_view()[username@] == ids,
                None => !self.map_view().contains_key(username@),
            },
    {
        let name = String::from_str(username);
        match self.index_of(&name) {
            Some(i) => {
                let m = &self.mappings[i];
                proof {
                    let k = username@;
                    assert(self.map_view().contains_key(k));
                    let j = choose|j: int| 0 <= j < self.entries().len() && #[trigger] self.entries()[j].username@ == k;
                    assert(j == i);
                }
                Some((m.user_id, m.device_id))
            },
            None => None,
        }
    }

    /// Records fresh routing ids for `username`, overwriting stale ones.
    pub fn record(&mut self, username: &str, user_id: u64, device_id: u64)
        requires
            old(self).wf(),
        ensures
            final(self).wf(),
            final(self).map_view() == old(self).map_view().insert(username@, (user_id, device_id)),
    {
        let name = String::from_str(username);
        let ghost before = self.mappings@;
        match self.index_of(&name) {
            Some(i) => {
                let m = PeerMapping { username: name, user_id, device_id };
                self.mappings.set(i, m);
                proof {
                    let k = username@;
                    assert forall|x: Seq<char>| #[trigger] self.map_view().contains_key(x) == old(self).map_view().insert(k, (user_id, device_id)).contains_key(x) by {
                        if old(self).map_view().contains_key(x) && x != k {
                            let j = choose|j: int| 0 <= j < before.len() && #[trigger] before[j].username@ == x;
                            assert(self.entries()[j] == before[j]);
                        }
                        if self.map_view().contains_key(x) && x != k {
                            let j = choose|j: int| 0 <= j < self.entries().len() && #[trigger] self.entries()[j].username@ == x;
                            assert(self.entries()[j] == before[j]);
                        }
                        assert(self.entries()[i as int].username@ == k);
                    }
                    assert forall|x: Seq<char>| #[trigger] self.map_view().contains_key(x) implies self.map_view()[x] == old(self).map_view().insert(k, (user_id, device_id))[x] by {
                        let j = choose|j: int| 0 <= j < self.entries().len() && #[trigger] self.entries()[j].username@ == x;
                        if x == k {
                            assert(j == i);
                        } else {
                            assert(self.entries()[j] == before[j]);
                            let j2 = choose|j2: int| 0 <= j2 < before.len() && #[trigger] before[j2].username@ == x;
                            assert(j2 == j);
                        }
                    }
                    assert(self.map_view() =~= old(self).map_view().insert(k, (user_id, device_id)));
                }
            },
            None => {
                let m = PeerMapping { username: name, user_id, device_id };
                self.mappings.push(m);
                proof {
                    let k = username@;
                    let last = before.len() as int;
                    assert(self.entries()[last].username@ == k);
                    assert forall|x: Seq<char>| #[trigger] self.map_view().contains_key(x) == old(self).map_view().insert(k, (user_id, device_id)).contains_key(x) by {
                        if old(self).map_view().contains_key(x) && x != k {
                            let j = choose|j: int| 0 <= j < before.len() && #[trigger] before[j].username@ == x;
                            assert(self.entries()[j] == before[j]);
                        }
                        if self.map_view().contains_key(x) && x != k {
                            let j = choose|j: int| 0 <= j < self.entries().len() && #[trigger] self.entries()[j].username@ == x;
                            assert(self.entries()[j] == before[j]);
                        }
                    }
                    assert forall|x: Seq<char>| #[trigger] self.map_view().contains_key(x) implies self.map_view()[x] == old(self).map_view().insert(k, (user_id, device_id))[x] by {
                        let j = choose|j: int| 0 <= j < self.entries().len() && #[trigger] self.entries()[j].username@ == x;
                        if x == k {
                            assert(j == last);
                        } else {
                            assert(self.entries()[j] == before[j]);
                            let j2 = choose|j2: int| 0 <= j2 < before.len() && #[trigger] before[j2].username@ == x;
                            assert(j2 == j);
                        }
                    }
                    assert(self.map_view() =~= old(self).map_view().insert(k, (user_id, device_id)));
                }
            },
        }
    }
}

/// Resolves a peer and, on success, records its routing ids in the cache.
pub fn resolve_and_record(dir: &mut PeerDirectory, username: &str, users: &Vec<DirectoryUser>) -> (r: Result<(u64, u64), PeerError>)
    requires
        old(dir).wf(),
    ensures
        final(dir).wf(),
        r == resolution(users@, username@),
        match r {
            Ok(ids) => final(dir).map_view() == old(dir).map_view().insert(username@, ids),
            Err(_) => final(dir).map_view() == old(dir).map_view(),
        },
{
    let r = resolve_peer(username, users);
    match r {
        Ok((uid, did)) => {
            dir.record(username, uid, did);
        },
        Err(_) => {},
    }
    r
}

} // verus!
