//! The kernel's metadata overlay: per-path permissions and the salted password table.
use vstd::prelude::*;
use std::collections::BTreeMap;
use sha2::{Digest, Sha256};

verus! {

broadcast use {vstd::std_specs::btree::group_btree_axioms, vstd::laws_cmp::group_laws_cmp};

/// Read, write and execute bits: bit 2 read, bit 1 write, bit 0 execute.
#[derive(Debug, Clone, Copy, PartialEq, Eq, Structural)]
pub struct Rwx(pub u8);

impl Rwx {
    pub fn can_read(self) -> (r: bool)
        ensures
            r == (self.0 & 4 != 0),
    {
        self.0 & 0b100 != 0
    }

    pub fn can_write(self) -> (r: bool)
        ensures
            r == (self.0 & 2 != 0),
    {
        self.0 & 0b010 != 0
    }

    pub fn can_execute(self) -> (r: bool)
        ensures
            r == (self.0 & 1 != 0),
    {
        self.0 & 0b001 != 0
    }
}

/// Owner and group of a path, and the rights of its owner, its group and everyone else.
#[derive(Debug, Clone, Copy, PartialEq, Eq, Structural)]
pub struct PermEntry {
    pub uid: u32,
    pub gid: u32,
    pub owner_rwx: Rwx,
    pub group_rwx: Rwx,
    pub world_rwx: Rwx,
}

/// The index of the entry for `path`, or -1.
pub open spec fn path_index(paths: Seq<Seq<char>>, path: Seq<char>) -> int
    decreases paths.len(),
{
    if paths.len() == 0 {
        -1
    } else if paths.last() == path {
        paths.len() - 1
    } else {
        path_index(paths.drop_last(), path)
    }
}

pub proof fn lemma_path_index(paths: Seq<Seq<char>>, path: Seq<char>)
    ensures
        -1 <= path_index(paths, path) < paths.len(),
        path_index(paths, path) >= 0 ==> paths[path_index(paths, path)] == path,
        path_index(paths, path) == -1 <==> !paths.contains(path),
    decreases paths.len(),
{
    if paths.len() > 0 {
        lemma_path_index(paths.drop_last(), path);
        if paths.last() != path && path_index(paths, path) == -1 {
            assert forall|i: int| 0 <= i < paths.len() implies paths[i] != path by {
                if i < paths.len() - 1 {
                    assert(paths.drop_last()[i] == paths[i]);
                }
            }
        }
        if paths.last() == path {
            assert(paths.contains(path));
        }
        if path_index(paths, path) >= 0 {
            assert(paths.contains(path));
        }
    }
}

/// The permission table, keyed by absolute path.
pub struct PermsDb {
    entries: Vec<(String, PermEntry)>,
}

/// Finds `key` among the first components of `entries`.
fn find_path<V>(entries: &Vec<(String, V)>, key: &String) -> (r: Option<usize>)
    ensures
        match r {
            Some(i) => i < entries@.len() && entries@[i as int].0@ == key@,
            None => forall|i: int| 0 <= i < entries@.len() ==> entries@[i].0@ != key@,
        },
{
    let mut i: usize = 0;
    while i < entries.len()
        invariant
            i <= entries@.len(),
            forall|k: int| 0 <= k < i ==> entries@[k].0@ != key@,
        decreases entries@.len() - i,
    {
        if entries[i].0 == *key {
            return Some(i);
        }
        i = i + 1;
    }
    None
}

impl PermsDb {
    /// The permissions recorded for each path.
    pub closed spec fn view_map(&self) -> Map<Seq<char>, PermEntry> {
        Map::new(
            |p: Seq<char>| exists|i: int| 0 <= i < self.entries@.len() && self.entries@[i].0@ == p,
            |p: Seq<char>| self.entries@[choose|i: int| 0 <= i < self.entries@.len() && self.entries@[i].0@ == p].1,
        )
    }

    /// The paths, in the order the table keeps them.
    pub closed spec fn paths(&self) -> Seq<Seq<char>> {
        Seq::new(self.entries@.len(), |i: int| self.entries@[i].0@)
    }

    /// No path is recorded twice.
    pub closed spec fn wf(&self) -> bool {
        forall|i: int, j: int|
            0 <= i < j < self.entries@.len() ==> #[trigger] self.entries@[i].0@ != #[trigger] self.entries@[j].0@
    }

    proof fn lemma_lookup(&self, i: int)
        requires
            self.wf(),
            0 <= i < self.entries@.len(),
        ensures
            self.view_map().contains_key(self.entries@[i].0@),
            self.view_map()[self.entries@[i].0@] == self.entries@[i].1,
    {
        let p = self.entries@[i].0@;
        assert(self.view_map().contains_key(p));
        let j = choose|j: int| 0 <= j < self.entries@.len() && self.entries@[j].0@ == p;
        if j != i {
            if j < i {
                assert(self.entries@[j].0@ != self.entries@[i].0@);
            } else {
                assert(self.entries@[i].0@ != self.entries@[j].0@);
            }
        }
    }

    pub fn new() -> (r: Self)
        ensures
            r.wf(),
            r.view_map() == Map::<Seq<char>, PermEntry>::empty(),
            r.paths() == Seq::<Seq<char>>::empty(),
    {
        let r = Self { entries: Vec::new() };
        assert(r.view_map() =~= Map::<Seq<char>, PermEntry>::empty());
        assert(r.paths() =~= Seq::<Seq<char>>::empty());
        r
    }

    pub fn get(&self, path: &str) -> (r: Option<&PermEntry>)
        requires
            self.wf(),
        ensures
            match r {
                Some(e) => self.view_map().contains_key(path@) && *e == self.view_map()[path@],
                None => !self.view_map().contains_key(path@),
            },
    {
        let key = path.to_owned();
        match find_path(&self.entries, &key) {
            Some(i) => {
                proof {
                    self.lemma_lookup(i as int);
                }
                Some(&self.entries[i].1)
            },
            None => None,
        }
    }

    /// Records `entry` for `path`, replacing what was there.
    pub fn set(&mut self, path: String, entry: PermEntry)
        requires
            old(self).wf(),
        ensures
            final(self).wf(),
            final(self).view_map() == old(self).view_map().insert(path@, entry),
    {
        match find_path(&self.entries, &path) {
            Some(i) => {
                let ghost old_entries = self.entries@;
                self.entries.set(i, (path, entry));
                proof {
                    assert forall|p: Seq<char>| #[trigger] self.view_map().contains_key(p) == old(self).view_map().insert(path@, entry).contains_key(p) by {
                        if p == path@ {
                            assert(self.entries@[i as int].0@ == p);
                        } else if old(self).view_map().contains_key(p) {
                            let j = choose|j: int| 0 <= j < old_entries.len() && old_entries[j].0@ == p;
                            assert(self.entries@[j].0@ == p);
                        } else if self.view_map().contains_key(p) {
                            let j = choose|j: int| 0 <= j < self.entries@.len() && self.entries@[j].0@ == p;
                            assert(old_entries[j].0@ == p);
                        }
                    }
                    assert forall|p: Seq<char>| #[trigger] self.view_map().contains_key(p) implies self.view_map()[p] == old(self).view_map().insert(path@, entry)[p] by {
                        let j = choose|j: int| 0 <= j < self.entries@.len() && self.entries@[j].0@ == p;
                        self.lemma_lookup(j);
                        if p != path@ {
                            old(self).lemma_lookup(j);
                        }
                    }
                    assert(self.view_map() =~= old(self).view_map().insert(path@, entry));
                }
            },
            None => {
                let ghost old_entries = self.entries@;
                self.entries.push((path, entry));
                proof {
                    assert forall|p: Seq<char>| #[trigger] self.view_map().contains_key(p) == old(self).view_map().insert(path@, entry).contains_key(p) by {
                        if p == path@ {
                            assert(self.entries@[old_entries.len() as int].0@ == p);
                        } else if old(self).view_map().contains_key(p) {
                            let j = choose|j: int| 0 <= j < old_entries.len() && old_entries[j].0@ == p;
                            assert(self.entries@[j].0@ == p);
                        } else if self.view_map().contains_key(p) {
                            let j = choose|j: int| 0 <= j < self.entries@.len() && self.entries@[j].0@ == p;
                            assert(old_entries[j].0@ == p);
                        }
                    }
                    assert forall|p: Seq<char>| #[trigger] self.view_map().contains_key(p) implies self.view_map()[p] == old(self).view_map().insert(path@, entry)[p] by {
                        let j = choose|j: int| 0 <= j < self.entries@.len() && self.entries@[j].0@ == p;
                        self.lemma_lookup(j);
                        if p != path@ {
                            old(self).lemma_lookup(j);
                        }
                    }
                    assert(self.view_map() =~= old(self).view_map().insert(path@, entry));
                }
            },
        }
    }

    /// Forgets the permissions of `path`.
    pub fn remove(&mut self, path: &str)
        requires
            old(self).wf(),
        ensures
            final(self).wf(),
            final(self).view_map() == old(self).view_map().remove(path@),
    {
        let key = path.to_owned();
        match find_path(&self.entries, &key) {
            Some(i) => {
                let ghost old_entries = self.entries@;
                self.entries.remove(i);
                proof {
                    assert forall|a: int, b: int|
                        0 <= a < b < self.entries@.len() implies #[trigger] self.entries@[a].0@ != #[trigger] self.entries@[b].0@ by {
                        let oa = if a < i { a } else { a + 1 };
                        let ob = if b < i { b } else { b + 1 };
                        assert(old_entries[oa].0@ != old_entries[ob].0@);
                    }
                    assert forall|p: Seq<char>| #[trigger] self.view_map().contains_key(p) == old(self).view_map().remove(path@).contains_key(p) by {
                        if p == path@ {
                            if self.view_map().contains_key(p) {
                                let j = choose|j: int| 0 <= j < self.entries@.len() && self.entries@[j].0@ == p;
                                let oj = if j < i { j } else { j + 1 };
                                assert(old_entries[oj].0@ == p);
                                if oj < i {
                                    assert(old_entries[oj].0@ != old_entries[i as int].0@);
                                } else {
                                    assert(old_entries[i as int].0@ != old_entries[oj].0@);
                                }
                            }
                        } else if old(self).view_map().contains_key(p) {
                            let j = choose|j: int| 0 <= j < old_entries.len() && old_entries[j].0@ == p;
                            let nj = if j < i { j } else { j - 1 };
                            assert(self.entries@[nj].0@ == p);
                        } else if self.view_map().contains_key(p) {
                            let j = choose|j: int| 0 <= j < self.entries@.len() && self.entries@[j].0@ == p;
                            let oj = if j < i { j } else { j + 1 };
                            assert(old_entries[oj].0@ == p);
                        }
                    }
                    assert forall|p: Seq<char>| #[trigger] self.view_map().contains_key(p) implies self.view_map()[p] == old(self).view_map().remove(path@)[p] by {
                        let j = choose|j: int| 0 <= j < self.entries@.len() && self.entries@[j].0@ == p;
                        self.lemma_lookup(j);
                        let oj = if j < i { j } else { j + 1 };
                        old(self).lemma_lookup(oj);
                    }
                    assert(self.view_map() =~= old(self).view_map().remove(path@));
                }
            },
            None => {
                proof {
                    assert(!old(self).view_map().contains_key(path@));
                    assert(self.view_map() =~= old(self).view_map().remove(path@));
                }
            },
        }
    }

    /// The entries, in the order the table keeps them.
    pub closed spec fn values(&self) -> Seq<PermEntry> {
        Seq::new(self.entries@.len(), |i: int| self.entries@[i].1)
    }

    /// The entry for `path`, to change in place.
    pub fn get_mut(&mut self, path: &str) -> (r: Option<&mut PermEntry>)
        requires
            old(self).wf(),
        ensures
            match r {
                Some(e) => {
                    let i = path_index(old(self).paths(), path@);
                    &&& old(self).view_map().contains_key(path@)
                    &&& 0 <= i < old(self).paths().len()
                    &&& *e == old(self).view_map()[path@]
                    &&& final(self).paths() == old(self).paths()
                    &&& final(self).values() == old(self).values().update(i, *final(e))
                },
                None => !old(self).view_map().contains_key(path@) && *final(self) == *old(self),
            },
    {
        let key = path.to_owned();
        proof {
            lemma_path_index(self.paths(), path@);
        }
        match self.find_last(&key) {
            Some(i) => {
                proof {
                    self.lemma_lookup(i as int);
                }
                let r = &mut self.entries[i].1;
                Some(r)
            },
            None => None,
        }
    }

    /// The index of `key`, found from the back.
    fn find_last(&self, key: &String) -> (r: Option<usize>)
        requires
            self.wf(),
        ensures
            match r {
                Some(i) => i == path_index(self.paths(), key@) && i < self.entries@.len() && self.entries@[i as int].0@ == key@,
                None => path_index(self.paths(), key@) == -1 && !self.view_map().contains_key(key@),
            },
    {
        proof {
            lemma_path_index(self.paths(), key@);
        }
        match find_path(&self.entries, key) {
            Some(i) => {
                proof {
                    let p = self.paths();
                    let j = path_index(p, key@);
                    assert(p[i as int] == key@);
                    assert(p.contains(key@));
                    if j != i {
                        if j < i {
                            assert(self.entries@[j].0@ != self.entries@[i as int].0@);
                        } else {
                            assert(self.entries@[i as int].0@ != self.entries@[j].0@);
                        }
                    }
                }
                Some(i)
            },
            None => {
                proof {
                    let p = self.paths();
                    if p.contains(key@) {
                        let j = choose|j: int| 0 <= j < p.len() && p[j] == key@;
                        assert(self.entries@[j].0@ == key@);
                    }
                }
                None
            },
        }
    }

    /// The (path, entry) pairs, in the order the table keeps them.
    pub closed spec fn entries_view(&self) -> Seq<(Seq<char>, PermEntry)> {
        Seq::new(self.entries@.len(), |i: int| (self.entries@[i].0@, self.entries@[i].1))
    }

    /// Every (path, entry) pair, in table order.
    pub fn entries(&self) -> (r: &Vec<(String, PermEntry)>)
        ensures
            r@.len() == self.entries_view().len(),
            forall|i: int| 0 <= i < r@.len() ==> (#[trigger] r@[i]).0@ == self.entries_view()[i].0 && r@[i].1 == self.entries_view()[i].1,
    {
        &self.entries
    }
}

/// What SHA-256 gives for `data`.
pub uninterp spec fn sha256(data: Seq<u8>) -> Seq<u8>;

/// Calls `Sha256` of the `sha2` crate: feeds `salt`, then `password`, and returns the 32-byte
/// digest. Claimed: the digest is the SHA-256 of the two inputs one after the other (the hasher
/// is a stream), and is 32 bytes long.
#[verifier::external_body]
fn salted_digest(salt: &[u8], password: &[u8]) -> (r: [u8; 32])
    ensures
        r@ == sha256(salt@ + password@),
{
    let mut hasher = Sha256::new();
    hasher.update(salt);
    hasher.update(password);
    let result = hasher.finalize();
    let mut hash = [0u8; 32];
    hash.copy_from_slice(&result);
    hash
}

/// A user's credentials: the hash of salt followed by password.
#[derive(Debug, Clone, Copy)]
pub struct AuthEntry {
    pub uid: u32,
    pub salt: [u8; 16],
    pub hash: [u8; 32],
}

/// The all-zero salt new entries get.
pub open spec fn zero_salt() -> Seq<u8> {
    Seq::new(16, |i: int| 0u8)
}

impl AuthEntry {
    /// Credentials for `uid` with `password`, under the all-zero salt.
    pub fn new(uid: u32, password: &[u8]) -> (r: Self)
        ensures
            r.uid == uid,
            r.salt@ == zero_salt(),
            r.hash@ == sha256(zero_salt() + password@),
    {
        let salt = [0u8; 16];
        assert(salt@ =~= zero_salt());
        let hash = salted_digest(&salt, password);
        Self { uid, salt, hash }
    }
}

/// Whether `password` matches `entry`.
pub open spec fn matches_password(entry: AuthEntry, password: Seq<u8>) -> bool {
    sha256(entry.salt@ + password) == entry.hash@
}

/// The password table, one entry per user id, kept in increasing user id.
pub struct AuthDb {
    entries: Vec<AuthEntry>,
}

impl AuthDb {
    /// The entry of each user.
    pub closed spec fn view_map(&self) -> Map<u32, AuthEntry> {
        Map::new(
            |u: u32| exists|i: int| 0 <= i < self.entries@.len() && self.entries@[i].uid == u,
            |u: u32| self.entries@[choose|i: int| 0 <= i < self.entries@.len() && self.entries@[i].uid == u],
        )
    }

    /// Each user's salt and hash.
    pub open spec fn creds(&self) -> Map<u32, (Seq<u8>, Seq<u8>)> {
        Map::new(
            |u: u32| self.view_map().contains_key(u),
            |u: u32| (self.view_map()[u].salt@, self.view_map()[u].hash@),
        )
    }

    /// The entries in table order.
    pub closed spec fn entry_seq(&self) -> Seq<AuthEntry> {
        self.entries@
    }

    /// User ids strictly increase along the table.
    pub open spec fn wf(&self) -> bool {
        forall|i: int, j: int|
            0 <= i < j < self.entry_seq().len() ==> #[trigger] self.entry_seq()[i].uid < #[trigger] self.entry_seq()[j].uid
    }

    proof fn lemma_lookup(&self, i: int)
        requires
            self.wf(),
            0 <= i < self.entries@.len(),
        ensures
            self.view_map().contains_key(self.entries@[i].uid),
            self.view_map()[self.entries@[i].uid] == self.entries@[i],
    {
        let u = self.entries@[i].uid;
        assert(self.view_map().contains_key(u));
        let j = choose|j: int| 0 <= j < self.entries@.len() && self.entries@[j].uid == u;
        if j < i {
            assert(self.entry_seq()[j].uid < self.entry_seq()[i].uid);
        } else if i < j {
            assert(self.entry_seq()[i].uid < self.entry_seq()[j].uid);
        }
    }

    pub fn new() -> (r: Self)
        ensures
            r.wf(),
            r.view_map() == Map::<u32, AuthEntry>::empty(),
            r.creds() == Map::<u32, (Seq<u8>, Seq<u8>)>::empty(),
            r.entry_seq() == Seq::<AuthEntry>::empty(),
    {
        let r = Self { entries: Vec::new() };
        assert(r.view_map() =~= Map::<u32, AuthEntry>::empty());
        assert(r.creds() =~= Map::<u32, (Seq<u8>, Seq<u8>)>::empty());
        r
    }

    /// The first position whose user id is not below `uid`.
    fn position(&self, uid: u32) -> (r: usize)
        requires
            self.wf(),
        ensures
            r <= self.entries@.len(),
            forall|k: int| 0 <= k < r ==> self.entries@[k].uid < uid,
            forall|k: int| r <= k < self.entries@.len() ==> self.entries@[k].uid >= uid,
    {
        let mut i: usize = 0;
        while i < self.entries.len()
            invariant
                self.wf(),
                i <= self.entries@.len(),
                forall|k: int| 0 <= k < i ==> self.entries@[k].uid < uid,
            decreases self.entries@.len() - i,
        {
            if self.entries[i].uid >= uid {
                proof {
                    assert forall|k: int| i <= k < self.entries@.len() implies self.entries@[k].uid >= uid by {
                        if k > i {
                            assert(self.entry_seq()[i as int].uid < self.entry_seq()[k].uid);
                        }
                    }
                }
                return i;
            }
            i = i + 1;
        }
        i
    }

    /// Whether `uid` has an entry and `password` hashes, under its salt, to its hash.
    pub fn verify(&self, uid: u32, password: &[u8]) -> (r: bool)
        requires
            self.wf(),
        ensures
            r == (self.view_map().contains_key(uid) && matches_password(self.view_map()[uid], password@)),
    {
        let p = self.position(uid);
        if p >= self.entries.len() || self.entries[p].uid != uid {
            proof {
                if self.view_map().contains_key(uid) {
                    let j = choose|j: int| 0 <= j < self.entries@.len() && self.entries@[j].uid == uid;
                    if p < self.entries@.len() && j > p {
                        assert(self.entry_seq()[p as int].uid < self.entry_seq()[j].uid);
                    }
                }
            }
            return false;
        }
        proof {
            self.lemma_lookup(p as int);
        }
        let entry = &self.entries[p];
        let result = salted_digest(&entry.salt, password);
        let mut i: usize = 0;
        while i < 32
            invariant
                i <= 32,
                result@.len() == 32,
                entry.hash@.len() == 32,
                result@ == sha256(entry.salt@ + password@),
                self.view_map().contains_key(uid),
                *entry == self.view_map()[uid],
                forall|k: int| 0 <= k < i ==> result@[k] == entry.hash@[k],
            decreases 32 - i,
        {
            if result[i] != entry.hash[i] {
                proof {
                    assert(result@[i as int] != entry.hash@[i as int]);
                    assert(result@ != entry.hash@);
                }
                return false;
            }
            i = i + 1;
        }
        proof {
            assert(result@ =~= entry.hash@);
        }
        true
    }

    /// Records `entry`, replacing any entry of the same user.
    pub fn insert(&mut self, entry: AuthEntry)
        requires
            old(self).wf(),
        ensures
            final(self).wf(),
            final(self).view_map() == old(self).view_map().insert(entry.uid, entry),
            final(self).creds() == old(self).creds().insert(entry.uid, (entry.salt@, entry.hash@)),
    {
        proof {
            assert(old(self).view_map().insert(entry.uid, entry).dom() =~= old(self).view_map().dom().insert(entry.uid));
        }
        let p = self.position(entry.uid);
        let ghost old_entries = self.entries@;
        if p < self.entries.len() && self.entries[p].uid == entry.uid {
            self.entries.set(p, entry);
            proof {
                assert forall|i: int, j: int|
                    0 <= i < j < self.entry_seq().len() implies #[trigger] self.entry_seq()[i].uid < #[trigger] self.entry_seq()[j].uid by {
                    assert(old(self).entry_seq()[i].uid < old(self).entry_seq()[j].uid);
                }
                self.lemma_update_view(old_entries, p as int, entry);
            }
        } else {
            self.entries.insert(p, entry);
            proof {
                assert forall|i: int, j: int|
                    0 <= i < j < self.entry_seq().len() implies #[trigger] self.entry_seq()[i].uid < #[trigger] self.entry_seq()[j].uid by {
                    let oi = if i < p { i } else { i - 1 };
                    let oj = if j < p { j } else { j - 1 };
                    if i != p && j != p {
                        assert(old(self).entry_seq()[oi].uid < old(self).entry_seq()[oj].uid);
                    }
                }
                assert forall|u: u32| #[trigger] self.view_map().contains_key(u) == old(self).view_map().insert(entry.uid, entry).contains_key(u) by {
                    if u == entry.uid {
                        assert(self.entries@[p as int].uid == u);
                    } else if old(self).view_map().contains_key(u) {
                        let j = choose|j: int| 0 <= j < old_entries.len() && old_entries[j].uid == u;
                        let nj = if j < p { j } else { j + 1 };
                        assert(self.entries@[nj].uid == u);
                    } else if self.view_map().contains_key(u) {
                        let j = choose|j: int| 0 <= j < self.entries@.len() && self.entries@[j].uid == u;
                        let oj = if j < p { j } else { j - 1 };
                        assert(old_entries[oj].uid == u);
                    }
                }
                assert forall|u: u32| #[trigger] self.view_map().contains_key(u) implies self.view_map()[u] == old(self).view_map().insert(entry.uid, entry)[u] by {
                    let j = choose|j: int| 0 <= j < self.entries@.len() && self.entries@[j].uid == u;
                    self.lemma_lookup(j);
                    if u != entry.uid {
                        let oj = if j < p { j } else { j - 1 };
                        old(self).lemma_lookup(oj);
                    }
                }
                assert(self.view_map() =~= old(self).view_map().insert(entry.uid, entry));
            }
        }
    }

    proof fn lemma_update_view(&self, old_entries: Seq<AuthEntry>, p: int, entry: AuthEntry)
        requires
            self.wf(),
            0 <= p < old_entries.len(),
            old_entries[p].uid == entry.uid,
            self.entries@ == old_entries.update(p, entry),
        ensures
            self.view_map() == Map::new(
                |u: u32| exists|i: int| 0 <= i < old_entries.len() && old_entries[i].uid == u,
                |u: u32| old_entries[choose|i: int| 0 <= i < old_entries.len() && old_entries[i].uid == u],
            ).insert(entry.uid, entry),
    {
        let om = Map::new(
            |u: u32| exists|i: int| 0 <= i < old_entries.len() && old_entries[i].uid == u,
            |u: u32| old_entries[choose|i: int| 0 <= i < old_entries.len() && old_entries[i].uid == u],
        );
        assert forall|u: u32| #[trigger] self.view_map().contains_key(u) == om.insert(entry.uid, entry).contains_key(u) by {
            if om.contains_key(u) {
                let j = choose|j: int| 0 <= j < old_entries.len() && old_entries[j].uid == u;
                assert(self.entries@[j].uid == u);
            }
            if self.view_map().contains_key(u) {
                let j = choose|j: int| 0 <= j < self.entries@.len() && self.entries@[j].uid == u;
                assert(old_entries[j].uid == u);
            }
            if u == entry.uid {
                assert(self.entries@[p].uid == u);
            }
        }
        assert forall|u: u32| #[trigger] self.view_map().contains_key(u) implies self.view_map()[u] == om.insert(entry.uid, entry)[u] by {
            let j = choose|j: int| 0 <= j < self.entries@.len() && self.entries@[j].uid == u;
            self.lemma_lookup(j);
            if u == entry.uid {
                assert(self.entries@[p].uid == u);
                if j < p {
                    assert(self.entry_seq()[j].uid < self.entry_seq()[p].uid);
                } else if p < j {
                    assert(self.entry_seq()[p].uid < self.entry_seq()[j].uid);
                }
            } else {
                let oj = choose|i: int| 0 <= i < old_entries.len() && old_entries[i].uid == u;
                assert(old_entries[j].uid == u);
                assert(self.entries@[oj].uid == u);
                if oj != j {
                    if oj < j {
                        assert(self.entry_seq()[oj].uid < self.entry_seq()[j].uid);
                    } else {
                        assert(self.entry_seq()[j].uid < self.entry_seq()[oj].uid);
                    }
                }
            }
        }
        assert(self.view_map() =~= om.insert(entry.uid, entry));
    }

    /// The number of users.
    pub fn len(&self) -> (r: usize)
        requires
            self.wf(),
        ensures
            r == self.view_map().len(),
    {
        proof {
            self.lemma_len();
        }
        self.entries.len()
    }

    proof fn lemma_len(&self)
        requires
            self.wf(),
        ensures
            self.view_map().len() == self.entries@.len(),
    {
        let s = self.entries@;
        let uids = Seq::new(s.len(), |i: int| s[i].uid);
        assert forall|i: int, j: int| 0 <= i < j < uids.len() implies uids[i] != uids[j] by {
            assert(self.entry_seq()[i].uid < self.entry_seq()[j].uid);
        }
        uids.unique_seq_to_set();
        assert(self.view_map().dom() =~= uids.to_set()) by {
            assert forall|u: u32| #[trigger] self.view_map().dom().contains(u) == uids.to_set().contains(u) by {
                if self.view_map().dom().contains(u) {
                    let j = choose|j: int| 0 <= j < s.len() && s[j].uid == u;
                    assert(uids[j] == u);
                }
                if uids.to_set().contains(u) {
                    let j = choose|j: int| 0 <= j < uids.len() && uids[j] == u;
                    assert(s[j].uid == u);
                }
            }
        }
    }

    /// Every entry, in increasing user id.
    pub fn entries(&self) -> (r: &Vec<AuthEntry>)
        ensures
            r@ == self.entry_seq(),
    {
        &self.entries
    }
}

/// A password set with `AuthEntry::new` is accepted by `verify`, and only for that user:
/// after inserting the entry, `verify(uid, password)` holds.
pub proof fn lemma_new_entry_verifies(db_before: Map<u32, AuthEntry>, uid: u32, password: Seq<u8>, entry: AuthEntry)
    requires
        entry.uid == uid,
        entry.salt@ == zero_salt(),
        entry.hash@ == sha256(zero_salt() + password),
    ensures
        db_before.insert(uid, entry).contains_key(uid),
        matches_password(db_before.insert(uid, entry)[uid], password),
{
}

} // verus!
