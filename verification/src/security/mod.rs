//! Protection: an access matrix kept as per-object access lists, plus role-based rights.
//!
//! A domain's rights on an object are the union of what the object's access list gives it and
//! what its role gives it.
use vstd::prelude::*;
use std::collections::BTreeMap;

verus! {

broadcast use {vstd::std_specs::btree::group_btree_axioms, vstd::laws_cmp::group_laws_cmp};

pub type DomainId = u32;

pub type ObjectId = u64;

pub type RoleId = u32;

/// A set of rights as bits.
#[derive(Debug, Clone, Copy, PartialEq, Eq, Structural)]
pub struct Rights(pub u32);

pub const RIGHT_READ: u32 = 1;

pub const RIGHT_WRITE: u32 = 2;

pub const RIGHT_EXECUTE: u32 = 4;

pub const RIGHT_COPY: u32 = 8;

pub const RIGHT_OWNER: u32 = 16;

pub const RIGHT_CONTROL: u32 = 32;

impl Rights {
    /// No rights at all.
    pub fn none() -> (r: Rights)
        ensures
            r.0 == 0,
    {
        Rights(0)
    }

    pub const READ: u32 = 1;

    pub const WRITE: u32 = 2;

    pub const EXECUTE: u32 = 4;

    pub const COPY: u32 = 8;

    pub const OWNER: u32 = 16;

    pub const CONTROL: u32 = 32;

    /// Whether every bit of `bits` is among these rights.
    pub fn contains(self, bits: u32) -> (r: bool)
        ensures
            r == (self.0 & bits == bits),
    {
        self.0 & bits == bits
    }
}

/// Whether `bits` are all set in `rights`.
pub open spec fn has_bits(rights: u32, bits: u32) -> bool {
    rights & bits == bits
}

/// The interface of an access matrix.
pub trait AccessControl {
    /// The rights `domain` holds on `object`.
    spec fn rights_spec(&self, domain: DomainId, object: ObjectId) -> u32;

    fn access(&self, domain: DomainId, object: ObjectId) -> (r: Rights)
        ensures
            r.0 == self.rights_spec(domain, object),
    ;

    /// Hands `rights` on `object` to `target` on behalf of `grantor`. Once it succeeds the target
    /// holds every granted right; a refused grant changes no one's rights.
    fn grant(&mut self, grantor: DomainId, target: DomainId, object: ObjectId, rights: Rights) -> (r: Result<(), ()>)
        ensures
            r is Ok ==> has_bits(final(self).rights_spec(target, object), rights.0),
            r is Err ==> forall|d: DomainId, o: ObjectId| #[trigger] final(self).rights_spec(d, o) == old(self).rights_spec(d, o),
    ;

    /// Takes `rights` on `object` from `target` on behalf of `revoker`; a refused revoke changes no
    /// one's rights.
    fn revoke(&mut self, revoker: DomainId, target: DomainId, object: ObjectId, rights: Rights) -> (r: Result<(), ()>)
        ensures
            r is Err ==> forall|d: DomainId, o: ObjectId| #[trigger] final(self).rights_spec(d, o) == old(self).rights_spec(d, o),
    ;
}

struct AccessEntry {
    domain: DomainId,
    rights: Rights,
}

/// The rights of the first entry for `domain`, or none.
pub open spec fn entry_rights(entries: Seq<(u32, u32)>, domain: u32) -> u32
    decreases entries.len(),
{
    if entries.len() == 0 {
        0
    } else if entries[0].0 == domain {
        entries[0].1
    } else {
        entry_rights(entries.drop_first(), domain)
    }
}

spec fn entries_view(entries: Seq<AccessEntry>) -> Seq<(u32, u32)> {
    Seq::new(entries.len(), |i: int| (entries[i].domain, entries[i].rights.0))
}

proof fn lemma_entry_rights_prefix(s: Seq<(u32, u32)>, domain: u32, i: int)
    requires
        0 <= i < s.len(),
        forall|k: int| 0 <= k < i ==> s[k].0 != domain,
    ensures
        entry_rights(s, domain) == entry_rights(s.subrange(i, s.len() as int), domain),
    decreases i,
{
    if i > 0 {
        assert(s[0].0 != domain);
        assert(s.drop_first().subrange(i - 1, s.len() - 1) =~= s.subrange(i, s.len() as int));
        lemma_entry_rights_prefix(s.drop_first(), domain, i - 1);
    } else {
        assert(s.subrange(0, s.len() as int) =~= s);
    }
}

proof fn lemma_entry_rights_absent(s: Seq<(u32, u32)>, domain: u32)
    requires
        forall|k: int| 0 <= k < s.len() ==> s[k].0 != domain,
    ensures
        entry_rights(s, domain) == 0,
    decreases s.len(),
{
    if s.len() > 0 {
        lemma_entry_rights_absent(s.drop_first(), domain);
    }
}

proof fn lemma_entry_rights_found(s: Seq<(u32, u32)>, domain: u32, i: int)
    requires
        0 <= i < s.len(),
        s[i].0 == domain,
        forall|k: int| 0 <= k < i ==> s[k].0 != domain,
    ensures
        entry_rights(s, domain) == s[i].1,
{
    lemma_entry_rights_prefix(s, domain, i);
}

proof fn lemma_entry_rights_push_other(s: Seq<(u32, u32)>, e: (u32, u32), domain: u32)
    requires
        e.0 != domain,
    ensures
        entry_rights(s.push(e), domain) == entry_rights(s, domain),
    decreases s.len(),
{
    if s.len() == 0 {
        assert(s.push(e).drop_first() =~= Seq::<(u32, u32)>::empty());
        assert(entry_rights(s.push(e).drop_first(), domain) == 0);
    } else {
        assert(s.push(e)[0] == s[0]);
        assert(s.push(e).drop_first() =~= s.drop_first().push(e));
        lemma_entry_rights_push_other(s.drop_first(), e, domain);
    }
}

proof fn lemma_entry_rights_update(s: Seq<(u32, u32)>, i: int, v: u32, domain: u32)
    requires
        0 <= i < s.len(),
        forall|k: int| 0 <= k < i ==> s[k].0 != s[i].0,
    ensures
        entry_rights(s.update(i, (s[i].0, v)), domain) == (if domain == s[i].0 {
            v
        } else {
            entry_rights(s, domain)
        }),
    decreases s.len(),
{
    if i == 0 {
        if s[0].0 != domain {
            assert(s.update(0, (s[0].0, v)).drop_first() =~= s.drop_first());
        }
    } else {
        assert(s.update(i, (s[i].0, v)).drop_first() =~= s.drop_first().update(i - 1, (s[i].0, v)));
        lemma_entry_rights_update(s.drop_first(), i - 1, v, domain);
    }
}

/// `s` with every entry for `domain` left out.
pub open spec fn without_domain(s: Seq<(u32, u32)>, domain: u32) -> Seq<(u32, u32)> {
    s.filter(|e: (u32, u32)| e.0 != domain)
}

proof fn lemma_entry_rights_without(s: Seq<(u32, u32)>, removed: u32, domain: u32)
    ensures
        entry_rights(without_domain(s, removed), domain) == (if domain == removed {
            0
        } else {
            entry_rights(s, domain)
        }),
    decreases s.len(),
{
    reveal_with_fuel(Seq::filter, 2);
    if s.len() == 0 {
        assert(without_domain(s, removed) =~= Seq::<(u32, u32)>::empty());
    } else {
        let f = |e: (u32, u32)| e.0 != removed;
        assert(s =~= seq![s[0]] + s.drop_first());
        Seq::filter_distributes_over_add(seq![s[0]], s.drop_first(), f);
        lemma_entry_rights_without(s.drop_first(), removed, domain);
        if s[0].0 == removed {
            assert(seq![s[0]].filter(f) =~= Seq::<(u32, u32)>::empty());
            assert(without_domain(s, removed) =~= without_domain(s.drop_first(), removed));
        } else {
            assert(seq![s[0]].filter(f) =~= seq![s[0]]);
            let w = without_domain(s, removed);
            assert(w =~= seq![s[0]] + without_domain(s.drop_first(), removed));
            assert(w.drop_first() =~= without_domain(s.drop_first(), removed));
        }
    }
}

/// The access lists: for each object, its entries in order.
struct AccessList {
    objects: BTreeMap<ObjectId, Vec<AccessEntry>>,
}

impl AccessList {
    spec fn lookup_spec(&self, domain: u32, object: u64) -> u32 {
        if self.objects@.contains_key(object) {
            entry_rights(entries_view(self.objects@[object]@), domain)
        } else {
            0
        }
    }

    fn new() -> (r: Self)
        ensures
            forall|d: u32, o: u64| r.lookup_spec(d, o) == 0,
    {
        Self { objects: BTreeMap::new() }
    }

    fn first_index(entries: &Vec<AccessEntry>, domain: DomainId) -> (r: Option<usize>)
        ensures
            match r {
                Some(i) => i < entries@.len() && entries@[i as int].domain == domain && forall|k: int|
                    0 <= k < i ==> entries@[k].domain != domain,
                None => forall|k: int| 0 <= k < entries@.len() ==> entries@[k].domain != domain,
            },
    {
        let mut i: usize = 0;
        while i < entries.len()
            invariant
                i <= entries@.len(),
                forall|k: int| 0 <= k < i ==> entries@[k].domain != domain,
            decreases entries@.len() - i,
        {
            if entries[i].domain == domain {
                return Some(i);
            }
            i = i + 1;
        }
        None
    }

    fn lookup(&self, domain: DomainId, object: ObjectId) -> (r: Rights)
        ensures
            r.0 == self.lookup_spec(domain, object),
    {
        match self.objects.get(&object) {
            None => Rights(0),
            Some(entries) => {
                let ghost s = entries_view(entries@);
                match Self::first_index(entries, domain) {
                    Some(i) => {
                        proof {
                            lemma_entry_rights_found(s, domain, i as int);
                        }
                        entries[i].rights
                    },
                    None => {
                        proof {
                            lemma_entry_rights_absent(s, domain);
                        }
                        Rights(0)
                    },
                }
            },
        }
    }

    fn set(&mut self, domain: DomainId, object: ObjectId, rights: Rights)
        ensures
            forall|d: u32, o: u64| #[trigger]
                final(self).lookup_spec(d, o) == (if d == domain && o == object {
                    rights.0
                } else {
                    old(self).lookup_spec(d, o)
                }),
    {
        let mut entries: Vec<AccessEntry> = match self.objects.remove(&object) {
            Some(v) => v,
            None => Vec::new(),
        };
        let ghost s0 = entries_view(entries@);
        proof {
            if !old(self).objects@.contains_key(object) {
                assert(s0 =~= Seq::<(u32, u32)>::empty());
            }
            assert(entry_rights(s0, domain) == old(self).lookup_spec(domain, object)) by {
                if !old(self).objects@.contains_key(object) {
                    assert(s0 =~= Seq::<(u32, u32)>::empty());
                }
            }
        }
        if rights.0 == 0 {
            let mut kept: Vec<AccessEntry> = Vec::new();
            let mut i: usize = 0;
            while i < entries.len()
                invariant
                    i <= entries@.len(),
                    entries_view(entries@) == s0,
                    entries_view(kept@) == without_domain(s0.subrange(0, i as int), domain),
                decreases entries@.len() - i,
            {
                let e = &entries[i];
                proof {
                    let f = |x: (u32, u32)| x.0 != domain;
                    assert(s0.subrange(0, i + 1) =~= s0.subrange(0, i as int) + seq![s0[i as int]]);
                    Seq::filter_distributes_over_add(s0.subrange(0, i as int), seq![s0[i as int]], f);
                    reveal_with_fuel(Seq::filter, 2);
                    if s0[i as int].0 == domain {
                        assert(seq![s0[i as int]].filter(f) =~= Seq::<(u32, u32)>::empty());
                    } else {
                        assert(seq![s0[i as int]].filter(f) =~= seq![s0[i as int]]);
                    }
                }
                if e.domain != domain {
                    kept.push(AccessEntry { domain: e.domain, rights: e.rights });
                    proof {
                        assert(entries_view(kept@) =~= without_domain(s0.subrange(0, i + 1), domain));
                    }
                } else {
                    proof {
                        assert(entries_view(kept@) =~= without_domain(s0.subrange(0, i + 1), domain));
                    }
                }
                i = i + 1;
            }
            proof {
                assert(s0.subrange(0, entries@.len() as int) =~= s0);
                lemma_entry_rights_without(s0, domain, domain);
                assert forall|d: u32| d != domain implies entry_rights(entries_view(kept@), d) == entry_rights(s0, d) by {
                    lemma_entry_rights_without(s0, domain, d);
                }
            }
            entries = kept;
        } else {
            match Self::first_index(&entries, domain) {
                Some(i) => {
                    let ghost before = entries@;
                    let d = entries[i].domain;
                    entries.set(i, AccessEntry { domain: d, rights });
                    proof {
                        assert(entries_view(entries@) =~= s0.update(i as int, (s0[i as int].0, rights.0)));
                        assert forall|dd: u32| #[trigger] entry_rights(entries_view(entries@), dd) == (if dd == domain {
                            rights.0
                        } else {
                            entry_rights(s0, dd)
                        }) by {
                            lemma_entry_rights_update(s0, i as int, rights.0, dd);
                        }
                    }
                },
                None => {
                    entries.push(AccessEntry { domain, rights });
                    proof {
                        assert(entries_view(entries@) =~= s0.push((domain, rights.0)));
                        assert forall|dd: u32| #[trigger] entry_rights(entries_view(entries@), dd) == (if dd == domain {
                            rights.0
                        } else {
                            entry_rights(s0, dd)
                        }) by {
                            if dd == domain {
                                lemma_entry_rights_found(s0.push((domain, rights.0)), dd, s0.len() as int);
                            } else {
                                lemma_entry_rights_push_other(s0, (domain, rights.0), dd);
                            }
                        }
                    }
                },
            }
        }
        let ghost mid = entries_view(entries@);
        self.objects.insert(object, entries);
        proof {
            assert forall|d: u32, o: u64| #[trigger]
                self.lookup_spec(d, o) == (if d == domain && o == object {
                    rights.0
                } else {
                    old(self).lookup_spec(d, o)
                }) by {
                if o == object {
                    assert(entries_view(self.objects@[object]@) == mid);
                    if !old(self).objects@.contains_key(object) {
                        assert(s0 =~= Seq::<(u32, u32)>::empty());
                    }
                }
            }
        }
    }
}

/// Access lists plus roles: a role carries rights, a domain holds at most one role.
pub struct RbacAccessControl {
    acl: AccessList,
    roles: BTreeMap<RoleId, Rights>,
    user_roles: BTreeMap<DomainId, RoleId>,
}

impl RbacAccessControl {
    /// The rights the access list of `object` gives `domain`.
    pub closed spec fn acl_rights(&self, domain: u32, object: u64) -> u32 {
        self.acl.lookup_spec(domain, object)
    }

    /// The rights `domain` has from its role, if it has a defined one.
    pub closed spec fn role_rights_spec(&self, domain: u32) -> u32 {
        if self.user_roles@.contains_key(domain) && self.roles@.contains_key(self.user_roles@[domain]) {
            self.roles@[self.user_roles@[domain]].0
        } else {
            0
        }
    }

    /// The defined roles.
    pub closed spec fn role_table(&self) -> Map<u32, u32> {
        Map::new(|r: u32| self.roles@.contains_key(r), |r: u32| self.roles@[r].0)
    }

    /// The role held by each domain.
    pub closed spec fn assignments(&self) -> Map<u32, u32> {
        self.user_roles@
    }

    /// All rights of `domain` on `object`.
    pub open spec fn access_spec(&self, domain: u32, object: u64) -> u32 {
        self.acl_rights(domain, object) | self.role_rights_spec(domain)
    }

    pub fn new() -> (r: Self)
        ensures
            forall|d: u32, o: u64| #[trigger] r.acl_rights(d, o) == 0,
            forall|d: u32| #[trigger] r.role_rights_spec(d) == 0,
            r.role_table() == Map::<u32, u32>::empty(),
            r.assignments() == Map::<u32, u32>::empty(),
    {
        let r = Self { acl: AccessList::new(), roles: BTreeMap::new(), user_roles: BTreeMap::new() };
        assert(r.role_table() =~= Map::<u32, u32>::empty());
        r
    }

    /// Defines (or redefines) `role` to carry `rights`.
    pub fn define_role(&mut self, role: RoleId, rights: Rights)
        ensures
            final(self).role_table() == old(self).role_table().insert(role, rights.0),
            final(self).assignments() == old(self).assignments(),
            forall|d: u32, o: u64| #[trigger] final(self).acl_rights(d, o) == old(self).acl_rights(d, o),
            forall|d: u32| #[trigger] final(self).role_rights_spec(d) == (if old(self).assignments().contains_key(d)
                && old(self).assignments()[d] == role {
                rights.0
            } else {
                old(self).role_rights_spec(d)
            }),
    {
        self.roles.insert(role, rights);
        assert(self.role_table() =~= old(self).role_table().insert(role, rights.0));
    }

    /// Gives `domain` the role `role`, replacing any role it had.
    pub fn assign_role(&mut self, domain: DomainId, role: RoleId)
        ensures
            final(self).assignments() == old(self).assignments().insert(domain, role),
            final(self).role_table() == old(self).role_table(),
            forall|d: u32, o: u64| #[trigger] final(self).acl_rights(d, o) == old(self).acl_rights(d, o),
            forall|d: u32| #[trigger] final(self).role_rights_spec(d) == (if d == domain {
                if old(self).role_table().contains_key(role) { old(self).role_table()[role] } else { 0 }
            } else {
                old(self).role_rights_spec(d)
            }),
    {
        self.user_roles.insert(domain, role);
    }

    /// Sets the access-list rights of `domain` on `object` (none removes the entry).
    pub fn set_rights(&mut self, domain: DomainId, object: ObjectId, rights: Rights)
        ensures
            forall|d: u32, o: u64| #[trigger] final(self).acl_rights(d, o) == (if d == domain && o == object {
                rights.0
            } else {
                old(self).acl_rights(d, o)
            }),
            forall|d: u32| #[trigger] final(self).role_rights_spec(d) == old(self).role_rights_spec(d),
            final(self).role_table() == old(self).role_table(),
            final(self).assignments() == old(self).assignments(),
    {
        self.acl.set(domain, object, rights);
    }

    fn role_rights(&self, domain: DomainId) -> (r: Rights)
        ensures
            r.0 == self.role_rights_spec(domain),
    {
        match self.user_roles.get(&domain) {
            None => Rights(0),
            Some(role) => match self.roles.get(role) {
                None => Rights(0),
                Some(r) => *r,
            },
        }
    }
}

/// Whether `holder` may hand `rights` on: it owns or controls the object, or may copy rights
/// and holds all of `rights` itself.
pub open spec fn may_grant(holder: u32, rights: u32) -> bool {
    has_bits(holder, RIGHT_OWNER) || has_bits(holder, RIGHT_CONTROL) || (has_bits(holder, RIGHT_COPY)
        && holder & rights == rights)
}

/// Whether `holder` may take rights away: it owns or controls the object.
pub open spec fn may_revoke(holder: u32) -> bool {
    has_bits(holder, RIGHT_OWNER) || has_bits(holder, RIGHT_CONTROL)
}

impl AccessControl for RbacAccessControl {
    open spec fn rights_spec(&self, domain: DomainId, object: ObjectId) -> u32 {
        self.access_spec(domain, object)
    }

    fn access(&self, domain: DomainId, object: ObjectId) -> (r: Rights)
        ensures
            r.0 == self.access_spec(domain, object),
    {
        let acl = self.acl.lookup(domain, object);
        let role = self.role_rights(domain);
        Rights(acl.0 | role.0)
    }

    /// Adds `rights` to the target's access-list entry, if the grantor may hand them on.
    fn grant(&mut self, grantor: DomainId, target: DomainId, object: ObjectId, rights: Rights) -> (r: Result<(), ()>)
        ensures
            r is Ok <==> may_grant(old(self).access_spec(grantor, object), rights.0),
            forall|d: u32| #[trigger] final(self).role_rights_spec(d) == old(self).role_rights_spec(d),
            final(self).role_table() == old(self).role_table(),
            final(self).assignments() == old(self).assignments(),
            forall|d: u32, o: u64| #[trigger] final(self).acl_rights(d, o) == (if r is Ok && d == target && o == object {
                old(self).acl_rights(d, o) | rights.0
            } else {
                old(self).acl_rights(d, o)
            }),
    {
        let g = self.access(grantor, object);
        if g.contains(RIGHT_OWNER) || g.contains(RIGHT_CONTROL) {
            let current = self.acl.lookup(target, object);
            self.acl.set(target, object, Rights(current.0 | rights.0));
            proof {
                lemma_granted_rights_held(current.0, self.role_rights_spec(target), rights.0);
            }
            return Ok(());
        }
        if g.contains(RIGHT_COPY) {
            let copyable = g.0 & rights.0;
            if copyable == rights.0 {
                let current = self.acl.lookup(target, object);
                self.acl.set(target, object, Rights(current.0 | rights.0));
                proof {
                    lemma_granted_rights_held(current.0, self.role_rights_spec(target), rights.0);
                }
                return Ok(());
            }
        }
        Err(())
    }

    /// Clears `rights` from the target's access-list entry, if the revoker owns or controls
    /// the object.
    fn revoke(&mut self, revoker: DomainId, target: DomainId, object: ObjectId, rights: Rights) -> (r: Result<(), ()>)
        ensures
            r is Ok <==> may_revoke(old(self).access_spec(revoker, object)),
            forall|d: u32| #[trigger] final(self).role_rights_spec(d) == old(self).role_rights_spec(d),
            final(self).role_table() == old(self).role_table(),
            final(self).assignments() == old(self).assignments(),
            forall|d: u32, o: u64| #[trigger] final(self).acl_rights(d, o) == (if r is Ok && d == target && o == object {
                old(self).acl_rights(d, o) & !rights.0
            } else {
                old(self).acl_rights(d, o)
            }),
    {
        let rr = self.access(revoker, object);
        if rr.contains(RIGHT_OWNER) || rr.contains(RIGHT_CONTROL) {
            let current = self.acl.lookup(target, object);
            self.acl.set(target, object, Rights(current.0 & !rights.0));
            return Ok(());
        }
        Err(())
    }
}

/// A granted right is held afterwards: once `grant` succeeds, the target's rights on the object
/// include every granted bit, whatever its role.
pub proof fn lemma_granted_rights_held(acl_before: u32, role: u32, granted: u32)
    ensures
        has_bits((acl_before | granted) | role, granted),
{
    assert(((acl_before | granted) | role) & granted == granted) by (bit_vector);
}

/// A revoked right leaves the access list: once `revoke` succeeds, the target's access-list
/// rights on the object hold none of the revoked bits, and keep every other bit they had.
pub proof fn lemma_revoked_rights_gone(acl_before: u32, revoked: u32)
    ensures
        (acl_before & !revoked) & revoked == 0,
        forall|b: u32| #![trigger (acl_before & b)] b & revoked == 0 ==> (acl_before & !revoked) & b == acl_before & b,
{
    assert((acl_before & !revoked) & revoked == 0) by (bit_vector);
    assert forall|b: u32| #![trigger (acl_before & b)] b & revoked == 0 implies (acl_before & !revoked) & b == acl_before & b by {
        assert(b & revoked == 0 ==> (acl_before & !revoked) & b == acl_before & b) by (bit_vector);
    }
}

/// Without owner or control rights and without the copy right, a domain cannot hand on any
/// non-empty set of rights.
pub proof fn lemma_no_grant_without_authority(holder: u32, rights: u32)
    requires
        !has_bits(holder, RIGHT_OWNER),
        !has_bits(holder, RIGHT_CONTROL),
        !has_bits(holder, RIGHT_COPY),
    ensures
        !may_grant(holder, rights),
{
}

} // verus!
