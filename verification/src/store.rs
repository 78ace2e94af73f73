//! The host registry: the single source of truth for registered machines.
//!
//! A store maps ids to hosts and carries an id-allocation counter. Ids are
//! handed out in strictly increasing order starting at 1 and are never
//! reused within the store's lifetime, deletions included. Records are kept
//! in id order, so listing is deterministic for a given store state.

use vstd::prelude::*;

verus! {

/// Why a registry operation failed.
#[derive(Clone, Copy, PartialEq, Eq, Structural, Debug)]
pub enum StoreError {
    /// No host carries the requested id.
    NotFound,
}

/// A registered machine.
#[derive(Debug)]
pub struct Host {
    pub id: i32,
    pub name: String,
    pub ip_address: String,
    pub mac_address: String,
}

/// The mathematical image of one host record.
#[verifier::ext_equal]
pub struct HostV {
    pub id: int,
    pub name: Seq<char>,
    pub ip_address: Seq<char>,
    pub mac_address: Seq<char>,
}

impl View for Host {
    type V = HostV;

    open spec fn view(&self) -> HostV {
        HostV {
            id: self.id as int,
            name: self.name@,
            ip_address: self.ip_address@,
            mac_address: self.mac_address@,
        }
    }
}

impl Clone for Host {
    fn clone(&self) -> (r: Self)
        ensures
            r == *self,
    {
        Host {
            id: self.id,
            name: self.name.clone(),
            ip_address: self.ip_address.clone(),
            mac_address: self.mac_address.clone(),
        }
    }
}

/// The fields of a host still to be created; the store assigns the id.
pub struct NewHost {
    pub name: String,
    pub ip_address: String,
    pub mac_address: String,
}

/// A partial change to a host: each present field overwrites the stored
/// one, each absent field leaves it untouched.
pub struct HostUpdate {
    pub name: Option<String>,
    pub ip_address: Option<String>,
    pub mac_address: Option<String>,
}

/// The mathematical image of a partial change.
#[verifier::ext_equal]
pub struct UpdateV {
    pub name: Option<Seq<char>>,
    pub ip_address: Option<Seq<char>>,
    pub mac_address: Option<Seq<char>>,
}

impl View for HostUpdate {
    type V = UpdateV;

    open spec fn view(&self) -> UpdateV {
        UpdateV {
            name: self.name.deep_view(),
            ip_address: self.ip_address.deep_view(),
            mac_address: self.mac_address.deep_view(),
        }
    }
}

/// The mathematical image of a whole store: its records in order, and the
/// highest id handed out so far.
#[verifier::ext_equal]
pub struct StoreV {
    pub hosts: Seq<HostV>,
    pub next_id: int,
}

/// The position of the first record with this id, if any.
pub open spec fn host_index(hosts: Seq<HostV>, id: int) -> Option<int>
    decreases hosts.len(),
{
    if hosts.len() == 0 {
        None
    } else if hosts[0].id == id {
        Some(0)
    } else {
        match host_index(hosts.drop_first(), id) {
            Some(i) => Some(i + 1),
            None => None,
        }
    }
}

/// Whether some record carries this id.
pub open spec fn contains_host(hosts: Seq<HostV>, id: int) -> bool {
    host_index(hosts, id) is Some
}

pub proof fn lemma_host_index_some(hosts: Seq<HostV>, id: int)
    requires
        host_index(hosts, id) is Some,
    ensures
        ({
            let i = host_index(hosts, id)->0;
            &&& 0 <= i < hosts.len()
            &&& hosts[i].id == id
            &&& forall|j: int| 0 <= j < i ==> (#[trigger] hosts[j]).id != id
        }),
    decreases hosts.len(),
{
    if hosts.len() == 0 {
    } else if hosts[0].id == id {
    } else {
        let d = hosts.drop_first();
        lemma_host_index_some(d, id);
        let i0 = host_index(d, id)->0;
        assert(hosts[i0 + 1] == d[i0]);
        assert(forall|j: int| 1 <= j < i0 + 1 ==> hosts[j] == d[j - 1]);
    }
}

pub proof fn lemma_host_index_at(hosts: Seq<HostV>, id: int, i: int)
    requires
        0 <= i < hosts.len(),
        hosts[i].id == id,
        forall|j: int| 0 <= j < i ==> (#[trigger] hosts[j]).id != id,
    ensures
        host_index(hosts, id) == Some(i),
    decreases hosts.len(),
{
    if i == 0 {
    } else {
        assert(hosts[0].id != id);
        lemma_host_index_at(hosts.drop_first(), id, i - 1);
    }
}

pub proof fn lemma_host_index_none(hosts: Seq<HostV>, id: int)
    requires
        forall|j: int| 0 <= j < hosts.len() ==> (#[trigger] hosts[j]).id != id,
    ensures
        host_index(hosts, id) is None,
    decreases hosts.len(),
{
    if hosts.len() > 0 {
        lemma_host_index_none(hosts.drop_first(), id);
    }
}

/// Well-formedness of a store state: ids are positive, never above the
/// allocation counter, and strictly increasing along the record order.
pub open spec fn store_inv(v: StoreV) -> bool {
    &&& 0 <= v.next_id
    &&& forall|i: int| 0 <= i < v.hosts.len() ==> 1 <= (#[trigger] v.hosts[i]).id <= v.next_id
    &&& forall|i: int, j: int|
        0 <= i < j < v.hosts.len() ==> #[trigger] v.hosts[i].id < #[trigger] v.hosts[j].id
}

/// Creation: allocate the next id, append the record verbatim.
pub open spec fn spec_create(v: StoreV, name: Seq<char>, ip_address: Seq<char>, mac_address: Seq<char>) -> (StoreV, HostV) {
    let h = HostV { id: v.next_id + 1, name, ip_address, mac_address };
    (StoreV { hosts: v.hosts.push(h), next_id: v.next_id + 1 }, h)
}

/// Lookup by id.
pub open spec fn spec_get(v: StoreV, id: int) -> Result<HostV, StoreError> {
    match host_index(v.hosts, id) {
        Some(i) => Ok(v.hosts[i]),
        None => Err(StoreError::NotFound),
    }
}

/// Partial update: each given field overwrites, each absent field stays;
/// all-or-nothing, and an unknown id changes nothing.
pub open spec fn spec_update(v: StoreV, id: int, u: UpdateV) -> Result<(StoreV, HostV), StoreError> {
    match host_index(v.hosts, id) {
        None => Err(StoreError::NotFound),
        Some(i) => {
            let h0 = v.hosts[i];
            let h = HostV {
                id: h0.id,
                name: match u.name {
                    Some(n) => n,
                    None => h0.name,
                },
                ip_address: match u.ip_address {
                    Some(n) => n,
                    None => h0.ip_address,
                },
                mac_address: match u.mac_address {
                    Some(n) => n,
                    None => h0.mac_address,
                },
            };
            Ok((StoreV { hosts: v.hosts.update(i, h), next_id: v.next_id }, h))
        },
    }
}

/// Deletion: drop the record if present; an unknown id is not an error and
/// changes nothing. The id counter never goes back.
pub open spec fn spec_delete(v: StoreV, id: int) -> StoreV {
    match host_index(v.hosts, id) {
        Some(i) => StoreV { hosts: v.hosts.remove(i), next_id: v.next_id },
        None => v,
    }
}

/// Law: in a well-formed store, distinct records hold distinct ids — every
/// id maps to at most one host.
pub proof fn lemma_store_ids_unique(v: StoreV)
    requires
        store_inv(v),
    ensures
        forall|i: int, j: int|
            0 <= i < j < v.hosts.len() ==> #[trigger] v.hosts[i].id != #[trigger] v.hosts[j].id,
{
}

/// Law: creation hands out `next_id + 1`, strictly above every id already
/// present and above everything the counter ever covered; the new state is
/// well formed again. Chained over any sequence of operations — deletions
/// interleaved or not — created ids are therefore strictly increasing and
/// never reused.
pub proof fn lemma_create_allocates_fresh_id(
    v: StoreV,
    name: Seq<char>,
    ip_address: Seq<char>,
    mac_address: Seq<char>,
)
    requires
        store_inv(v),
    ensures
        ({
            let (v2, h) = spec_create(v, name, ip_address, mac_address);
            &&& h.id == v.next_id + 1
            &&& v2.next_id == v.next_id + 1
            &&& forall|i: int| 0 <= i < v.hosts.len() ==> (#[trigger] v.hosts[i]).id < h.id
            &&& store_inv(v2)
        }),
{
    let (v2, h) = spec_create(v, name, ip_address, mac_address);
    assert(forall|i: int|
        0 <= i < v.hosts.len() ==> #[trigger] v2.hosts[i] == v.hosts[i]);
    assert(v2.hosts[v.hosts.len() as int] == h);
}

/// The state and the returned records after a whole series of creations,
/// one row of fields per call, applied in order.
pub open spec fn spec_create_all(v: StoreV, rows: Seq<(Seq<char>, Seq<char>, Seq<char>)>) -> (
    StoreV,
    Seq<HostV>,
)
    decreases rows.len(),
{
    if rows.len() == 0 {
        (v, Seq::<HostV>::empty())
    } else {
        let (v1, h) = spec_create(v, rows[0].0, rows[0].1, rows[0].2);
        let (v2, hs) = spec_create_all(v1, rows.drop_first());
        (v2, seq![h] + hs)
    }
}

/// Law: a series of creations — and the store's lock serializes every mix
/// of concurrent callers into such a series — returns one record per call,
/// with ids strictly increasing in call order, all above anything the
/// store had handed out before; no call is lost and no id repeats.
pub proof fn lemma_create_series_ids_distinct(
    v: StoreV,
    rows: Seq<(Seq<char>, Seq<char>, Seq<char>)>,
)
    requires
        store_inv(v),
    ensures
        ({
            let (v2, hs) = spec_create_all(v, rows);
            &&& hs.len() == rows.len()
            &&& store_inv(v2)
            &&& v2.next_id == v.next_id + rows.len()
            &&& forall|i: int| 0 <= i < hs.len() ==> (#[trigger] hs[i]).id == v.next_id + 1 + i
            &&& forall|i: int, j: int|
                0 <= i < j < hs.len() ==> #[trigger] hs[i].id < #[trigger] hs[j].id
        }),
    decreases rows.len(),
{
    if rows.len() > 0 {
        lemma_create_allocates_fresh_id(v, rows[0].0, rows[0].1, rows[0].2);
        let (v1, h) = spec_create(v, rows[0].0, rows[0].1, rows[0].2);
        lemma_create_series_ids_distinct(v1, rows.drop_first());
        let (v2, hs) = spec_create_all(v1, rows.drop_first());
        assert((seq![h] + hs)[0] == h);
        assert(forall|i: int| 1 <= i < hs.len() + 1 ==> (#[trigger] (seq![h] + hs)[i]) == hs[i
            - 1]);
    }
}

/// Law: a successful update keeps the record count, the record order and
/// the id counter; every record but the targeted one is untouched, and on
/// the targeted one exactly the given fields take the given values.
pub proof fn lemma_update_changes_only_given_fields(v: StoreV, id: int, u: UpdateV)
    requires
        spec_update(v, id, u) is Ok,
    ensures
        ({
            let (v2, h) = spec_update(v, id, u)->Ok_0;
            let i = host_index(v.hosts, id)->0;
            &&& 0 <= i < v.hosts.len()
            &&& v2.next_id == v.next_id
            &&& v2.hosts.len() == v.hosts.len()
            &&& forall|j: int|
                0 <= j < v.hosts.len() && j != i ==> #[trigger] v2.hosts[j] == v.hosts[j]
            &&& v2.hosts[i] == h
            &&& h.id == id
            &&& h.name == (if u.name is Some {
                u.name->0
            } else {
                v.hosts[i].name
            })
            &&& h.ip_address == (if u.ip_address is Some {
                u.ip_address->0
            } else {
                v.hosts[i].ip_address
            })
            &&& h.mac_address == (if u.mac_address is Some {
                u.mac_address->0
            } else {
                v.hosts[i].mac_address
            })
        }),
{
    lemma_host_index_some(v.hosts, id);
}

/// Law: update fails exactly on unregistered ids, and preserves
/// well-formedness when it succeeds.
pub proof fn lemma_update_preserves_inv(v: StoreV, id: int, u: UpdateV)
    requires
        store_inv(v),
    ensures
        spec_update(v, id, u) is Err <==> !contains_host(v.hosts, id),
        spec_update(v, id, u) is Ok ==> store_inv(spec_update(v, id, u)->Ok_0.0),
{
    if spec_update(v, id, u) is Ok {
        lemma_host_index_some(v.hosts, id);
        let (v2, h) = spec_update(v, id, u)->Ok_0;
        assert(forall|j: int|
            0 <= j < v.hosts.len() ==> (#[trigger] v2.hosts[j]).id == v.hosts[j].id);
    }
}

/// Law: deletion preserves well-formedness and never lowers the id
/// counter, so an id freed by deletion is still never handed out again.
pub proof fn lemma_delete_preserves_inv(v: StoreV, id: int)
    requires
        store_inv(v),
    ensures
        store_inv(spec_delete(v, id)),
        spec_delete(v, id).next_id == v.next_id,
{
    if contains_host(v.hosts, id) {
        lemma_host_index_some(v.hosts, id);
        let i = host_index(v.hosts, id)->0;
        let hs = v.hosts.remove(i);
        assert(forall|j: int|
            0 <= j < hs.len() ==> #[trigger] hs[j] == (if j < i {
                v.hosts[j]
            } else {
                v.hosts[j + 1]
            }));
    }
}

/// Law: lookup succeeds exactly on registered ids, and the record it
/// returns carries the id that was asked for.
pub proof fn lemma_get_finds_exact_id(v: StoreV, id: int)
    ensures
        spec_get(v, id) is Ok <==> contains_host(v.hosts, id),
        spec_get(v, id) is Ok ==> spec_get(v, id)->Ok_0.id == id,
{
    if contains_host(v.hosts, id) {
        lemma_host_index_some(v.hosts, id);
    }
}

/// The host registry. Its view is a [`StoreV`].
pub struct HostStore {
    hosts: Vec<Host>,
    next_id: i32,
}

/// The images of a row of records, in order.
pub open spec fn hosts_view(hs: Seq<Host>) -> Seq<HostV> {
    hs.map_values(|h: Host| h@)
}

impl View for HostStore {
    type V = StoreV;

    closed spec fn view(&self) -> StoreV {
        StoreV { hosts: hosts_view(self.hosts@), next_id: self.next_id as int }
    }
}

impl HostStore {
    #[verifier::type_invariant]
    spec fn wf(&self) -> bool {
        store_inv(self@)
    }

    /// An empty registry; the first created host will get id 1.
    ///
    /// Law (with the matching clause on every operation below): every
    /// reachable store state is well formed — ids positive, bounded by the
    /// allocation counter, and strictly increasing along the record order.
    pub fn new() -> (s: HostStore)
        ensures
            s@.hosts == Seq::<HostV>::empty(),
            s@.next_id == 0,
            store_inv(s@),
    {
        let s = HostStore { hosts: Vec::new(), next_id: 0 };
        proof {
            assert(s@.hosts =~= Seq::<HostV>::empty());
        }
        s
    }

    /// Whether another id can still be allocated (the counter has not hit
    /// its machine bound).
    pub fn can_create(&self) -> (r: bool)
        ensures
            r == (self@.next_id < i32::MAX),
    {
        self.next_id < i32::MAX
    }

    /// The position of the host with this id, if one is registered.
    fn find_index(&self, id: i32) -> (r: Option<usize>)
        ensures
            match r {
                Some(i) => host_index(self@.hosts, id as int) == Some(i as int),
                None => host_index(self@.hosts, id as int) is None,
            },
    {
        let n = self.hosts.len();
        let mut i: usize = 0;
        while i < n
            invariant
                i <= n,
                n == self@.hosts.len(),
                n == self.hosts@.len(),
                forall|j: int| 0 <= j < i ==> (#[trigger] self@.hosts[j]).id != id as int,
            decreases n - i,
        {
            if self.hosts[i].id == id {
                proof {
                    lemma_host_index_at(self@.hosts, id as int, i as int);
                }
                return Some(i);
            }
            i = i + 1;
        }
        proof {
            lemma_host_index_none(self@.hosts, id as int);
        }
        None
    }

    /// Registers a host: assigns the next id, stores the fields verbatim,
    /// and returns a copy of the stored record. Every id already present is
    /// strictly below the new one.
    pub fn create(&mut self, new: NewHost) -> (h: Host)
        requires
            old(self)@.next_id < i32::MAX,
        ensures
            final(self)@ == spec_create(old(self)@, new.name@, new.ip_address@, new.mac_address@).0,
            h@ == spec_create(old(self)@, new.name@, new.ip_address@, new.mac_address@).1,
            forall|i: int|
                0 <= i < old(self)@.hosts.len() ==> (#[trigger] old(self)@.hosts[i]).id < h@.id,
            store_inv(old(self)@) && store_inv(final(self)@),
    {
        proof {
            use_type_invariant(&*self);
        }
        let id = self.next_id + 1;
        let mut hosts: Vec<Host> = Vec::new();
        core::mem::swap(&mut hosts, &mut self.hosts);
        self.next_id = id;
        let host = Host {
            id,
            name: new.name,
            ip_address: new.ip_address,
            mac_address: new.mac_address,
        };
        let copy = host.clone();
        hosts.push(host);
        proof {
            assert(hosts_view(hosts@) =~= old(self)@.hosts.push(copy@));
            assert(store_inv(StoreV { hosts: hosts_view(hosts@), next_id: id as int }));
        }
        core::mem::swap(&mut hosts, &mut self.hosts);
        proof {
            assert(self@.hosts =~= spec_create(
                old(self)@,
                new.name@,
                new.ip_address@,
                new.mac_address@,
            ).0.hosts);
        }
        copy
    }

    /// Returns a copy of the host with this id, or `NotFound`.
    pub fn get(&self, id: i32) -> (r: Result<Host, StoreError>)
        ensures
            match r {
                Ok(h) => spec_get(self@, id as int) == Ok::<HostV, StoreError>(h@),
                Err(e) => spec_get(self@, id as int) == Err::<HostV, StoreError>(e),
            },
    {
        match self.find_index(id) {
            Some(i) => {
                proof {
                    lemma_host_index_some(self@.hosts, id as int);
                }
                Ok(self.hosts[i].clone())
            },
            None => Err(StoreError::NotFound),
        }
    }

    /// Copies of all registered hosts, in id order.
    pub fn list(&self) -> (r: Vec<Host>)
        ensures
            r@.len() == self@.hosts.len(),
            forall|i: int| 0 <= i < r@.len() ==> (#[trigger] r@[i])@ == self@.hosts[i],
            store_inv(self@),
    {
        proof {
            use_type_invariant(self);
        }
        let n = self.hosts.len();
        let mut r: Vec<Host> = Vec::new();
        let mut i: usize = 0;
        while i < n
            invariant
                i <= n,
                n == self.hosts@.len(),
                n == self@.hosts.len(),
                r@.len() == i,
                forall|j: int| 0 <= j < i ==> (#[trigger] r@[j])@ == self@.hosts[j],
            decreases n - i,
        {
            r.push(self.hosts[i].clone());
            i = i + 1;
        }
        r
    }

    /// Applies a partial update to the host with this id and returns a copy
    /// of the result, or `NotFound` — in which case nothing changed.
    pub fn update(&mut self, id: i32, upd: HostUpdate) -> (r: Result<Host, StoreError>)
        ensures
            match r {
                Ok(h) => spec_update(old(self)@, id as int, upd@) == Ok::<
                    (StoreV, HostV),
                    StoreError,
                >((final(self)@, h@)),
                Err(e) => {
                    &&& final(self)@ == old(self)@
                    &&& spec_update(old(self)@, id as int, upd@) == Err::<
                        (StoreV, HostV),
                        StoreError,
                    >(e)
                },
            },
            r is Err <==> !contains_host(old(self)@.hosts, id as int),
            store_inv(old(self)@) && store_inv(final(self)@),
    {
        proof {
            use_type_invariant(&*self);
        }
        let idx = match self.find_index(id) {
            Some(i) => i,
            None => {
                return Err(StoreError::NotFound);
            },
        };
        proof {
            lemma_host_index_some(self@.hosts, id as int);
        }
        let mut hosts: Vec<Host> = Vec::new();
        core::mem::swap(&mut hosts, &mut self.hosts);
        let old_host = hosts.remove(idx);
        let host = Host {
            id: old_host.id,
            name: match upd.name {
                Some(n) => n,
                None => old_host.name,
            },
            ip_address: match upd.ip_address {
                Some(n) => n,
                None => old_host.ip_address,
            },
            mac_address: match upd.mac_address {
                Some(n) => n,
                None => old_host.mac_address,
            },
        };
        let copy = host.clone();
        hosts.insert(idx, host);
        proof {
            assert(hosts_view(hosts@) =~= old(self)@.hosts.update(idx as int, copy@));
            assert(forall|j: int|
                0 <= j < hosts_view(hosts@).len() ==> (#[trigger] hosts_view(hosts@)[j]).id
                    == old(self)@.hosts[j].id);
            assert(store_inv(
                StoreV { hosts: hosts_view(hosts@), next_id: old(self)@.next_id },
            ));
        }
        core::mem::swap(&mut hosts, &mut self.hosts);
        proof {
            assert(self@.hosts =~= old(self)@.hosts.update(idx as int, copy@));
            assert(spec_update(old(self)@, id as int, upd@) == Ok::<(StoreV, HostV), StoreError>(
                (self@, copy@),
            ));
        }
        Ok(copy)
    }

    /// Removes the host with this id if present; removing an unknown id is
    /// not an error and changes nothing.
    pub fn delete(&mut self, id: i32)
        ensures
            final(self)@ == spec_delete(old(self)@, id as int),
            !contains_host(old(self)@.hosts, id as int) ==> final(self)@ == old(self)@,
            store_inv(old(self)@) && store_inv(final(self)@),
    {
        proof {
            use_type_invariant(&*self);
        }
        match self.find_index(id) {
            Some(i) => {
                proof {
                    lemma_host_index_some(self@.hosts, id as int);
                }
                let mut hosts: Vec<Host> = Vec::new();
                core::mem::swap(&mut hosts, &mut self.hosts);
                let _removed = hosts.remove(i);
                proof {
                    assert(hosts_view(hosts@) =~= old(self)@.hosts.remove(i as int));
                    assert(store_inv(
                        StoreV { hosts: hosts_view(hosts@), next_id: old(self)@.next_id },
                    ));
                }
                core::mem::swap(&mut hosts, &mut self.hosts);
                proof {
                    assert(self@.hosts =~= old(self)@.hosts.remove(
                        host_index(old(self)@.hosts, id as int)->0,
                    ));
                    assert(self@ =~~= spec_delete(old(self)@, id as int));
                }
            },
            None => {
                proof {
                    assert(self@ =~~= spec_delete(old(self)@, id as int));
                }
            },
        }
    }
}

} // verus!
