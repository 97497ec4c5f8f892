//! In-memory indices over the rows of a registry snapshot.

use crate::name::{name_key, CrateName};
use std::collections::HashMap;
use vstd::prelude::*;

verus! {

broadcast use vstd::std_specs::hash::group_hash_axioms;

/// A semantic version number: three numeric components, a pre-release
/// string and a build-metadata string (either may be empty).
#[derive(Debug)]
pub struct Version {
    pub major: u64,
    pub minor: u64,
    pub patch: u64,
    pub pre: String,
    pub build: String,
}

/// Two versions are the same when every component agrees.
pub open spec fn same_version(a: Version, b: Version) -> bool {
    &&& a.major == b.major
    &&& a.minor == b.minor
    &&& a.patch == b.patch
    &&& a.pre@ == b.pre@
    &&& a.build@ == b.build@
}

impl Version {
    pub fn same(&self, other: &Version) -> (r: bool)
        ensures
            r == same_version(*self, *other),
    {
        self.major == other.major && self.minor == other.minor && self.patch == other.patch
            && self.pre == other.pre && self.build == other.build
    }
}

impl Clone for Version {
    fn clone(&self) -> (r: Self)
        ensures
            r == *self,
    {
        Version {
            major: self.major,
            minor: self.minor,
            patch: self.patch,
            pre: self.pre.clone(),
            build: self.build.clone(),
        }
    }
}

/// One published version of a package. Timestamps are microseconds since
/// the Unix epoch.
#[derive(Debug)]
pub struct VersionRow {
    pub crate_id: u32,
    pub num: Version,
    pub created_at: i64,
    pub published_by: Option<u32>,
}

impl Clone for VersionRow {
    fn clone(&self) -> (r: Self)
        ensures
            r == *self,
    {
        VersionRow {
            crate_id: self.crate_id,
            num: self.num.clone(),
            created_at: self.created_at,
            published_by: self.published_by,
        }
    }
}

/// Who owns a package: a user account or a team.
#[derive(Clone, Copy, Debug, PartialEq, Eq, Structural)]
pub enum Owner {
    User(u32),
    Team(u32),
}

/// A package name with the id it is registered under.
#[derive(Debug)]
pub struct CrateEntry {
    pub id: u32,
    pub name: CrateName,
}

impl Clone for CrateEntry {
    fn clone(&self) -> (r: Self)
        ensures
            r == *self,
    {
        CrateEntry { id: self.id, name: self.name.clone() }
    }
}

/// The package table, in the order in which its rows came.
pub open spec fn crate_rows(rows: Seq<CrateEntry>) -> Seq<(u32, Seq<u8>)> {
    rows.map_values(|e: CrateEntry| (e.id, e.name@))
}

/// The id registered under a name key: that of the last row whose name has
/// this key.
pub open spec fn id_of(rows: Seq<(u32, Seq<u8>)>, key: Seq<u8>) -> Option<u32>
    decreases rows.len(),
{
    if rows.len() == 0 {
        None
    } else if name_key(rows.last().1) == key {
        Some(rows.last().0)
    } else {
        id_of(rows.drop_last(), key)
    }
}

/// No two rows of the package table name the same package.
pub open spec fn keys_unique(rows: Seq<(u32, Seq<u8>)>) -> bool {
    forall|i: int, j: int|
        0 <= i < rows.len() && 0 <= j < rows.len() && i != j ==> name_key(#[trigger] rows[i].1)
            != name_key(#[trigger] rows[j].1)
}

/// The version that stays the latest after `row` arrives: a row replaces the
/// kept one only when it is strictly newer.
pub open spec fn keep_latest(latest: Map<u32, VersionRow>, row: VersionRow) -> Map<u32, VersionRow> {
    if latest.contains_key(row.crate_id) && !(row.created_at > latest[row.crate_id].created_at) {
        latest
    } else {
        latest.insert(row.crate_id, row)
    }
}

/// Strict order on ownership records: by timestamp, then by account id.
pub open spec fn record_less(a: (i64, u32), b: (i64, u32)) -> bool {
    a.0 < b.0 || (a.0 == b.0 && a.1 < b.1)
}

/// Ownership records of one package, ordered and free of duplicates.
pub open spec fn records_sorted(s: Seq<(i64, u32)>) -> bool {
    forall|i: int, j: int| 0 <= i < j < s.len() ==> record_less(#[trigger] s[i], #[trigger] s[j])
}

/// The indices built from a snapshot.
pub struct Snapshot {
    crates: Vec<CrateEntry>,
    latest: HashMap<u32, VersionRow>,
    owners: HashMap<u32, Vec<(i64, u32)>>,
    users: HashMap<u32, String>,
}

impl Snapshot {
    /// The package table.
    pub closed spec fn crates(&self) -> Seq<(u32, Seq<u8>)> {
        crate_rows(self.crates@)
    }

    /// The latest version of each package.
    pub closed spec fn latest(&self) -> Map<u32, VersionRow> {
        self.latest@
    }

    /// The user-account ownership records of each package, in order.
    pub closed spec fn owners(&self, crate_id: u32) -> Seq<(i64, u32)> {
        if self.owners@.contains_key(crate_id) {
            self.owners@[crate_id]@
        } else {
            Seq::empty()
        }
    }

    /// The login of each known account.
    pub closed spec fn users(&self) -> Map<u32, Seq<char>> {
        self.users@.map_values(|s: String| s@)
    }

    pub closed spec fn wf(&self) -> bool {
        forall|c: u32| records_sorted(#[trigger] self.owners(c))
    }

    proof fn lemma_same_owners(&self, other: &Snapshot)
        requires
            self.wf(),
            self.owners == other.owners,
        ensures
            other.wf(),
            forall|c: u32| other.owners(c) == self.owners(c),
    {
        assert forall|c: u32| records_sorted(#[trigger] other.owners(c)) by {
            assert(other.owners(c) == self.owners(c));
        }
    }

    pub fn new() -> (r: Self)
        ensures
            r.wf(),
            r.crates() == Seq::<(u32, Seq<u8>)>::empty(),
            r.latest() == Map::<u32, VersionRow>::empty(),
            forall|c: u32| r.owners(c) == Seq::<(i64, u32)>::empty(),
            r.users() == Map::<u32, Seq<char>>::empty(),
    {
        let r = Snapshot {
            crates: Vec::new(),
            latest: HashMap::new(),
            owners: HashMap::new(),
            users: HashMap::new(),
        };
        assert(r.crates() =~= Seq::<(u32, Seq<u8>)>::empty());
        assert(r.users() =~= Map::<u32, Seq<char>>::empty());
        r
    }

    /// Records a package row.
    pub fn add_crate(&mut self, id: u32, name: CrateName)
        requires
            old(self).wf(),
        ensures
            final(self).wf(),
            final(self).crates() == old(self).crates().push((id, name@)),
            final(self).latest() == old(self).latest(),
            forall|c: u32| final(self).owners(c) == old(self).owners(c),
            final(self).users() == old(self).users(),
    {
        self.crates.push(CrateEntry { id, name });
        proof {
            old(self).lemma_same_owners(self);
        }
        assert(self.crates() =~= old(self).crates().push((id, name@)));
    }

    /// Records a version row; only the newest version of each package is kept.
    pub fn add_version(&mut self, row: VersionRow)
        requires
            old(self).wf(),
        ensures
            final(self).wf(),
            final(self).crates() == old(self).crates(),
            final(self).latest() == keep_latest(old(self).latest(), row),
            forall|c: u32| final(self).owners(c) == old(self).owners(c),
            final(self).users() == old(self).users(),
    {
        let keep = match self.latest.get(&row.crate_id) {
            Some(kept) => !(row.created_at > kept.created_at),
            None => false,
        };
        if !keep {
            self.latest.insert(row.crate_id, row);
        }
        proof {
            old(self).lemma_same_owners(self);
        }
    }

    /// Records an ownership row; team owners are left out.
    pub fn add_owner(&mut self, crate_id: u32, owner: Owner, created_at: i64)
        requires
            old(self).wf(),
        ensures
            final(self).wf(),
            final(self).crates() == old(self).crates(),
            final(self).latest() == old(self).latest(),
            forall|c: u32|
                c != crate_id ==> #[trigger] final(self).owners(c) == old(self).owners(c),
            match owner {
                Owner::User(user_id) => final(self).owners(crate_id).to_set() == old(
                    self,
                ).owners(crate_id).to_set().insert((created_at, user_id)),
                Owner::Team(_) => final(self).owners(crate_id) == old(self).owners(crate_id),
            },
            final(self).users() == old(self).users(),
    {
        if let Owner::User(user_id) = owner {
            let mut records = match self.owners.remove(&crate_id) {
                Some(v) => v,
                None => Vec::new(),
            };
            assert(records@ == old(self).owners(crate_id));
            assert(records_sorted(old(self).owners(crate_id)));
            insert_record(&mut records, (created_at, user_id));
            self.owners.insert(crate_id, records);
            assert forall|c: u32| records_sorted(#[trigger] self.owners(c)) by {
                if c != crate_id {
                    assert(self.owners(c) == old(self).owners(c));
                    assert(records_sorted(old(self).owners(c)));
                }
            }
        }
    }

    /// Records an account row.
    pub fn add_user(&mut self, id: u32, login: String)
        requires
            old(self).wf(),
        ensures
            final(self).wf(),
            final(self).crates() == old(self).crates(),
            final(self).latest() == old(self).latest(),
            forall|c: u32| final(self).owners(c) == old(self).owners(c),
            final(self).users() == old(self).users().insert(id, login@),
    {
        self.users.insert(id, login);
        proof {
            old(self).lemma_same_owners(self);
        }
        assert(self.users() =~= old(self).users().insert(id, login@));
    }

    pub fn crate_count(&self) -> (r: usize)
        ensures
            r == self.crates().len(),
    {
        self.crates.len()
    }

    /// The package row at position `i`.
    pub fn crate_at(&self, i: usize) -> (r: &CrateEntry)
        requires
            i < self.crates().len(),
        ensures
            (r.id, r.name@) == self.crates()[i as int],
    {
        &self.crates[i]
    }

    /// The id registered under the name's key.
    pub fn id_of(&self, name: &CrateName) -> (r: Option<u32>)
        ensures
            r == id_of(self.crates(), name_key(name@)),
    {
        let mut i: usize = self.crates.len();
        assert(self.crates().subrange(0, i as int) =~= self.crates());
        while i > 0
            invariant
                i <= self.crates@.len(),
                id_of(self.crates(), name_key(name@)) == id_of(
                    self.crates().subrange(0, i as int),
                    name_key(name@),
                ),
            decreases i,
        {
            let ghost prefix = self.crates().subrange(0, i as int);
            assert(prefix.drop_last() =~= self.crates().subrange(0, i - 1));
            if self.crates[i - 1].name.same(name) {
                return Some(self.crates[i - 1].id);
            }
            i = i - 1;
        }
        None
    }

    /// The latest version of a package, if it has any.
    pub fn latest_of(&self, crate_id: u32) -> (r: Option<&VersionRow>)
        ensures
            match r {
                Some(v) => self.latest().contains_key(crate_id) && *v == self.latest()[crate_id],
                None => !self.latest().contains_key(crate_id),
            },
    {
        self.latest.get(&crate_id)
    }

    /// The ownership records of a package, in order.
    pub fn owners_of(&self, crate_id: u32) -> (r: Vec<(i64, u32)>)
        ensures
            r@ == self.owners(crate_id),
    {
        let mut r: Vec<(i64, u32)> = Vec::new();
        if let Some(v) = self.owners.get(&crate_id) {
            let mut i: usize = 0;
            while i < v.len()
                invariant
                    i <= v@.len(),
                    r@ == v@.subrange(0, i as int),
                decreases v@.len() - i,
            {
                r.push(v[i]);
                assert(r@ =~= v@.subrange(0, i + 1));
                i = i + 1;
            }
            assert(r@ =~= v@);
        }
        r
    }

    /// The login of an account; empty when the account is unknown.
    pub fn login_of(&self, user_id: u32) -> (r: String)
        ensures
            r@ == (if self.users().contains_key(user_id) {
                self.users()[user_id]
            } else {
                Seq::empty()
            }),
    {
        match self.users.get(&user_id) {
            Some(login) => login.clone(),
            None => String::new(),
        }
    }
}

/// Adds a record to an ordered, duplicate-free list of ownership records.
fn insert_record(v: &mut Vec<(i64, u32)>, p: (i64, u32))
    requires
        records_sorted(old(v)@),
    ensures
        records_sorted(final(v)@),
        final(v)@.to_set() == old(v)@.to_set().insert(p),
{
    let mut i: usize = 0;
    while i < v.len() && (v[i].0 < p.0 || (v[i].0 == p.0 && v[i].1 < p.1))
        invariant
            i <= v@.len(),
            v@ == old(v)@,
            records_sorted(v@),
            forall|k: int| 0 <= k < i ==> record_less(#[trigger] v@[k], p),
        decreases v@.len() - i,
    {
        i = i + 1;
    }
    if i < v.len() && v[i].0 == p.0 && v[i].1 == p.1 {
        assert(old(v)@.to_set().insert(p) =~= old(v)@.to_set());
        return;
    }
    v.insert(i, p);
    proof {
        old(v)@.insert_ensures(i as int, p);
    }
    assert forall|x: (i64, u32)| #[trigger] v@.to_set().contains(x) <==> old(v)@.to_set().insert(
        p,
    ).contains(x) by {
        if v@.to_set().contains(x) {
            let k = choose|k: int| 0 <= k < v@.len() && v@[k] == x;
            if k > i {
                assert(old(v)@[k - 1] == x);
            }
        }
        if old(v)@.contains(x) {
            let k = choose|k: int| 0 <= k < old(v)@.len() && old(v)@[k] == x;
            if k < i {
                assert(v@[k] == x);
            } else {
                assert(v@[k + 1] == x);
            }
        }
    }
    assert(v@.to_set() =~= old(v)@.to_set().insert(p));
}

} // verus!
