//! Reconciliation of a prior report with a snapshot, and the rows of the new
//! report with the owners credited for each.

use crate::classify::{is_placeholder, is_placeholder_version};
use crate::flagged::{flag, has_key, keys_sorted, lemma_entries_unique, FlaggedSet};
use crate::leaderboard::{
    credit, is_ranking, leaderboard, lemma_ranking_same_credit, lemma_ranking_unique, lists_view,
    LEADERBOARD_SIZE,
};
use crate::index::{id_of, keys_unique, same_version, CrateEntry, Snapshot, Version, VersionRow};
use crate::name::{lemma_seq_less_irreflexive, name_key, CrateName};
use vstd::prelude::*;

verus! {

/// One row of a report: a package name, the login of the account it is
/// attributed to (empty when unresolved) and the version it was flagged at.
#[derive(Debug)]
pub struct ReportRow {
    pub name: CrateName,
    pub user: String,
    pub version: Option<Version>,
}

/// The package that a prior report row still stands for: its name is still
/// registered, the package still has a version, and the recorded version,
/// if any, is still the latest one.
pub open spec fn admitted(
    crates: Seq<(u32, Seq<u8>)>,
    latest: Map<u32, VersionRow>,
    name: Seq<u8>,
    version: Option<Version>,
) -> Option<u32> {
    match id_of(crates, name_key(name)) {
        None => None,
        Some(id) => if !latest.contains_key(id) {
            None
        } else {
            match version {
                Some(v) => if same_version(v, latest[id].num) {
                    Some(id)
                } else {
                    None
                },
                None => Some(id),
            }
        },
    }
}

/// The flagged set after the prior report rows are admitted in order.
pub open spec fn admit_rows(
    s: Set<(u32, Seq<u8>)>,
    crates: Seq<(u32, Seq<u8>)>,
    latest: Map<u32, VersionRow>,
    rows: Seq<ReportRow>,
) -> Set<(u32, Seq<u8>)>
    decreases rows.len(),
{
    if rows.len() == 0 {
        s
    } else {
        let before = admit_rows(s, crates, latest, rows.drop_last());
        match admitted(crates, latest, rows.last().name@, rows.last().version) {
            Some(id) => flag(before, (id, rows.last().name@)),
            None => before,
        }
    }
}

/// The flagged set after every package whose latest version is a
/// placeholder release is added, in the order of the package table.
pub open spec fn flag_placeholders(
    s: Set<(u32, Seq<u8>)>,
    crates: Seq<(u32, Seq<u8>)>,
    latest: Map<u32, VersionRow>,
) -> Set<(u32, Seq<u8>)>
    decreases crates.len(),
{
    if crates.len() == 0 {
        s
    } else {
        let before = flag_placeholders(s, crates.drop_last(), latest);
        let (id, name) = crates.last();
        if latest.contains_key(id) && is_placeholder(latest[id].num) {
            flag(before, (id, name))
        } else {
            before
        }
    }
}

/// The packages flagged in a run: the prior report's rows that still hold,
/// then the placeholder releases.
pub open spec fn flagged_set(
    crates: Seq<(u32, Seq<u8>)>,
    latest: Map<u32, VersionRow>,
    prior: Seq<ReportRow>,
) -> Set<(u32, Seq<u8>)> {
    flag_placeholders(admit_rows(Set::empty(), crates, latest, prior), crates, latest)
}

proof fn lemma_flag_keys(s: Set<(u32, Seq<u8>)>, e: (u32, Seq<u8>), k: Seq<u8>)
    ensures
        has_key(flag(s, e), k) <==> (has_key(s, k) || name_key(e.1) == k),
{
    if has_key(flag(s, e), k) && !has_key(s, k) {
        let x = choose|x: (u32, Seq<u8>)| #[trigger] flag(s, e).contains(x) && name_key(x.1) == k;
        assert(x == e);
    }
    if has_key(s, k) {
        let x = choose|x: (u32, Seq<u8>)| #[trigger] s.contains(x) && name_key(x.1) == k;
        assert(flag(s, e).contains(x));
    }
    if name_key(e.1) == k && !has_key(s, name_key(e.1)) {
        assert(flag(s, e).contains(e));
    }
}

/// The keys that admission can bring in are those of admitted rows.
proof fn lemma_admit_keys(
    s: Set<(u32, Seq<u8>)>,
    crates: Seq<(u32, Seq<u8>)>,
    latest: Map<u32, VersionRow>,
    rows: Seq<ReportRow>,
    k: Seq<u8>,
)
    ensures
        has_key(admit_rows(s, crates, latest, rows), k) ==> (has_key(s, k) || exists|j: int|
            0 <= j < rows.len() && name_key((#[trigger] rows[j]).name@) == k && admitted(
                crates,
                latest,
                rows[j].name@,
                rows[j].version,
            ) is Some),
        has_key(s, k) ==> has_key(admit_rows(s, crates, latest, rows), k),
    decreases rows.len(),
{
    if rows.len() > 0 {
        let before = admit_rows(s, crates, latest, rows.drop_last());
        lemma_admit_keys(s, crates, latest, rows.drop_last(), k);
        let last = rows.last();
        if let Some(id) = admitted(crates, latest, last.name@, last.version) {
            lemma_flag_keys(before, (id, last.name@), k);
        }
        if has_key(admit_rows(s, crates, latest, rows), k) && !has_key(s, k) {
            if has_key(before, k) {
                let j = choose|j: int|
                    0 <= j < rows.drop_last().len() && name_key(
                        (#[trigger] rows.drop_last()[j]).name@,
                    ) == k && admitted(
                        crates,
                        latest,
                        rows.drop_last()[j].name@,
                        rows.drop_last()[j].version,
                    ) is Some;
                assert(rows[j] == rows.drop_last()[j]);
            } else {
                assert(rows[rows.len() - 1] == last);
            }
        }
    }
}

/// The keys that the placeholder pass can bring in are those of packages
/// whose latest version is a placeholder; and each of those is brought in.
proof fn lemma_placeholder_keys(
    s: Set<(u32, Seq<u8>)>,
    crates: Seq<(u32, Seq<u8>)>,
    latest: Map<u32, VersionRow>,
    k: Seq<u8>,
)
    ensures
        has_key(flag_placeholders(s, crates, latest), k) <==> (has_key(s, k) || exists|c: int|
            0 <= c < crates.len() && name_key((#[trigger] crates[c]).1) == k && latest.contains_key(
                crates[c].0,
            ) && is_placeholder(latest[crates[c].0].num)),
    decreases crates.len(),
{
    if crates.len() > 0 {
        let before = flag_placeholders(s, crates.drop_last(), latest);
        lemma_placeholder_keys(s, crates.drop_last(), latest, k);
        let (id, name) = crates.last();
        if latest.contains_key(id) && is_placeholder(latest[id].num) {
            lemma_flag_keys(before, (id, name), k);
        }
        let found = exists|c: int|
            0 <= c < crates.len() && name_key((#[trigger] crates[c]).1) == k && latest.contains_key(
                crates[c].0,
            ) && is_placeholder(latest[crates[c].0].num);
        if found {
            let c = choose|c: int|
                0 <= c < crates.len() && name_key((#[trigger] crates[c]).1) == k
                    && latest.contains_key(crates[c].0) && is_placeholder(latest[crates[c].0].num);
            if c < crates.len() - 1 {
                assert(crates.drop_last()[c] == crates[c]);
            }
        }
        if exists|c: int|
            0 <= c < crates.drop_last().len() && name_key((#[trigger] crates.drop_last()[c]).1)
                == k && latest.contains_key(crates.drop_last()[c].0) && is_placeholder(
                latest[crates.drop_last()[c].0].num,
            ) {
            let c = choose|c: int|
                0 <= c < crates.drop_last().len() && name_key((#[trigger] crates.drop_last()[c]).1)
                    == k && latest.contains_key(crates.drop_last()[c].0) && is_placeholder(
                    latest[crates.drop_last()[c].0].num,
                );
            assert(crates[c] == crates.drop_last()[c]);
        }
    }
}

/// With unique name keys, a name's key leads back to its own row.
proof fn lemma_id_of_unique(crates: Seq<(u32, Seq<u8>)>, c: int)
    requires
        keys_unique(crates),
        0 <= c < crates.len(),
    ensures
        id_of(crates, name_key(crates[c].1)) == Some(crates[c].0),
    decreases crates.len(),
{
    if c < crates.len() - 1 {
        let rest = crates.drop_last();
        assert(name_key(crates[crates.len() - 1].1) != name_key(crates[c].1));
        assert forall|i: int, j: int|
            0 <= i < rest.len() && 0 <= j < rest.len() && i != j implies name_key(
                #[trigger] rest[i].1,
            ) != name_key(#[trigger] rest[j].1) by {
            assert(rest[i] == crates[i] && rest[j] == crates[j]);
        }
        assert(rest[c] == crates[c]);
        lemma_id_of_unique(rest, c);
    }
}

/// A package whose latest version is a placeholder release is flagged,
/// whatever the prior report held.
pub proof fn lemma_placeholder_flagged(
    crates: Seq<(u32, Seq<u8>)>,
    latest: Map<u32, VersionRow>,
    prior: Seq<ReportRow>,
    c: int,
)
    requires
        0 <= c < crates.len(),
        latest.contains_key(crates[c].0),
        is_placeholder(latest[crates[c].0].num),
    ensures
        has_key(flagged_set(crates, latest, prior), name_key(crates[c].1)),
{
    lemma_placeholder_keys(
        admit_rows(Set::empty(), crates, latest, prior),
        crates,
        latest,
        name_key(crates[c].1),
    );
}

/// A package whose latest version is no placeholder, and for which every
/// prior report row records a version other than the latest, is not
/// flagged: a newer genuine release clears an old flag.
pub proof fn lemma_superseded_dropped(
    crates: Seq<(u32, Seq<u8>)>,
    latest: Map<u32, VersionRow>,
    prior: Seq<ReportRow>,
    c: int,
)
    requires
        keys_unique(crates),
        0 <= c < crates.len(),
        latest.contains_key(crates[c].0),
        !is_placeholder(latest[crates[c].0].num),
        forall|j: int|
            0 <= j < prior.len() && name_key((#[trigger] prior[j]).name@) == name_key(crates[c].1)
                ==> prior[j].version is Some && !same_version(
                prior[j].version->0,
                latest[crates[c].0].num,
            ),
    ensures
        !has_key(flagged_set(crates, latest, prior), name_key(crates[c].1)),
{
    let k = name_key(crates[c].1);
    let empty = Set::<(u32, Seq<u8>)>::empty();
    lemma_id_of_unique(crates, c);
    lemma_admit_keys(empty, crates, latest, prior, k);
    lemma_placeholder_keys(admit_rows(empty, crates, latest, prior), crates, latest, k);
    if exists|d: int|
        0 <= d < crates.len() && name_key((#[trigger] crates[d]).1) == k && latest.contains_key(
            crates[d].0,
        ) && is_placeholder(latest[crates[d].0].num) {
        let d = choose|d: int|
            0 <= d < crates.len() && name_key((#[trigger] crates[d]).1) == k
                && latest.contains_key(crates[d].0) && is_placeholder(latest[crates[d].0].num);
        assert(d == c);
    }
    assert(!has_key(empty, k));
}

/// An entry that is consistent with the snapshot: its name's key leads to
/// its id, and that package has a latest version.
pub open spec fn consistent(
    crates: Seq<(u32, Seq<u8>)>,
    latest: Map<u32, VersionRow>,
    e: (u32, Seq<u8>),
) -> bool {
    id_of(crates, name_key(e.1)) == Some(e.0) && latest.contains_key(e.0)
}

proof fn lemma_admitted_consistent(
    s: Set<(u32, Seq<u8>)>,
    crates: Seq<(u32, Seq<u8>)>,
    latest: Map<u32, VersionRow>,
    rows: Seq<ReportRow>,
)
    requires
        forall|x: (u32, Seq<u8>)| #[trigger] s.contains(x) ==> consistent(crates, latest, x),
    ensures
        forall|x: (u32, Seq<u8>)|
            #[trigger] admit_rows(s, crates, latest, rows).contains(x) ==> consistent(crates, latest, x),
    decreases rows.len(),
{
    if rows.len() > 0 {
        let before = admit_rows(s, crates, latest, rows.drop_last());
        lemma_admitted_consistent(s, crates, latest, rows.drop_last());
        let last = rows.last();
        assert forall|x: (u32, Seq<u8>)| #[trigger]
            admit_rows(s, crates, latest, rows).contains(x) implies consistent(crates, latest, x) by {
            if !before.contains(x) {
                let id = admitted(crates, latest, last.name@, last.version)->0;
                assert(x == (id, last.name@));
            }
        }
    }
}

proof fn lemma_placeholders_consistent(
    s: Set<(u32, Seq<u8>)>,
    crates: Seq<(u32, Seq<u8>)>,
    all: Seq<(u32, Seq<u8>)>,
    latest: Map<u32, VersionRow>,
)
    requires
        keys_unique(all),
        crates.len() <= all.len(),
        crates == all.take(crates.len() as int),
        forall|x: (u32, Seq<u8>)| #[trigger] s.contains(x) ==> consistent(all, latest, x),
    ensures
        forall|x: (u32, Seq<u8>)|
            #[trigger] flag_placeholders(s, crates, latest).contains(x) ==> consistent(all, latest, x),
    decreases crates.len(),
{
    if crates.len() > 0 {
        let n = crates.len() - 1;
        assert(crates.drop_last() == all.take(n));
        lemma_placeholders_consistent(s, crates.drop_last(), all, latest);
        assert(crates.last() == all[n]);
        lemma_id_of_unique(all, n);
        let before = flag_placeholders(s, crates.drop_last(), latest);
        assert forall|x: (u32, Seq<u8>)| #[trigger]
            flag_placeholders(s, crates, latest).contains(x) implies consistent(all, latest, x) by {
            if !before.contains(x) {
                assert(x == all[n]);
            }
        }
    }
}

/// When every placeholder package's key is already flagged, the placeholder
/// pass changes nothing.
proof fn lemma_placeholders_present(
    s: Set<(u32, Seq<u8>)>,
    crates: Seq<(u32, Seq<u8>)>,
    latest: Map<u32, VersionRow>,
)
    requires
        forall|c: int|
            0 <= c < crates.len() && latest.contains_key(crates[c].0) && is_placeholder(
                latest[crates[c].0].num,
            ) ==> has_key(s, name_key((#[trigger] crates[c]).1)),
    ensures
        flag_placeholders(s, crates, latest) == s,
    decreases crates.len(),
{
    if crates.len() > 0 {
        let rest = crates.drop_last();
        assert forall|c: int|
            0 <= c < rest.len() && latest.contains_key(rest[c].0) && is_placeholder(
                latest[rest[c].0].num,
            ) implies has_key(s, name_key((#[trigger] rest[c]).1)) by {
            assert(rest[c] == crates[c]);
        }
        lemma_placeholders_present(s, rest, latest);
        assert(crates.last() == crates[crates.len() - 1]);
    }
}

/// Admitting rows that each stand for a distinct consistent entry yields
/// exactly those entries.
proof fn lemma_admit_own_report(
    crates: Seq<(u32, Seq<u8>)>,
    latest: Map<u32, VersionRow>,
    entries: Seq<(u32, Seq<u8>)>,
    out: Seq<ReportRow>,
)
    requires
        keys_sorted(entries),
        out.len() == entries.len(),
        forall|i: int| 0 <= i < entries.len() ==> consistent(crates, latest, #[trigger] entries[i]),
        forall|i: int|
            0 <= i < out.len() ==> (#[trigger] out[i]).name@ == entries[i].1 && out[i].version == (
            if latest.contains_key(entries[i].0) {
                Some(latest[entries[i].0].num)
            } else {
                None
            }),
    ensures
        admit_rows(Set::empty(), crates, latest, out) == entries.to_set(),
    decreases entries.len(),
{
    if entries.len() > 0 {
        let n = entries.len() - 1;
        let e0 = entries.drop_last();
        let o0 = out.drop_last();
        assert forall|i: int, j: int| 0 <= i < j < e0.len() implies crate::name::seq_less(
            name_key(#[trigger] e0[i].1),
            name_key(#[trigger] e0[j].1),
        ) by {
            assert(e0[i] == entries[i] && e0[j] == entries[j]);
        }
        assert forall|i: int| 0 <= i < e0.len() implies consistent(crates, latest, #[trigger] e0[i]) by {
            assert(e0[i] == entries[i]);
        }
        assert forall|i: int| 0 <= i < o0.len() implies (#[trigger] o0[i]).name@ == e0[i].1 && o0[i].version == (
        if latest.contains_key(e0[i].0) {
            Some(latest[e0[i].0].num)
        } else {
            None
        }) by {
            assert(o0[i] == out[i] && e0[i] == entries[i]);
        }
        lemma_admit_own_report(crates, latest, e0, o0);
        let e = entries[n];
        assert(consistent(crates, latest, e));
        assert(out.last() == out[n]);
        assert(admitted(crates, latest, out[n].name@, out[n].version) == Some(e.0));
        assert(!has_key(e0.to_set(), name_key(e.1))) by {
            if has_key(e0.to_set(), name_key(e.1)) {
                let x = choose|x: (u32, Seq<u8>)| #[trigger] e0.to_set().contains(x) && name_key(x.1) == name_key(e.1);
                let m = choose|m: int| 0 <= m < e0.len() && e0[m] == x;
                assert(entries[m] == x);
                lemma_seq_less_irreflexive(name_key(e.1));
            }
        }
        assert(e0.to_set().insert(e) =~= entries.to_set()) by {
            assert forall|x: (u32, Seq<u8>)| entries.to_set().contains(x) implies #[trigger] e0.to_set().insert(e).contains(x) by {
                let m = choose|m: int| 0 <= m < entries.len() && entries[m] == x;
                if m < n {
                    assert(e0[m] == x);
                }
            }
            assert forall|x: (u32, Seq<u8>)| #[trigger] e0.to_set().contains(x) implies entries.to_set().contains(x) by {
                let m = choose|m: int| 0 <= m < e0.len() && e0[m] == x;
                assert(entries[m] == x);
            }
        }
    } else {
        assert(entries.to_set() =~= Set::<(u32, Seq<u8>)>::empty());
    }
}

/// Running again with the report just written as the prior report, and
/// the snapshot unchanged, flags exactly the same packages (names as
/// written, with the same ids). The report rows and the leaderboard are
/// functions of the flagged entries and the snapshot, so they repeat too.
pub proof fn lemma_rerun_stable(
    crates: Seq<(u32, Seq<u8>)>,
    latest: Map<u32, VersionRow>,
    prior: Seq<ReportRow>,
    entries: Seq<(u32, Seq<u8>)>,
    out: Seq<ReportRow>,
)
    requires
        keys_unique(crates),
        keys_sorted(entries),
        entries.to_set() == flagged_set(crates, latest, prior),
        out.len() == entries.len(),
        forall|i: int|
            0 <= i < out.len() ==> (#[trigger] out[i]).name@ == entries[i].1 && out[i].version == (
            if latest.contains_key(entries[i].0) {
                Some(latest[entries[i].0].num)
            } else {
                None
            }),
    ensures
        flagged_set(crates, latest, out) == flagged_set(crates, latest, prior),
{
    let empty = Set::<(u32, Seq<u8>)>::empty();
    let admitted_first = admit_rows(empty, crates, latest, prior);
    lemma_admitted_consistent(empty, crates, latest, prior);
    assert(crates == crates.take(crates.len() as int));
    lemma_placeholders_consistent(admitted_first, crates, crates, latest);
    assert forall|i: int| 0 <= i < entries.len() implies consistent(crates, latest, #[trigger] entries[i]) by {
        assert(entries.to_set().contains(entries[i]));
    }
    lemma_admit_own_report(crates, latest, entries, out);
    assert forall|c: int|
        0 <= c < crates.len() && latest.contains_key(crates[c].0) && is_placeholder(
            latest[crates[c].0].num,
        ) implies has_key(entries.to_set(), name_key((#[trigger] crates[c]).1)) by {
        lemma_placeholder_flagged(crates, latest, prior, c);
    }
    lemma_placeholders_present(entries.to_set(), crates, latest);
}

/// Re-admits the rows of a prior report that still hold.
pub fn admit_prior(flagged: &mut FlaggedSet, snapshot: &Snapshot, prior: &Vec<ReportRow>)
    requires
        old(flagged).wf(),
    ensures
        final(flagged).wf(),
        final(flagged).set() == admit_rows(
            old(flagged).set(),
            snapshot.crates(),
            snapshot.latest(),
            prior@,
        ),
{
    let mut i: usize = 0;
    while i < prior.len()
        invariant
            flagged.wf(),
            i <= prior@.len(),
            flagged.set() == admit_rows(
                old(flagged).set(),
                snapshot.crates(),
                snapshot.latest(),
                prior@.subrange(0, i as int),
            ),
        decreases prior@.len() - i,
    {
        let row = &prior[i];
        assert(prior@.subrange(0, i + 1).drop_last() =~= prior@.subrange(0, i as int));
        if let Some(id) = snapshot.id_of(&row.name) {
            if let Some(latest) = snapshot.latest_of(id) {
                let current = match &row.version {
                    Some(v) => v.same(&latest.num),
                    None => true,
                };
                if current {
                    flagged.insert(CrateEntry { id, name: row.name.clone() });
                }
            }
        }
        i = i + 1;
    }
    assert(prior@.subrange(0, i as int) =~= prior@);
}

/// Adds every package whose latest version is a placeholder release.
pub fn add_placeholders(flagged: &mut FlaggedSet, snapshot: &Snapshot)
    requires
        old(flagged).wf(),
    ensures
        final(flagged).wf(),
        final(flagged).set() == flag_placeholders(
            old(flagged).set(),
            snapshot.crates(),
            snapshot.latest(),
        ),
{
    let n = snapshot.crate_count();
    let mut i: usize = 0;
    while i < n
        invariant
            flagged.wf(),
            n == snapshot.crates().len(),
            i <= n,
            flagged.set() == flag_placeholders(
                old(flagged).set(),
                snapshot.crates().subrange(0, i as int),
                snapshot.latest(),
            ),
        decreases n - i,
    {
        let entry = snapshot.crate_at(i);
        assert(snapshot.crates().subrange(0, i + 1).drop_last() =~= snapshot.crates().subrange(
            0,
            i as int,
        ));
        if let Some(latest) = snapshot.latest_of(entry.id) {
            if is_placeholder_version(&latest.num) {
                flagged.insert(entry.clone());
            }
        }
        i = i + 1;
    }
    assert(snapshot.crates().subrange(0, n as int) =~= snapshot.crates());
}

/// Builds the flagged set of a run from the snapshot and the prior report.
pub fn reconcile(snapshot: &Snapshot, prior: &Vec<ReportRow>) -> (r: FlaggedSet)
    ensures
        r.wf(),
        r.set() == flagged_set(snapshot.crates(), snapshot.latest(), prior@),
{
    let mut flagged = FlaggedSet::new();
    assert(flagged.set() =~= Set::<(u32, Seq<u8>)>::empty());
    admit_prior(&mut flagged, snapshot, prior);
    add_placeholders(&mut flagged, snapshot);
    flagged
}

/// The account a flagged release is attributed to: the recorded publisher
/// when there is one; else the only owner; else the earliest owner when it
/// was added strictly before the second; else nobody.
pub open spec fn publish_owner(published_by: Option<u32>, owners: Seq<(i64, u32)>) -> Option<u32> {
    if published_by is Some {
        published_by
    } else if owners.len() == 1 {
        Some(owners[0].1)
    } else if owners.len() >= 2 && owners[0].0 < owners[1].0 {
        Some(owners[0].1)
    } else {
        None
    }
}

/// Every account credited for a package: the publisher and every owner.
pub open spec fn all_owners(published_by: Option<u32>, owners: Seq<(i64, u32)>) -> Set<u32> {
    Set::new(
        |a: u32|
            published_by == Some(a) || exists|k: int| 0 <= k < owners.len() && #[trigger] owners[k].1
                == a,
    )
}

/// The login shown for an attributed account; empty when there is none or
/// the account is unknown.
pub open spec fn login_of(users: Map<u32, Seq<char>>, owner: Option<u32>) -> Seq<char> {
    match owner {
        Some(u) => if users.contains_key(u) {
            users[u]
        } else {
            Seq::empty()
        },
        None => Seq::empty(),
    }
}

/// The publisher recorded on a package's latest version, if any.
pub open spec fn latest_publisher(latest: Map<u32, VersionRow>, id: u32) -> Option<u32> {
    if latest.contains_key(id) {
        latest[id].published_by
    } else {
        None
    }
}

/// Who a flagged package is attributed to, and who shares the credit.
pub struct Attribution {
    pub publish_owner: Option<u32>,
    pub all_owners: Vec<u32>,
}

/// Resolves the publishing owner and the credited owners of one package
/// from its recorded publisher and its ownership records in order.
pub fn attribute(published_by: Option<u32>, owners: &Vec<(i64, u32)>) -> (r: Attribution)
    ensures
        r.publish_owner == publish_owner(published_by, owners@),
        r.all_owners@.no_duplicates(),
        r.all_owners@.to_set() == all_owners(published_by, owners@),
{
    let mut credited: Vec<u32> = Vec::new();
    if let Some(p) = published_by {
        credited.push(p);
    }
    assert forall|a: u32| credited@.contains(a) <==> published_by == Some(a) by {
        if published_by == Some(a) {
            assert(credited@[0] == a);
        }
    }
    let mut i: usize = 0;
    while i < owners.len()
        invariant
            i <= owners@.len(),
            credited@.no_duplicates(),
            forall|a: u32|
                credited@.contains(a) <==> (published_by == Some(a) || exists|k: int|
                    0 <= k < i && #[trigger] owners@[k].1 == a),
        decreases owners@.len() - i,
    {
        let a = owners[i].1;
        let mut seen = false;
        let mut j: usize = 0;
        while j < credited.len()
            invariant
                j <= credited@.len(),
                seen == exists|m: int| 0 <= m < j && credited@[m] == a,
            decreases credited@.len() - j,
        {
            if credited[j] == a {
                seen = true;
            }
            j = j + 1;
        }
        let ghost before = credited@;
        if !seen {
            credited.push(a);
        }
        assert forall|b: u32|
            credited@.contains(b) <==> (published_by == Some(b) || exists|k: int|
                0 <= k < i + 1 && #[trigger] owners@[k].1 == b) by {
            if before.contains(b) {
                let m = choose|m: int| 0 <= m < before.len() && before[m] == b;
                assert(credited@[m] == b);
            }
            if credited@.contains(b) && !before.contains(b) {
                assert(b == a);
            }
            if b == a {
                assert(owners@[i as int].1 == b);
                if !seen {
                    assert(credited@[before.len() as int] == a);
                }
            }
            if exists|k: int| 0 <= k < i + 1 && #[trigger] owners@[k].1 == b {
                let k = choose|k: int| 0 <= k < i + 1 && #[trigger] owners@[k].1 == b;
                if k < i {
                    assert(exists|k: int| 0 <= k < i && #[trigger] owners@[k].1 == b);
                }
            }
        }
        i = i + 1;
    }
    assert(credited@.to_set() =~= all_owners(published_by, owners@));
    let publish_owner = if published_by.is_some() {
        published_by
    } else if owners.len() == 1 {
        Some(owners[0].1)
    } else if owners.len() >= 2 && owners[0].0 < owners[1].0 {
        Some(owners[0].1)
    } else {
        None
    };
    Attribution { publish_owner, all_owners: credited }
}

/// The report row of a flagged package, and the accounts credited for it.
pub fn report_row(snapshot: &Snapshot, entry: &CrateEntry) -> (r: (ReportRow, Vec<u32>))
    ensures
        r.0.name == entry.name,
        r.0.user@ == login_of(
            snapshot.users(),
            publish_owner(
                latest_publisher(snapshot.latest(), entry.id),
                snapshot.owners(entry.id),
            ),
        ),
        r.0.version == (if snapshot.latest().contains_key(entry.id) {
            Some(snapshot.latest()[entry.id].num)
        } else {
            None
        }),
        r.1@.no_duplicates(),
        r.1@.to_set() == all_owners(
            latest_publisher(snapshot.latest(), entry.id),
            snapshot.owners(entry.id),
        ),
{
    let (published_by, version) = match snapshot.latest_of(entry.id) {
        Some(latest) => (latest.published_by, Some(latest.num.clone())),
        None => (None, None),
    };
    let owners = snapshot.owners_of(entry.id);
    let attribution = attribute(published_by, &owners);
    let user = match attribution.publish_owner {
        Some(u) => snapshot.login_of(u),
        None => String::new(),
    };
    (ReportRow { name: entry.name.clone(), user, version }, attribution.all_owners)
}

/// The new report, one row per flagged package in order of name keys, and
/// for each row the accounts credited for it.
pub struct Outcome {
    pub rows: Vec<ReportRow>,
    pub credited: Vec<Vec<u32>>,
}

/// `rows` and `credited` are the report of the flagged `entries`: one row
/// per entry, in the same order, with the entry's name, its attributed
/// login and its latest version, and the accounts credited for it.
pub open spec fn report_matches(
    snapshot: &Snapshot,
    entries: Seq<(u32, Seq<u8>)>,
    rows: Seq<ReportRow>,
    credited: Seq<Vec<u32>>,
) -> bool {
    &&& rows.len() == entries.len()
    &&& credited.len() == entries.len()
    &&& forall|i: int|
        0 <= i < rows.len() ==> {
            let (id, name) = entries[i];
            &&& (#[trigger] rows[i]).name@ == name
            &&& rows[i].user@ == login_of(
                snapshot.users(),
                publish_owner(latest_publisher(snapshot.latest(), id), snapshot.owners(id)),
            )
            &&& rows[i].version == (if snapshot.latest().contains_key(id) {
                Some(snapshot.latest()[id].num)
            } else {
                None
            })
            &&& credited[i]@.no_duplicates()
            &&& credited[i]@.to_set() == all_owners(
                latest_publisher(snapshot.latest(), id),
                snapshot.owners(id),
            )
        }
}

/// Writes out the rows of the new report.
pub fn write_report(snapshot: &Snapshot, flagged: &FlaggedSet) -> (r: Outcome)
    ensures
        report_matches(snapshot, flagged.entries(), r.rows@, r.credited@),
{
    let mut rows: Vec<ReportRow> = Vec::new();
    let mut credited: Vec<Vec<u32>> = Vec::new();
    let n = flagged.len();
    let mut i: usize = 0;
    while i < n
        invariant
            n == flagged.entries().len(),
            i <= n,
            rows@.len() == i,
            credited@.len() == i,
            forall|k: int|
                0 <= k < i ==> {
                    let (id, name) = flagged.entries()[k];
                    &&& (#[trigger] rows@[k]).name@ == name
                    &&& rows@[k].user@ == login_of(
                        snapshot.users(),
                        publish_owner(latest_publisher(snapshot.latest(), id), snapshot.owners(id)),
                    )
                    &&& rows@[k].version == (if snapshot.latest().contains_key(id) {
                        Some(snapshot.latest()[id].num)
                    } else {
                        None
                    })
                    &&& credited@[k]@.no_duplicates()
                    &&& credited@[k]@.to_set() == all_owners(
                        latest_publisher(snapshot.latest(), id),
                        snapshot.owners(id),
                    )
                },
        decreases n - i,
    {
        let entry = flagged.get(i);
        let (row, owners) = report_row(snapshot, entry);
        rows.push(row);
        credited.push(owners);
        i = i + 1;
    }
    Outcome { rows, credited }
}

/// The number of flagged entries whose credited owners include the account.
pub open spec fn packages_crediting(snapshot: &Snapshot, entries: Seq<(u32, Seq<u8>)>, a: u32) -> nat
    decreases entries.len(),
{
    if entries.len() == 0 {
        0
    } else {
        let id = entries.last().0;
        packages_crediting(snapshot, entries.drop_last(), a) + if all_owners(
            latest_publisher(snapshot.latest(), id),
            snapshot.owners(id),
        ).contains(a) {
            1nat
        } else {
            0nat
        }
    }
}

/// An account's leaderboard count is the number of flagged packages whose
/// credited owners include it.
pub proof fn lemma_credit_counts_packages(
    snapshot: &Snapshot,
    entries: Seq<(u32, Seq<u8>)>,
    rows: Seq<ReportRow>,
    credited: Seq<Vec<u32>>,
    a: u32,
)
    requires
        report_matches(snapshot, entries, rows, credited),
    ensures
        credit(lists_view(credited), a) == packages_crediting(snapshot, entries, a),
    decreases entries.len(),
{
    if entries.len() > 0 {
        let n = entries.len() - 1;
        let rows0 = rows.drop_last();
        let credited0 = credited.drop_last();
        assert forall|i: int| 0 <= i < rows0.len() implies {
            let (id, name) = entries.drop_last()[i];
            &&& (#[trigger] rows0[i]).name@ == name
            &&& rows0[i].user@ == login_of(
                snapshot.users(),
                publish_owner(latest_publisher(snapshot.latest(), id), snapshot.owners(id)),
            )
            &&& rows0[i].version == (if snapshot.latest().contains_key(id) {
                Some(snapshot.latest()[id].num)
            } else {
                None
            })
            &&& credited0[i]@.no_duplicates()
            &&& credited0[i]@.to_set() == all_owners(
                latest_publisher(snapshot.latest(), id),
                snapshot.owners(id),
            )
        } by {
            assert(rows[i] == rows0[i]);
        }
        lemma_credit_counts_packages(snapshot, entries.drop_last(), rows0, credited0, a);
        assert(lists_view(credited).drop_last() =~= lists_view(credited0));
        assert(rows[n].name@ == entries[n].1);
        assert(lists_view(credited).last() == credited[n]@);
        assert(entries.last() == entries[n]);
        assert(credited[n]@.contains(a) <==> credited[n]@.to_set().contains(a));
    }
}

/// Everything one run produces.
pub struct Run {
    pub flagged: FlaggedSet,
    pub outcome: Outcome,
    pub leaderboard: Vec<(u32, u64)>,
}

/// What one run produces from a snapshot and a prior report: the flagged
/// set, the report that describes it, and the top of the ranking of the
/// credited accounts.
pub open spec fn run_result(snapshot: &Snapshot, prior: Seq<ReportRow>, r: &Run) -> bool {
    &&& r.flagged.wf()
    &&& r.flagged.set() == flagged_set(snapshot.crates(), snapshot.latest(), prior)
    &&& report_matches(snapshot, r.flagged.entries(), r.outcome.rows@, r.outcome.credited@)
    &&& exists|full: Seq<(u32, u64)>|
        is_ranking(lists_view(r.outcome.credited@), full) && r.leaderboard@ == full.take(
            if full.len() < LEADERBOARD_SIZE {
                full.len() as int
            } else {
                LEADERBOARD_SIZE as int
            },
        )
}

/// One run: reconciles the prior report with the snapshot, writes the new
/// report and ranks the credited accounts.
#[verifier::rlimit(40)]
pub fn run(snapshot: &Snapshot, prior: &Vec<ReportRow>) -> (r: Run)
    ensures
        run_result(snapshot, prior@, &r),
{
    let flagged = reconcile(snapshot, prior);
    let outcome = write_report(snapshot, &flagged);
    assert forall|i: int| 0 <= i < outcome.credited@.len() implies (
    #[trigger] outcome.credited@[i])@.no_duplicates() by {
        assert(outcome.rows@[i].name@ == flagged.entries()[i].1);
    }
    let leaderboard = leaderboard(&outcome.credited);
    Run { flagged, outcome, leaderboard }
}

/// Running again, with the report just written as the prior report and the
/// snapshot unchanged, flags the same entries, writes rows that describe
/// them in the same way, and shows the same leaderboard.
pub proof fn lemma_rerun_identical(
    snapshot: &Snapshot,
    prior: Seq<ReportRow>,
    first: &Run,
    second: &Run,
)
    requires
        keys_unique(snapshot.crates()),
        run_result(snapshot, prior, first),
        run_result(snapshot, first.outcome.rows@, second),
    ensures
        second.flagged.entries() == first.flagged.entries(),
        report_matches(
            snapshot,
            first.flagged.entries(),
            second.outcome.rows@,
            second.outcome.credited@,
        ),
        second.leaderboard@ == first.leaderboard@,
{
    let crates = snapshot.crates();
    let latest = snapshot.latest();
    let entries = first.flagged.entries();
    let out = first.outcome.rows@;
    assert forall|i: int| 0 <= i < out.len() implies (#[trigger] out[i]).name@ == entries[i].1
        && out[i].version == (if latest.contains_key(entries[i].0) {
        Some(latest[entries[i].0].num)
    } else {
        None
    }) by {
        assert(out[i].name@ == entries[i].1);
    }
    lemma_rerun_stable(crates, latest, prior, entries, out);
    lemma_entries_unique(first.flagged.entries(), second.flagged.entries());
    let l1 = lists_view(first.outcome.credited@);
    let l2 = lists_view(second.outcome.credited@);
    assert forall|a: u32| #[trigger] credit(l2, a) == credit(l1, a) by {
        lemma_credit_counts_packages(snapshot, entries, out, first.outcome.credited@, a);
        lemma_credit_counts_packages(
            snapshot,
            entries,
            second.outcome.rows@,
            second.outcome.credited@,
            a,
        );
    }
    let full1 = choose|full: Seq<(u32, u64)>|
        is_ranking(l1, full) && first.leaderboard@ == full.take(
            if full.len() < LEADERBOARD_SIZE {
                full.len() as int
            } else {
                LEADERBOARD_SIZE as int
            },
        );
    let full2 = choose|full: Seq<(u32, u64)>|
        is_ranking(l2, full) && second.leaderboard@ == full.take(
            if full.len() < LEADERBOARD_SIZE {
                full.len() as int
            } else {
                LEADERBOARD_SIZE as int
            },
        );
    lemma_ranking_same_credit(l2, l1, full2);
    lemma_ranking_unique(l1, full1, full2);
}

} // verus!
