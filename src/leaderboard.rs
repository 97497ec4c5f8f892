//! The leaderboard: accounts ranked by how many flagged packages credit them.

use crate::sorted::{lemma_sorted_unique, strict_order, strictly_sorted};
use vstd::prelude::*;

verus! {

/// How many top entries the leaderboard shows.
pub const LEADERBOARD_SIZE: usize = 16;

/// The number of lists that hold the account.
pub open spec fn credit(lists: Seq<Seq<u32>>, a: u32) -> nat
    decreases lists.len(),
{
    if lists.len() == 0 {
        0
    } else {
        credit(lists.drop_last(), a) + if lists.last().contains(a) {
            1nat
        } else {
            0nat
        }
    }
}

pub open spec fn lists_view(lists: Seq<Vec<u32>>) -> Seq<Seq<u32>> {
    lists.map_values(|v: Vec<u32>| v@)
}

/// `x` comes before `y`: a higher count first, then the lower account id.
pub open spec fn ranks_before(x: (u32, u64), y: (u32, u64)) -> bool {
    x.1 > y.1 || (x.1 == y.1 && x.0 < y.0)
}

/// `r` lists every credited account once with its credit, best first.
pub open spec fn is_ranking(lists: Seq<Seq<u32>>, r: Seq<(u32, u64)>) -> bool {
    &&& forall|i: int| 0 <= i < r.len() ==> (#[trigger] r[i]).1 == credit(lists, r[i].0)
    &&& forall|i: int| 0 <= i < r.len() ==> (#[trigger] r[i]).1 > 0
    &&& forall|a: u32|
        credit(lists, a) > 0 ==> exists|i: int| 0 <= i < r.len() && (#[trigger] r[i]).0 == a
    &&& forall|i: int, j: int| 0 <= i < j < r.len() ==> ranks_before(#[trigger] r[i], #[trigger] r[j])
}

proof fn lemma_credit_bound(lists: Seq<Seq<u32>>, a: u32)
    ensures
        credit(lists, a) <= lists.len(),
    decreases lists.len(),
{
    if lists.len() > 0 {
        lemma_credit_bound(lists.drop_last(), a);
    }
}

/// A ranking depends on the lists only through the credit of each account.
pub proof fn lemma_ranking_same_credit(l1: Seq<Seq<u32>>, l2: Seq<Seq<u32>>, r: Seq<(u32, u64)>)
    requires
        forall|a: u32| #[trigger] credit(l1, a) == credit(l2, a),
        is_ranking(l1, r),
    ensures
        is_ranking(l2, r),
{
    assert forall|a: u32| credit(l2, a) > 0 implies exists|i: int| 0 <= i < r.len() && (#[trigger] r[i]).0 == a by {
        assert(credit(l1, a) == credit(l2, a));
    }
}

/// There is only one ranking of the same lists.
pub proof fn lemma_ranking_unique(lists: Seq<Seq<u32>>, r1: Seq<(u32, u64)>, r2: Seq<(u32, u64)>)
    requires
        is_ranking(lists, r1),
        is_ranking(lists, r2),
    ensures
        r1 == r2,
{
    let less = |x: (u32, u64), y: (u32, u64)| ranks_before(x, y);
    assert(strict_order(less));
    assert(strictly_sorted(r1, less));
    assert(strictly_sorted(r2, less));
    assert forall|x: (u32, u64)| #[trigger] r1.to_set().contains(x) implies r2.to_set().contains(x) by {
        let i = choose|i: int| 0 <= i < r1.len() && r1[i] == x;
        assert(r1[i].1 > 0);
        let j = choose|j: int| 0 <= j < r2.len() && (#[trigger] r2[j]).0 == x.0;
        assert(r2[j] == x);
    }
    assert forall|x: (u32, u64)| #[trigger] r2.to_set().contains(x) implies r1.to_set().contains(x) by {
        let i = choose|i: int| 0 <= i < r2.len() && r2[i] == x;
        assert(r2[i].1 > 0);
        let j = choose|j: int| 0 <= j < r1.len() && (#[trigger] r1[j]).0 == x.0;
        assert(r1[j] == x);
    }
    assert(r1.to_set() =~= r2.to_set());
    lemma_sorted_unique(r1, r2, less);
}

/// Counts, for each account, the lists that hold it. The result holds each
/// credited account once, in no particular order.
fn tally(lists: &Vec<Vec<u32>>) -> (r: Vec<(u32, u64)>)
    requires
        forall|i: int| 0 <= i < lists@.len() ==> (#[trigger] lists@[i])@.no_duplicates(),
    ensures
        forall|k: int| 0 <= k < r@.len() ==> (#[trigger] r@[k]).1 == credit(lists_view(lists@), r@[k].0),
        forall|k: int| 0 <= k < r@.len() ==> (#[trigger] r@[k]).1 > 0,
        forall|a: u32|
            credit(lists_view(lists@), a) > 0 ==> exists|k: int| 0 <= k < r@.len() && (#[trigger] r@[k]).0 == a,
        forall|k: int, m: int| 0 <= k < m < r@.len() ==> (#[trigger] r@[k]).0 != (#[trigger] r@[m]).0,
{
    let ghost all = lists_view(lists@);
    let mut table: Vec<(u32, u64)> = Vec::new();
    let total = lists.len();
    let mut i: usize = 0;
    while i < total
        invariant
            all == lists_view(lists@),
            total == lists@.len(),
            forall|q: int| 0 <= q < lists@.len() ==> (#[trigger] lists@[q])@.no_duplicates(),
            i <= lists@.len(),
            forall|k: int| 0 <= k < table@.len() ==> (#[trigger] table@[k]).1 == credit(all.take(i as int), table@[k].0),
            forall|k: int| 0 <= k < table@.len() ==> (#[trigger] table@[k]).1 > 0,
            forall|a: u32|
                credit(all.take(i as int), a) > 0 ==> exists|k: int| 0 <= k < table@.len() && (#[trigger] table@[k]).0 == a,
            forall|k: int, m: int| 0 <= k < m < table@.len() ==> (#[trigger] table@[k]).0 != (#[trigger] table@[m]).0,
        decreases lists@.len() - i,
    {
        let list = &lists[i];
        let ghost done = all.take(i as int);
        assert(all.take(i + 1).drop_last() =~= done);
        assert(all.take(i + 1).last() == list@);
        let mut j: usize = 0;
        while j < list.len()
            invariant
                all == lists_view(lists@),
                list@ == all[i as int],
                list@.no_duplicates(),
                i < lists@.len(),
                total == lists@.len(),
                j <= list@.len(),
                done == all.take(i as int),
                forall|k: int| 0 <= k < table@.len() ==> (#[trigger] table@[k]).1 == credit(done, table@[k].0)
                    + if list@.take(j as int).contains(table@[k].0) { 1nat } else { 0nat },
                forall|k: int| 0 <= k < table@.len() ==> (#[trigger] table@[k]).1 > 0,
                forall|a: u32|
                    credit(done, a) + (if list@.take(j as int).contains(a) { 1nat } else { 0nat }) > 0
                        ==> exists|k: int| 0 <= k < table@.len() && (#[trigger] table@[k]).0 == a,
                forall|k: int, m: int| 0 <= k < m < table@.len() ==> (#[trigger] table@[k]).0 != (#[trigger] table@[m]).0,
            decreases list@.len() - j,
        {
            let a = list[j];
            let ghost before = table@;
            assert forall|b: u32| list@.take(j + 1).contains(b) <==> (list@.take(j as int).contains(b) || b == a) by {
                if list@.take(j + 1).contains(b) {
                    let m = choose|m: int| 0 <= m < j + 1 && #[trigger] list@.take(j + 1)[m] == b;
                    if m < j {
                        assert(list@.take(j as int)[m] == b);
                    }
                }
                if list@.take(j as int).contains(b) {
                    let m = choose|m: int| 0 <= m < j && #[trigger] list@.take(j as int)[m] == b;
                    assert(list@.take(j + 1)[m] == b);
                }
                if b == a {
                    assert(list@.take(j + 1)[j as int] == b);
                }
            }
            assert(!list@.take(j as int).contains(a)) by {
                if list@.take(j as int).contains(a) {
                    let m = choose|m: int| 0 <= m < j && #[trigger] list@.take(j as int)[m] == a;
                    assert(list@[m] == list@[j as int]);
                }
            }
            proof {
                lemma_credit_bound(done, a);
            }
            let mut k: usize = 0;
            let mut found = false;
            while k < table.len() && !found
                invariant
                    table@ == before,
                    k <= table@.len(),
                    !found ==> forall|q: int| 0 <= q < k ==> (#[trigger] table@[q]).0 != a,
                    found ==> k > 0 && table@[k - 1].0 == a,
                decreases table@.len() - k, if found { 0int } else { 1int },
            {
                if table[k].0 == a {
                    found = true;
                }
                k = k + 1;
            }
            if found {
                let c = table[k - 1].1;
                assert(c == credit(done, a));
                assert(done.len() == i);
                assert(c <= i);
                table.set(k - 1, (a, c + 1));
                assert forall|q: int, m: int| 0 <= q < m < table@.len() implies (#[trigger] table@[q]).0 != (#[trigger] table@[m]).0 by {
                    assert(before[q].0 != before[m].0);
                }
                assert forall|b: u32|
                    credit(done, b) + (if list@.take(j + 1).contains(b) { 1nat } else { 0nat }) > 0
                        implies exists|q: int| 0 <= q < table@.len() && (#[trigger] table@[q]).0 == b by {
                    if b == a {
                        assert(table@[k - 1].0 == b);
                    } else {
                        let q = choose|q: int| 0 <= q < before.len() && (#[trigger] before[q]).0 == b;
                        assert(table@[q].0 == b);
                    }
                }
            } else {
                assert(credit(done, a) == 0) by {
                    if credit(done, a) > 0 {
                        let q = choose|q: int| 0 <= q < before.len() && (#[trigger] before[q]).0 == a;
                    }
                }
                table.push((a, 1));
                assert forall|b: u32|
                    credit(done, b) + (if list@.take(j + 1).contains(b) { 1nat } else { 0nat }) > 0
                        implies exists|q: int| 0 <= q < table@.len() && (#[trigger] table@[q]).0 == b by {
                    if b == a {
                        assert(table@[before.len() as int].0 == b);
                    } else {
                        let q = choose|q: int| 0 <= q < before.len() && (#[trigger] before[q]).0 == b;
                        assert(table@[q].0 == b);
                    }
                }
            }
            j = j + 1;
        }
        assert(list@.take(j as int) =~= list@);
        assert forall|b: u32| #[trigger] credit(all.take(i + 1), b) == credit(done, b) + (if list@.contains(b) { 1nat } else { 0nat }) by {
            assert(all.take(i + 1).drop_last() =~= done);
            assert(all.take(i + 1).last() == list@);
        }
        i = i + 1;
    }
    assert(all.take(i as int) =~= all);
    table
}

/// Ranks every credited account: higher credit first, then lower id.
pub fn rank_accounts(lists: &Vec<Vec<u32>>) -> (r: Vec<(u32, u64)>)
    requires
        forall|i: int| 0 <= i < lists@.len() ==> (#[trigger] lists@[i])@.no_duplicates(),
    ensures
        is_ranking(lists_view(lists@), r@),
{
    let ghost all = lists_view(lists@);
    let table = tally(lists);
    let mut ranked: Vec<(u32, u64)> = Vec::new();
    let mut t: usize = 0;
    while t < table.len()
        invariant
            t <= table@.len(),
            forall|k: int, m: int| 0 <= k < m < table@.len() ==> (#[trigger] table@[k]).0 != (#[trigger] table@[m]).0,
            forall|i: int, j: int| 0 <= i < j < ranked@.len() ==> ranks_before(#[trigger] ranked@[i], #[trigger] ranked@[j]),
            forall|x: (u32, u64)| ranked@.contains(x) <==> table@.take(t as int).contains(x),
        decreases table@.len() - t,
    {
        let x = table[t];
        let mut p: usize = 0;
        while p < ranked.len() && (ranked[p].1 > x.1 || (ranked[p].1 == x.1 && ranked[p].0 < x.0))
            invariant
                p <= ranked@.len(),
                forall|q: int| 0 <= q < p ==> ranks_before(#[trigger] ranked@[q], x),
            decreases ranked@.len() - p,
        {
            p = p + 1;
        }
        let ghost before = ranked@;
        assert(!before.contains(x)) by {
            if before.contains(x) {
                assert(table@.take(t as int).contains(x));
                let m = choose|m: int| 0 <= m < t && #[trigger] table@.take(t as int)[m] == x;
                assert(table@.take(t as int)[m] == table@[m]);
                assert(table@[m].0 != table@[t as int].0);
            }
        }
        assert forall|q: int| p <= q < before.len() implies ranks_before(x, #[trigger] before[q]) by {
            assert(before[q] != x);
            if before[q].0 == x.0 {
                assert(before.contains(before[q]));
                assert(table@.take(t as int).contains(before[q]));
                let m = choose|m: int| 0 <= m < t && #[trigger] table@.take(t as int)[m] == before[q];
                assert(table@.take(t as int)[m] == table@[m]);
                assert(table@[m].0 != table@[t as int].0);
            }
            if q > p {
                assert(ranks_before(before[p as int], before[q]));
            }
        }
        ranked.insert(p, x);
        proof {
            before.insert_ensures(p as int, x);
            assert forall|y: (u32, u64)| ranked@.contains(y) <==> table@.take(t + 1).contains(y) by {
                if ranked@.contains(y) {
                    let m = choose|m: int| 0 <= m < ranked@.len() && #[trigger] ranked@[m] == y;
                    if m < p {
                        assert(before[m] == y);
                    } else if m > p {
                        assert(before[m - 1] == y);
                    }
                    if y != x {
                        assert(before.contains(y));
                        assert(table@.take(t as int).contains(y));
                        let n = choose|n: int| 0 <= n < t && #[trigger] table@.take(t as int)[n] == y;
                        assert(table@.take(t as int)[n] == table@[n]);
                        assert(table@.take(t + 1)[n] == y);
                    } else {
                        assert(table@.take(t + 1)[t as int] == y);
                    }
                }
                if table@.take(t + 1).contains(y) {
                    let n = choose|n: int| 0 <= n < t + 1 && #[trigger] table@.take(t + 1)[n] == y;
                    if n < t {
                        assert(table@.take(t + 1)[n] == table@[n]);
                        assert(table@.take(t as int)[n] == table@[n]);
                        assert(table@.take(t as int).contains(y));
                        assert(before.contains(y));
                        let m = choose|m: int| 0 <= m < before.len() && #[trigger] before[m] == y;
                        if m < p {
                            assert(ranked@[m] == y);
                        } else {
                            assert(ranked@[m + 1] == y);
                        }
                    } else {
                        assert(ranked@[p as int] == y);
                    }
                }
            }
        }
        t = t + 1;
    }
    assert(table@.take(t as int) =~= table@);
    assert forall|x: (u32, u64)| ranked@.contains(x) <==> #[trigger] table@.contains(x) by {
        assert(ranked@.contains(x) <==> table@.take(t as int).contains(x));
    }
    assert forall|i: int| 0 <= i < ranked@.len() implies (#[trigger] ranked@[i]).1 == credit(all, ranked@[i].0) && ranked@[i].1 > 0 by {
        assert(ranked@.contains(ranked@[i]));
        let m = choose|m: int| 0 <= m < table@.len() && #[trigger] table@[m] == ranked@[i];
    }
    assert forall|a: u32| credit(all, a) > 0 implies exists|i: int| 0 <= i < ranked@.len() && (#[trigger] ranked@[i]).0 == a by {
        let k = choose|k: int| 0 <= k < table@.len() && (#[trigger] table@[k]).0 == a;
        assert(table@.contains(table@[k]));
        let i = choose|i: int| 0 <= i < ranked@.len() && #[trigger] ranked@[i] == table@[k];
        assert(ranked@[i].0 == a);
    }
    ranked
}

/// The top of the ranking: its first `LEADERBOARD_SIZE` entries.
pub fn leaderboard(lists: &Vec<Vec<u32>>) -> (r: Vec<(u32, u64)>)
    requires
        forall|i: int| 0 <= i < lists@.len() ==> (#[trigger] lists@[i])@.no_duplicates(),
    ensures
        exists|full: Seq<(u32, u64)>|
            is_ranking(lists_view(lists@), full) && r@ == full.take(
                if full.len() < LEADERBOARD_SIZE {
                    full.len() as int
                } else {
                    LEADERBOARD_SIZE as int
                },
            ),
{
    let mut ranked = rank_accounts(lists);
    let ghost full = ranked@;
    ranked.truncate(LEADERBOARD_SIZE);
    assert(ranked@ =~= full.take(
        if full.len() < LEADERBOARD_SIZE {
            full.len() as int
        } else {
            LEADERBOARD_SIZE as int
        },
    ));
    ranked
}

} // verus!
