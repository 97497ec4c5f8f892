//! The set of flagged packages: at most one entry per name key, kept in
//! order of the keys.

use crate::index::{crate_rows, CrateEntry};
use crate::name::{
    lemma_seq_less_irreflexive, lemma_seq_less_transitive, lemma_seq_less_trichotomy, name_key,
    seq_less,
};
use crate::sorted::{lemma_sorted_unique, strict_order, strictly_sorted};
use std::cmp::Ordering;
use vstd::prelude::*;

verus! {

/// Entries strictly increasing by name key.
pub open spec fn keys_sorted(s: Seq<(u32, Seq<u8>)>) -> bool {
    forall|i: int, j: int|
        0 <= i < j < s.len() ==> seq_less(name_key(#[trigger] s[i].1), name_key(#[trigger] s[j].1))
}

/// Some entry of the set has this name key.
pub open spec fn has_key(s: Set<(u32, Seq<u8>)>, key: Seq<u8>) -> bool {
    exists|e: (u32, Seq<u8>)| #[trigger] s.contains(e) && name_key(e.1) == key
}

/// Adds an entry unless one with the same name key is already there.
pub open spec fn flag(s: Set<(u32, Seq<u8>)>, e: (u32, Seq<u8>)) -> Set<(u32, Seq<u8>)> {
    if has_key(s, name_key(e.1)) {
        s
    } else {
        s.insert(e)
    }
}

/// Entries sorted by name key are determined by the set they hold.
pub proof fn lemma_entries_unique(a: Seq<(u32, Seq<u8>)>, b: Seq<(u32, Seq<u8>)>)
    requires
        keys_sorted(a),
        keys_sorted(b),
        a.to_set() == b.to_set(),
    ensures
        a == b,
{
    let less = |x: (u32, Seq<u8>), y: (u32, Seq<u8>)| seq_less(name_key(x.1), name_key(y.1));
    assert forall|x: (u32, Seq<u8>)| !(#[trigger] less(x, x)) by {
        lemma_seq_less_irreflexive(name_key(x.1));
    }
    assert forall|x: (u32, Seq<u8>), y: (u32, Seq<u8>), z: (u32, Seq<u8>)|
        #[trigger] less(x, y) && #[trigger] less(y, z) implies less(x, z) by {
        lemma_seq_less_transitive(name_key(x.1), name_key(y.1), name_key(z.1));
    }
    assert(strict_order(less));
    assert(strictly_sorted(a, less));
    assert(strictly_sorted(b, less));
    lemma_sorted_unique(a, b, less);
}

/// Flagged packages, each with the id it was found under.
pub struct FlaggedSet {
    entries: Vec<CrateEntry>,
}

impl FlaggedSet {
    /// The entries, in order of their name keys.
    pub closed spec fn entries(&self) -> Seq<(u32, Seq<u8>)> {
        crate_rows(self.entries@)
    }

    pub open spec fn set(&self) -> Set<(u32, Seq<u8>)> {
        self.entries().to_set()
    }

    pub open spec fn wf(&self) -> bool {
        keys_sorted(self.entries())
    }

    pub fn new() -> (r: Self)
        ensures
            r.wf(),
            r.entries() == Seq::<(u32, Seq<u8>)>::empty(),
    {
        let r = FlaggedSet { entries: Vec::new() };
        assert(r.entries() =~= Seq::<(u32, Seq<u8>)>::empty());
        r
    }

    pub fn len(&self) -> (r: usize)
        ensures
            r == self.entries().len(),
    {
        self.entries.len()
    }

    pub fn get(&self, i: usize) -> (r: &CrateEntry)
        requires
            i < self.entries().len(),
        ensures
            (r.id, r.name@) == self.entries()[i as int],
    {
        &self.entries[i]
    }

    /// Adds an entry unless its name key is already flagged; the first
    /// spelling of a name is the one kept.
    pub fn insert(&mut self, e: CrateEntry)
        requires
            old(self).wf(),
        ensures
            final(self).wf(),
            final(self).set() == flag(old(self).set(), (e.id, e.name@)),
    {
        let ghost s = self.entries();
        let ghost k = name_key(e.name@);
        let mut i: usize = 0;
        let mut placed = false;
        while !placed && i < self.entries.len()
            invariant
                s == self.entries(),
                k == name_key(e.name@),
                self.entries == old(self).entries,
                keys_sorted(s),
                i <= s.len(),
                forall|m: int| 0 <= m < i ==> seq_less(name_key(#[trigger] s[m].1), k),
                placed ==> i < s.len() && !seq_less(name_key(s[i as int].1), k),
            decreases s.len() - i, if placed { 0int } else { 1int },
        {
            let c = self.entries[i].name.compare(&e.name);
            proof {
                assert(s[i as int].1 == self.entries@[i as int].name@);
                lemma_seq_less_irreflexive(k);
            }
            match c {
                Ordering::Less => {
                    i = i + 1;
                },
                _ => {
                    placed = true;
                },
            }
        }
        if placed && self.entries[i].name.same(&e.name) {
            assert(s.to_set().contains(s[i as int]));
            return;
        }
        let ghost entry = (e.id, e.name@);
        assert(!has_key(s.to_set(), k)) by {
            if has_key(s.to_set(), k) {
                let x = choose|x: (u32, Seq<u8>)| #[trigger] s.to_set().contains(x) && name_key(x.1) == k;
                let m = choose|m: int| 0 <= m < s.len() && s[m] == x;
                if m < i {
                    lemma_seq_less_irreflexive(k);
                } else {
                    lemma_seq_less_trichotomy(name_key(s[i as int].1), k);
                    if m > i {
                        lemma_seq_less_transitive(k, name_key(s[i as int].1), name_key(s[m].1));
                    }
                    lemma_seq_less_irreflexive(k);
                }
            }
        }
        if placed {
            proof {
                lemma_seq_less_trichotomy(name_key(s[i as int].1), k);
            }
        }
        self.entries.insert(i, e);
        proof {
            s.insert_ensures(i as int, entry);
            assert(self.entries() =~= s.insert(i as int, entry));
            let t = self.entries();
            assert forall|a: int, b: int| 0 <= a < b < t.len() implies seq_less(
                name_key(#[trigger] t[a].1),
                name_key(#[trigger] t[b].1),
            ) by {
                if b == i {
                } else if a == i {
                    if b > i + 1 {
                        lemma_seq_less_transitive(k, name_key(s[i as int].1), name_key(s[b - 1].1));
                    }
                } else if a < i && b > i {
                    if b - 1 > i {
                        lemma_seq_less_transitive(k, name_key(s[i as int].1), name_key(s[b - 1].1));
                    }
                    lemma_seq_less_transitive(name_key(s[a].1), k, name_key(s[b - 1].1));
                }
            }
            assert forall|x: (u32, Seq<u8>)| #[trigger] t.to_set().contains(x) <==> s.to_set().insert(
                entry,
            ).contains(x) by {
                if t.to_set().contains(x) {
                    let m = choose|m: int| 0 <= m < t.len() && t[m] == x;
                    if m > i {
                        assert(s[m - 1] == x);
                    }
                }
                if s.to_set().contains(x) {
                    let m = choose|m: int| 0 <= m < s.len() && s[m] == x;
                    if m < i {
                        assert(t[m] == x);
                    } else {
                        assert(t[m + 1] == x);
                    }
                }
                if x == entry {
                    assert(t[i as int] == x);
                }
            }
            assert(t.to_set() =~= s.to_set().insert(entry));
        }
    }
}

} // verus!
