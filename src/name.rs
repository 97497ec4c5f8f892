//! Package names under the registry's own notion of identity: ASCII case is
//! ignored and `_` stands for `-`, byte by byte.

use std::cmp::Ordering;
use vstd::prelude::*;
use vstd::string::StringSliceAdditionalSpecFns;
use vstd::utf8::encode_utf8;

verus! {

const UNDERSCORE: u8 = 95;

const HYPHEN: u8 = 45;

const UPPER_A: u8 = 65;

const UPPER_Z: u8 = 90;

/// The byte that a name byte is compared as.
pub open spec fn fold_byte(b: u8) -> u8 {
    if b == 95u8 {
        45u8
    } else if 65u8 <= b <= 90u8 {
        (b + 32) as u8
    } else {
        b
    }
}

/// The comparison key of a name: each byte folded.
pub open spec fn name_key(s: Seq<u8>) -> Seq<u8> {
    s.map_values(|b: u8| fold_byte(b))
}

/// Strict lexicographic order on byte strings; a proper prefix comes first.
pub open spec fn seq_less(a: Seq<u8>, b: Seq<u8>) -> bool
    decreases a.len(),
{
    if a.len() == 0 {
        b.len() > 0
    } else if b.len() == 0 {
        false
    } else if a[0] != b[0] {
        a[0] < b[0]
    } else {
        seq_less(a.drop_first(), b.drop_first())
    }
}

/// Three-way comparison of byte strings under `seq_less`.
pub open spec fn seq_cmp(a: Seq<u8>, b: Seq<u8>) -> Ordering {
    if a == b {
        Ordering::Equal
    } else if seq_less(a, b) {
        Ordering::Less
    } else {
        Ordering::Greater
    }
}

pub proof fn lemma_seq_less_irreflexive(a: Seq<u8>)
    ensures
        !seq_less(a, a),
    decreases a.len(),
{
    if a.len() > 0 {
        lemma_seq_less_irreflexive(a.drop_first());
    }
}

pub proof fn lemma_seq_less_trichotomy(a: Seq<u8>, b: Seq<u8>)
    ensures
        a == b || seq_less(a, b) || seq_less(b, a),
        !(seq_less(a, b) && seq_less(b, a)),
    decreases a.len(),
{
    if a.len() > 0 && b.len() > 0 && a[0] == b[0] {
        lemma_seq_less_trichotomy(a.drop_first(), b.drop_first());
        if a.drop_first() == b.drop_first() {
            assert(a =~= seq![a[0]] + a.drop_first());
            assert(b =~= seq![b[0]] + b.drop_first());
        }
    } else if a.len() == 0 && b.len() == 0 {
        assert(a =~= b);
    }
}

pub proof fn lemma_seq_less_transitive(a: Seq<u8>, b: Seq<u8>, c: Seq<u8>)
    requires
        seq_less(a, b),
        seq_less(b, c),
    ensures
        seq_less(a, c),
    decreases a.len(),
{
    if a.len() > 0 && b.len() > 0 && c.len() > 0 && a[0] == b[0] && b[0] == c[0] {
        lemma_seq_less_transitive(a.drop_first(), b.drop_first(), c.drop_first());
    }
}

/// Two bytes that differ at most by ASCII case, or that are `_` and `-`.
pub open spec fn bytes_alike(x: u8, y: u8) -> bool {
    ||| x == y
    ||| 65u8 <= x <= 90u8 && y == x + 32
    ||| 65u8 <= y <= 90u8 && x == y + 32
    ||| (x == 95u8 || x == 45u8) && (y == 95u8 || y == 45u8)
}

/// Names that differ only by ASCII case, or by `_` against `-` at the same
/// positions, denote the same package: equal keys, so `same`, `==` and
/// `compare` all report them equal.
pub proof fn lemma_alike_names_equal(a: Seq<u8>, b: Seq<u8>)
    requires
        a.len() == b.len(),
        forall|i: int| 0 <= i < a.len() ==> bytes_alike(#[trigger] a[i], b[i]),
    ensures
        name_key(a) == name_key(b),
        seq_cmp(name_key(a), name_key(b)) == Ordering::Equal,
{
    assert forall|i: int| 0 <= i < a.len() implies #[trigger] name_key(a)[i] == name_key(b)[i] by {
        assert(bytes_alike(a[i], b[i]));
    }
    assert(name_key(a) =~= name_key(b));
}

/// Folds one byte of a name: ASCII upper case to lower case, `_` to `-`.
pub fn fold(b: u8) -> (r: u8)
    ensures
        r == fold_byte(b),
{
    if b == UNDERSCORE {
        HYPHEN
    } else if UPPER_A <= b && b <= UPPER_Z {
        b + 32
    } else {
        b
    }
}

/// A package name. Two names are the same package when their keys agree.
#[derive(Debug)]
pub struct CrateName {
    name: String,
}

impl Clone for CrateName {
    fn clone(&self) -> (r: Self)
        ensures
            r == *self,
    {
        CrateName { name: self.name.clone() }
    }
}

impl View for CrateName {
    type V = Seq<u8>;

    closed spec fn view(&self) -> Seq<u8> {
        encode_utf8(self.name@)
    }
}

impl CrateName {
    pub fn new(string: String) -> (r: Self)
        ensures
            r.text() == string@,
            r@ == encode_utf8(string@),
    {
        CrateName { name: string }
    }

    /// The characters of the name as written.
    pub closed spec fn text(&self) -> Seq<char> {
        self.name@
    }

    pub fn as_str(&self) -> (r: &str)
        ensures
            r@ == self.text(),
            r.spec_bytes() == self@,
    {
        self.name.as_str()
    }

    /// Whether two names denote the same package.
    pub fn same(&self, other: &CrateName) -> (r: bool)
        ensures
            r == (name_key(self@) == name_key(other@)),
    {
        self.equals_str(other.as_str())
    }

    /// Whether this name denotes the same package as the given text.
    pub fn equals_str(&self, other: &str) -> (r: bool)
        ensures
            r == (name_key(self@) == name_key(other.spec_bytes())),
    {
        match self.compare_str(other) {
            Ordering::Equal => true,
            _ => false,
        }
    }

    /// The order of two names by their keys.
    pub fn compare(&self, other: &CrateName) -> (r: Ordering)
        ensures
            r == seq_cmp(name_key(self@), name_key(other@)),
    {
        self.compare_str(other.as_str())
    }

    /// The order of this name and the given text by their keys.
    pub fn compare_str(&self, other: &str) -> (r: Ordering)
        ensures
            r == seq_cmp(name_key(self@), name_key(other.spec_bytes())),
    {
        let a = self.name.as_str().as_bytes();
        let b = other.as_bytes();
        let ghost ka = name_key(a@);
        let ghost kb = name_key(b@);
        let mut i: usize = 0;
        while i < a.len() && i < b.len()
            invariant
                a@ == self@,
                b@ == other.spec_bytes(),
                ka == name_key(a@),
                kb == name_key(b@),
                i <= a@.len(),
                i <= b@.len(),
                ka.subrange(0, i as int) == kb.subrange(0, i as int),
            decreases a@.len() - i,
        {
            let x = fold(a[i]);
            let y = fold(b[i]);
            if x != y {
                proof {
                    lemma_less_at(ka, kb, i as int);
                }
                if x < y {
                    return Ordering::Less;
                } else {
                    return Ordering::Greater;
                }
            }
            assert(ka.subrange(0, i + 1) =~= ka.subrange(0, i as int).push(ka[i as int]));
            assert(kb.subrange(0, i + 1) =~= kb.subrange(0, i as int).push(kb[i as int]));
            i = i + 1;
        }
        proof {
            lemma_prefix_order(ka, kb, i as int);
        }
        if a.len() < b.len() {
            Ordering::Less
        } else if a.len() > b.len() {
            Ordering::Greater
        } else {
            Ordering::Equal
        }
    }
}

/// Two strings that agree up to `i` and differ at `i` are ordered by that byte.
proof fn lemma_less_at(a: Seq<u8>, b: Seq<u8>, i: int)
    requires
        0 <= i < a.len(),
        i < b.len(),
        a.subrange(0, i) == b.subrange(0, i),
        a[i] != b[i],
    ensures
        seq_less(a, b) == (a[i] < b[i]),
        seq_less(b, a) == (b[i] < a[i]),
        a != b,
    decreases i,
{
    if i > 0 {
        assert(a[0] == a.subrange(0, i)[0]);
        assert(b[0] == b.subrange(0, i)[0]);
        assert(a.drop_first().subrange(0, i - 1) =~= a.subrange(0, i).drop_first());
        assert(b.drop_first().subrange(0, i - 1) =~= b.subrange(0, i).drop_first());
        lemma_less_at(a.drop_first(), b.drop_first(), i - 1);
    }
    assert(a[i] != b[i]);
}

/// Two strings where one is a prefix of the other are ordered by length.
proof fn lemma_prefix_order(a: Seq<u8>, b: Seq<u8>, i: int)
    requires
        0 <= i <= a.len(),
        i <= b.len(),
        i == a.len() || i == b.len(),
        a.subrange(0, i) == b.subrange(0, i),
    ensures
        seq_less(a, b) == (a.len() < b.len()),
        seq_less(b, a) == (b.len() < a.len()),
        (a == b) == (a.len() == b.len()),
    decreases i,
{
    if i > 0 {
        assert(a[0] == a.subrange(0, i)[0]);
        assert(b[0] == b.subrange(0, i)[0]);
        assert(a.drop_first().subrange(0, i - 1) =~= a.subrange(0, i).drop_first());
        assert(b.drop_first().subrange(0, i - 1) =~= b.subrange(0, i).drop_first());
        lemma_prefix_order(a.drop_first(), b.drop_first(), i - 1);
        if a.len() == b.len() {
            assert(a =~= seq![a[0]] + a.drop_first());
            assert(b =~= seq![b[0]] + b.drop_first());
        }
    } else {
        if a.len() == b.len() {
            assert(a =~= b);
        }
    }
}

impl PartialEq for CrateName {
    fn eq(&self, other: &CrateName) -> (r: bool) {
        self.same(other)
    }
}

impl vstd::std_specs::cmp::PartialEqSpecImpl for CrateName {
    open spec fn obeys_eq_spec() -> bool {
        true
    }

    open spec fn eq_spec(&self, other: &CrateName) -> bool {
        name_key(self@) == name_key(other@)
    }
}

} // verus!
