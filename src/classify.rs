//! The placeholder heuristic: a release whose pre-release or build metadata
//! mentions one of a fixed set of words is taken for a reservation.

use crate::index::Version;
use vstd::prelude::*;
use vstd::string::StringSliceAdditionalSpecFns;
use vstd::utf8::encode_utf8;

verus! {

/// ASCII lower case of one byte.
pub open spec fn lower_byte(b: u8) -> u8 {
    if 65u8 <= b <= 90u8 {
        (b + 32) as u8
    } else {
        b
    }
}

pub open spec fn lower(s: Seq<u8>) -> Seq<u8> {
    s.map_values(|b: u8| lower_byte(b))
}

/// `word` occurs in `hay` as a contiguous run.
pub open spec fn contains(hay: Seq<u8>, word: Seq<u8>) -> bool {
    exists|i: int|
        0 <= i && i + word.len() <= hay.len() && #[trigger] hay.subrange(i, i + word.len())
            == word
}

/// The words that mark a release as a placeholder.
pub open spec fn vocabulary() -> Seq<Seq<u8>> {
    seq![
        "reserve".spec_bytes(),
        "placeholder".spec_bytes(),
        "dummy".spec_bytes(),
        "empty".spec_bytes(),
        "initial".spec_bytes(),
        "invisible".spec_bytes(),
        "nothing".spec_bytes(),
        "squat".spec_bytes(),
        "stub".spec_bytes(),
        "unreleased".spec_bytes(),
    ]
}

/// Some word of the vocabulary occurs in the text, ignoring ASCII case.
pub open spec fn mentions_placeholder(text: Seq<u8>) -> bool {
    exists|k: int| 0 <= k < vocabulary().len() && contains(lower(text), #[trigger] vocabulary()[k])
}

/// A version whose pre-release or build metadata mentions a placeholder word.
pub open spec fn is_placeholder(v: Version) -> bool {
    mentions_placeholder(encode_utf8(v.pre@)) || mentions_placeholder(encode_utf8(v.build@))
}

fn lower_ascii(b: u8) -> (r: u8)
    ensures
        r == lower_byte(b),
{
    if 65 <= b && b <= 90 {
        b + 32
    } else {
        b
    }
}

/// Whether `word` occurs in the ASCII lower case of `hay`.
fn contains_lowered(hay: &[u8], word: &[u8]) -> (r: bool)
    ensures
        r == contains(lower(hay@), word@),
{
    let ghost h = lower(hay@);
    let n = hay.len();
    if word.len() > n {
        return false;
    }
    if word.len() == 0 {
        assert(h.subrange(0int, 0int + word@.len()) =~= word@);
        return true;
    }
    let last = n - word.len();
    let mut i: usize = 0;
    while i <= last
        invariant
            h == lower(hay@),
            last == hay@.len() - word@.len(),
            n == hay@.len(),
            word@.len() > 0,
            i <= last + 1,
            forall|k: int| 0 <= k < i ==> #[trigger] h.subrange(k, k + word@.len()) != word@,
        decreases last + 1 - i,
    {
        let mut j: usize = 0;
        let mut agree = true;
        while agree && j < word.len()
            invariant
                h == lower(hay@),
                i <= last,
                last == hay@.len() - word@.len(),
                n == hay@.len(),
                i + word@.len() <= hay@.len(),
                j <= word@.len(),
                h.subrange(i as int, i + j) == word@.subrange(0, j as int),
                !agree ==> j < word@.len() && h[i + j] != word@[j as int],
            decreases word@.len() - j, if agree { 1int } else { 0int },
        {
            if lower_ascii(hay[i + j]) == word[j] {
                assert(h.subrange(i as int, i + j + 1) =~= h.subrange(i as int, i + j).push(
                    h[i + j],
                ));
                assert(word@.subrange(0, j + 1) =~= word@.subrange(0, j as int).push(
                    word@[j as int],
                ));
                j = j + 1;
            } else {
                agree = false;
            }
        }
        if agree {
            assert(word@.subrange(0, j as int) =~= word@);
            assert(h.subrange(i as int, i + word@.len()) == word@);
            return true;
        }
        assert(h.subrange(i as int, i + word@.len())[j as int] != word@[j as int]);
        i = i + 1;
    }
    assert forall|k: int|
        0 <= k && k + word@.len() <= h.len() implies #[trigger] h.subrange(k, k + word@.len())
        != word@ by {
        assert(k < i);
    }
    false
}

/// The vocabulary, in the order of `vocabulary()`.
fn vocabulary_words() -> (r: Vec<&'static str>)
    ensures
        r@.len() == vocabulary().len(),
        forall|k: int| 0 <= k < r@.len() ==> (#[trigger] r@[k]).spec_bytes() == vocabulary()[k],
{
    let r = vec![
        "reserve",
        "placeholder",
        "dummy",
        "empty",
        "initial",
        "invisible",
        "nothing",
        "squat",
        "stub",
        "unreleased",
    ];
    r
}

/// Whether the text mentions a placeholder word, ignoring ASCII case.
pub fn mentions_placeholder_word(text: &str) -> (r: bool)
    ensures
        r == mentions_placeholder(text.spec_bytes()),
{
    let words = vocabulary_words();
    let hay = text.as_bytes();
    let mut k: usize = 0;
    while k < words.len()
        invariant
            hay@ == text.spec_bytes(),
            words@.len() == vocabulary().len(),
            forall|m: int|
                0 <= m < words@.len() ==> (#[trigger] words@[m]).spec_bytes() == vocabulary()[m],
            k <= words@.len(),
            forall|m: int| 0 <= m < k ==> !contains(lower(hay@), #[trigger] vocabulary()[m]),
        decreases words@.len() - k,
    {
        if contains_lowered(hay, words[k].as_bytes()) {
            return true;
        }
        k = k + 1;
    }
    false
}

/// Whether a version is a placeholder release.
pub fn is_placeholder_version(v: &Version) -> (r: bool)
    ensures
        r == is_placeholder(*v),
{
    mentions_placeholder_word(v.pre.as_str()) || mentions_placeholder_word(v.build.as_str())
}

} // verus!
