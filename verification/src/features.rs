//! Hashing behind the unit embeddings.
//!
//! An embedding has 64 dimensions: 8 audio features and 56 hashed character
//! trigrams. The trigram counts are exact integers; scaling and normalization
//! of the vector are left to its user.

use crate::text::{chars_of, string_of_range};
use crate::units::{normalize, normalized};
use vstd::prelude::*;
use vstd::string::*;
use vstd::utf8::encode_utf8;

verus! {

/// Dimensions of an embedding.
pub const DIM: usize = 64;

/// Dimensions that hold hashed trigrams.
pub const TEXT_DIMS: usize = 56;

/// FNV-1a over bytes, 32 bits.
pub open spec fn fnv_of(bytes: Seq<u8>) -> u32
    decreases bytes.len(),
{
    if bytes.len() == 0 {
        0x811c_9dc5
    } else {
        vstd::wrapping::u32_specs::wrapping_mul(
            fnv_of(bytes.drop_last()) ^ (bytes.last() as u32),
            0x0100_0193,
        )
    }
}

/// FNV-1a 32-bit over the UTF-8 form of a text.
pub fn fnv(s: &str) -> (r: u32)
    ensures
        r == fnv_of(encode_utf8(s@)),
{
    let bytes: &[u8] = s.as_bytes();
    let mut h: u32 = 0x811c_9dc5;
    let mut i: usize = 0;
    assert(bytes@.take(0) =~= Seq::<u8>::empty());
    while i < bytes.len()
        invariant
            i <= bytes@.len(),
            h == fnv_of(bytes@.take(i as int)),
        decreases bytes@.len() - i,
    {
        assert(bytes@.take(i + 1).drop_last() =~= bytes@.take(i as int));
        h = (h ^ (bytes[i] as u32)).wrapping_mul(0x0100_0193);
        i += 1;
    }
    assert(bytes@.take(i as int) =~= bytes@);
    h
}

/// A normalized text with a space on either side.
pub open spec fn padded(text: Seq<char>) -> Seq<char> {
    seq![' '] + normalized(text) + seq![' ']
}

/// The hash of the three characters from `i` on.
pub open spec fn trigram_hash(s: Seq<char>, i: int) -> u32 {
    fnv_of(encode_utf8(s.subrange(i, i + 3)))
}

/// What a hash adds to dimension `d`: a unit with the sign of bit 13.
pub open spec fn hash_share(h: u32, d: int) -> int {
    if h % 56 != d {
        0
    } else if (h / 8192) % 2 == 1 {
        1
    } else {
        -1
    }
}

/// What the first `n` trigrams of `s` add up to in dimension `d`.
pub open spec fn trigram_sum(s: Seq<char>, n: nat, d: int) -> int
    decreases n,
{
    if n == 0 {
        0
    } else {
        trigram_sum(s, (n - 1) as nat, d) + hash_share(trigram_hash(s, n - 1), d)
    }
}

/// The number of trigrams of a text of `n` characters.
pub open spec fn trigrams(n: nat) -> nat {
    if n < 3 {
        0
    } else {
        (n - 2) as nat
    }
}

/// The 56 text dimensions of an embedding, before normalization.
pub open spec fn text_features(text: Seq<char>) -> Seq<int> {
    Seq::new(56, |d: int| trigram_sum(padded(text), trigrams(padded(text).len()), d))
}

/// The text dimensions of an embedding: signed counts of hashed trigrams.
pub fn trigram_counts(text: &str) -> (r: Vec<i128>)
    ensures
        r@.len() == 56,
        forall|d: int| 0 <= d < 56 ==> r@[d] == text_features(text@)[d],
{
    let norm = normalize(text);
    let inner = chars_of(norm.as_str());
    let mut chars: Vec<char> = Vec::new();
    chars.push(' ');
    let mut k: usize = 0;
    assert(chars@ =~= seq![' '] + inner@.take(0));
    while k < inner.len()
        invariant
            k <= inner@.len(),
            chars@ == seq![' '] + inner@.take(k as int),
        decreases inner@.len() - k,
    {
        chars.push(inner[k]);
        k += 1;
        assert(chars@ =~= seq![' '] + inner@.take(k as int));
    }
    assert(inner@.take(k as int) =~= inner@);
    chars.push(' ');
    assert(chars@ =~= padded(text@));
    let total: usize = chars.len();
    let n: usize = if total < 3 {
        0
    } else {
        total - 2
    };
    let mut out: Vec<i128> = Vec::new();
    let mut d: usize = 0;
    while d < TEXT_DIMS
        invariant
            d <= 56,
            out@.len() == d,
            forall|j: int| 0 <= j < d ==> out@[j] == 0,
        decreases 56 - d,
    {
        out.push(0);
        d += 1;
    }
    let mut i: usize = 0;
    while i < n
        invariant
            chars@ == padded(text@),
            total == chars@.len(),
            n == trigrams(total as nat),
            i <= n,
            out@.len() == 56,
            forall|j: int|
                0 <= j < 56 ==> out@[j] == trigram_sum(chars@, i as nat, j) && -i <= out@[j] <= i,
        decreases n - i,
    {
        let tri = string_of_range(&chars, i, i + 3);
        let h: u32 = fnv(tri.as_str());
        let at: usize = (h % 56) as usize;
        let old: i128 = out[at];
        let share: i128 = if (h / 8192) % 2 == 1 {
            1
        } else {
            -1
        };
        out.set(at, old + share);
        i += 1;
    }
    out
}

// ---- laws ----

/// A trigram counts once: it adds or takes one in the dimension that its hash
/// picks, and nothing in any other.
pub proof fn trigrams_count_once(h: u32, d: int)
    ensures
        0 <= h % 56 < 56,
        hash_share(h, (h % 56) as int) == 1 || hash_share(h, (h % 56) as int) == -1,
        d != h % 56 ==> hash_share(h, d) == 0,
{
}

/// Texts with the same normal form have the same features.
pub proof fn features_are_of_the_normal_form(a: Seq<char>, b: Seq<char>)
    requires
        normalized(a) == normalized(b),
    ensures
        text_features(a) == text_features(b),
{
}

/// A text of `n` characters in normal form, with a space on either side, has `n`
/// trigrams.
pub proof fn every_character_has_its_trigram(text: Seq<char>)
    ensures
        trigrams(padded(text).len()) == normalized(text).len(),
        text_features(text).len() == 56,
{
}

} // verus!
