//! Pairwise dissimilarity of records.
//!
//! Scores live on an integer scale from `0` (identical) to
//! [`DISSIMILARITY_MAX`] (entirely dissimilar). The scale is derived from
//! the IEEE-754 single-precision bit pattern of a similarity in [0, 1]:
//! the bit patterns of non-negative floating-point numbers are ordered
//! exactly as the numbers themselves, so `SIMILARITY_ONE_BITS - bits` is
//! a strictly decreasing integer image of the similarity. Identical
//! records score `0`; a lower similarity gives a strictly higher score.

use vstd::prelude::*;

verus! {

/// The IEEE-754 single-precision bit pattern of similarity one.
pub const SIMILARITY_ONE_BITS: u32 = 0x3F80_0000;

/// The greatest dissimilarity score: the image of similarity zero.
pub const DISSIMILARITY_MAX: u32 = SIMILARITY_ONE_BITS;

/// A pairwise dissimilarity measure over records of type `V`.
///
/// An implementation must be pure: `dissim` names the one score that
/// `compare` returns for a pair, and callers may evaluate `compare`
/// many times and in any order. The measure is applied to each unordered
/// pair with the earlier record first, never the other way round, so a
/// caller that needs a symmetric notion of similarity must supply a
/// symmetric measure.
pub trait Comparator<V> {
    /// The dissimilarity score of two records, as a mathematical function.
    spec fn dissim(&self, a: V, b: V) -> u32;

    /// Computes the dissimilarity score of two records.
    fn compare(&self, a: &V, b: &V) -> (d: u32)
        ensures
            d == self.dissim(*a, *b),
            d <= DISSIMILARITY_MAX,
    ;
}

/// What `jaro_winkler::jaro_winkler` returns for two strings: the IEEE-754
/// bit pattern of their Jaro-Winkler similarity, a pure function of the
/// two character sequences.
pub uninterp spec fn jaro_winkler_similarity_bits(a: Seq<char>, b: Seq<char>) -> u32;

/// Relies on `jaro_winkler::jaro_winkler`: a pure, deterministic function
/// of its two arguments that returns a similarity in [0, 1]; the bit
/// pattern of a non-negative single-precision number is at most the bit
/// pattern of 1.0, since those bit patterns order as the numbers do. For
/// equal strings (equal character sequences encode to equal bytes) it
/// returns exactly 1.0.
#[verifier::external_body]
fn similarity_bits(a: &str, b: &str) -> (bits: u32)
    ensures
        bits == jaro_winkler_similarity_bits(a@, b@),
        bits <= SIMILARITY_ONE_BITS,
        a@ == b@ ==> bits == SIMILARITY_ONE_BITS,
{
    jaro_winkler::jaro_winkler(a, b).to_bits()
}

/// The dissimilarity scale value for a similarity bit pattern.
pub open spec fn scaled_dissimilarity(bits: u32) -> u32 {
    if bits <= SIMILARITY_ONE_BITS {
        (SIMILARITY_ONE_BITS - bits) as u32
    } else {
        0
    }
}

/// Turns a similarity bit pattern into its dissimilarity scale value.
pub fn scale_similarity(bits: u32) -> (d: u32)
    requires
        bits <= SIMILARITY_ONE_BITS,
    ensures
        d == scaled_dissimilarity(bits),
        d <= DISSIMILARITY_MAX,
{
    SIMILARITY_ONE_BITS - bits
}

/// Compares strings by Jaro-Winkler similarity: `0` for identical strings,
/// up to [`DISSIMILARITY_MAX`] for entirely dissimilar ones.
#[derive(Debug, Clone, Copy, PartialEq, Eq, Structural)]
pub struct JaroWinkler;

impl Comparator<String> for JaroWinkler {
    open spec fn dissim(&self, a: String, b: String) -> u32 {
        scaled_dissimilarity(jaro_winkler_similarity_bits(a@, b@))
    }

    fn compare(&self, a: &String, b: &String) -> (d: u32) {
        scale_similarity(similarity_bits(a.as_str(), b.as_str()))
    }
}

} // verus!
