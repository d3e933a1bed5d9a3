//! Grouping configuration: a validated threshold and a comparator.

use vstd::prelude::*;

verus! {

use crate::compare::Comparator;
use crate::compare::DISSIMILARITY_MAX;
use crate::compare::JaroWinkler;

/// The default threshold: the scale value of a dissimilarity of one
/// quarter.
pub const THRESHOLD_DEFAULT: u32 = 0x40_0000;

/// A configuration fault: the threshold lies outside the dissimilarity
/// scale.
#[derive(Debug, Clone, Copy, PartialEq, Eq, Structural)]
pub enum ConfigError {
    ThresholdOutOfRange,
}

/// How strict or permissive the grouping is: a validated dissimilarity
/// score. A merge whose dissimilarity is at most the threshold is grouped.
///
/// `0` accepts only exact matches; [`DISSIMILARITY_MAX`] accepts
/// everything.
#[derive(Debug, Clone, Copy)]
pub struct Threshold {
    raw: u32,
}

impl Threshold {
    /// The threshold's place on the dissimilarity scale.
    pub closed spec fn raw(&self) -> u32 {
        self.raw
    }

    /// Validates a dissimilarity score as a threshold; scores beyond the
    /// scale are rejected.
    pub fn new(raw: u32) -> (r: Result<Threshold, ConfigError>)
        ensures
            raw <= DISSIMILARITY_MAX ==> (r matches Ok(t) && t.raw() == raw),
            raw > DISSIMILARITY_MAX ==> (r matches Err(e) && e == ConfigError::ThresholdOutOfRange),
    {
        if raw <= DISSIMILARITY_MAX {
            Ok(Threshold { raw })
        } else {
            Err(ConfigError::ThresholdOutOfRange)
        }
    }

    /// Whether a merge of the given dissimilarity is within the threshold.
    /// The boundary is inclusive: a dissimilarity exactly equal to the
    /// threshold is within it.
    pub fn within(&self, dissimilarity: u32) -> (r: bool)
        ensures
            r == (dissimilarity <= self.raw()),
    {
        dissimilarity <= self.raw
    }

    /// The threshold's place on the dissimilarity scale, as a value.
    pub fn raw_value(&self) -> (r: u32)
        ensures
            r == self.raw(),
    {
        self.raw
    }
}

impl Default for Threshold {
    /// The default threshold, [`THRESHOLD_DEFAULT`].
    fn default() -> (t: Self)
        ensures
            t.raw() == THRESHOLD_DEFAULT,
    {
        Threshold { raw: THRESHOLD_DEFAULT }
    }
}

/// Bundles the grouping settings: the threshold and the comparator.
///
/// The comparator must be pure; it is evaluated once per unordered pair
/// of records, possibly concurrently. The merge tree is always built with
/// complete linkage, the one method whose output this library's grouping
/// is stated for.
pub struct Config<C> {
    /// How strict or permissive the grouping is.
    pub threshold: Threshold,
    /// The pairwise dissimilarity measure.
    pub compare: C,
}

impl Config<JaroWinkler> {
    /// A configuration that compares records by Jaro-Winkler similarity.
    pub fn jaro_winkler(threshold: Threshold) -> (c: Self)
        ensures
            c.threshold == threshold,
            c.compare == (JaroWinkler {  }),
    {
        Config { threshold, compare: JaroWinkler {  } }
    }
}

} // verus!
