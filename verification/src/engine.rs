//! The merge-tree engine boundary.
//!
//! The merge tree itself is built by an outside clustering engine and
//! consumed here as a primitive: this module declares the shape of a
//! merge step, the well-formedness that the engine's labeling scheme
//! guarantees, and the one trusted call into the engine.

use vstd::prelude::*;

verus! {

/// One merge of two clusters, produced by the engine.
///
/// Identifiers below the number of observations denote original records
/// (leaves); identifier `n + i` denotes the cluster created by step `i`,
/// in creation order. `dissimilarity` is the score at which the two
/// children were merged; with complete linkage it is the greatest
/// pairwise score between a leaf of one child and a leaf of the other.
#[derive(Debug, Clone, Copy, PartialEq, Eq, Structural)]
pub struct MergeStep {
    /// The smaller of the two merged cluster identifiers.
    pub cluster1: usize,
    /// The larger of the two merged cluster identifiers.
    pub cluster2: usize,
    /// The dissimilarity at which the children were merged.
    pub dissimilarity: u32,
}

/// Step `i` merges two distinct, earlier identifiers: both children lie
/// below `n + i`, so every walk toward the leaves descends.
pub open spec fn step_wf(steps: Seq<MergeStep>, n: usize, i: int) -> bool {
    steps[i].cluster1 < steps[i].cluster2 && steps[i].cluster2 < n + i
}

/// Every step is well-formed.
pub open spec fn steps_wf(steps: Seq<MergeStep>, n: usize) -> bool {
    forall|i: int| 0 <= i < steps.len() ==> step_wf(steps, n, i)
}

/// No identifier is merged twice: each cluster, once consumed by a merge,
/// never reappears as a child of a later one.
pub open spec fn children_unique(steps: Seq<MergeStep>) -> bool {
    forall|i: int, j: int|
        0 <= i < steps.len() && 0 <= j < steps.len() && i != j ==> {
            &&& steps[i].cluster1 != steps[j].cluster1
            &&& steps[i].cluster1 != steps[j].cluster2
            &&& steps[i].cluster2 != steps[j].cluster1
            &&& steps[i].cluster2 != steps[j].cluster2
        }
}

/// What `kodama::linkage` returns with complete linkage for a condensed
/// matrix and a number of observations: one triple per merge step, in
/// step order, holding the two child identifiers and the merge
/// dissimilarity. The engine is deterministic: a pure function of the
/// matrix and the observation count.
pub uninterp spec fn linkage_merges(condensed: Seq<u32>, observations: usize) -> Seq<(usize, usize, u32)>;

/// The merge steps that a sequence of engine triples denotes.
pub open spec fn merge_steps_from(triples: Seq<(usize, usize, u32)>) -> Seq<MergeStep> {
    triples.map_values(
        |t: (usize, usize, u32)| MergeStep { cluster1: t.0, cluster2: t.1, dissimilarity: t.2 },
    )
}

/// Relies on `kodama::linkage` with `kodama::Method::Complete`: for `n`
/// observations and a condensed matrix of `n * (n - 1) / 2` finite
/// entries it returns `n - 1` steps whose labels follow the documented
/// scheme (records are `0..n`, step `i` creates identifier `n + i`, a
/// step merges two distinct earlier identifiers, the smaller child
/// first, and an identifier is merged at most once). With complete
/// linkage every step dissimilarity is a value selected from the input
/// matrix, so the integer scores survive the engine's floating-point
/// domain unchanged: they are carried in exactly (any integer of this
/// size is an exact double) via `serde_json::Number::from` and
/// `Number::as_f64`, and carried back by parsing the decimal rendering
/// of the (integer-valued) result.
#[verifier::external_body]
pub(crate) fn complete_linkage(condensed: &Vec<u32>, observations: usize) -> (steps: Vec<MergeStep>)
    requires
        observations >= 2,
        condensed@.len() == observations * (observations - 1) / 2,
    ensures
        steps@ == merge_steps_from(linkage_merges(condensed@, observations)),
        steps@.len() == observations - 1,
        steps_wf(steps@, observations),
        children_unique(steps@),
{
    let mut matrix: Vec<_> = condensed
        .iter()
        .map(|&score| serde_json::Number::from(score).as_f64().unwrap())
        .collect();
    let dendrogram = kodama::linkage(&mut matrix, observations, kodama::Method::Complete);
    dendrogram
        .steps()
        .iter()
        .map(|s| MergeStep {
            cluster1: s.cluster1,
            cluster2: s.cluster2,
            dissimilarity: s.dissimilarity.to_string().parse().unwrap(),
        })
        .collect()
}

} // verus!
