//! Groups records into clusters of mutual similarity.
//!
//! A pairwise dissimilarity matrix is built from a caller-supplied
//! comparator, handed to an agglomerative complete-linkage clustering
//! engine, and the resulting merge tree is cut at a caller-supplied
//! dissimilarity threshold to produce representative-to-matches groups.

pub mod compare;
pub mod config;
pub mod cut;
pub mod engine;
pub mod laws;
pub mod monotone;

pub use compare::Comparator;
pub use compare::JaroWinkler;
pub use compare::DISSIMILARITY_MAX;
pub use config::Config;
pub use config::ConfigError;
pub use config::Threshold;
pub use config::THRESHOLD_DEFAULT;
pub use cut::threshold_cut;
pub use cut::Group;
pub use engine::MergeStep;

use rayon::iter::IntoParallelRefIterator;
use rayon::iter::ParallelIterator;
use vstd::prelude::*;

verus! {

use crate::cut::group_members;
use crate::cut::grouping_spec;
use crate::cut::groups_members;
use crate::engine::children_unique;
use crate::engine::merge_steps_from;
use crate::engine::linkage_merges;
use crate::engine::steps_wf;

/// The unordered record pairs from `(i, j)` onward, in row-major order:
/// the pairs of row `i` from column `j` on, then every pair of the later
/// rows. The full enumeration starts at `(0, 1)`.
pub open spec fn pairs_from(n: int, i: int, j: int) -> Seq<(usize, usize)>
    decreases n - i, n - j,
{
    if i + 1 >= n {
        Seq::empty()
    } else if j >= n {
        pairs_from(n, i + 1, i + 2)
    } else {
        seq![((i as usize), (j as usize))] + pairs_from(n, i, j + 1)
    }
}

/// Every enumerated pair is ordered and in bounds.
proof fn lemma_pairs_bounds(n: int, i: int, j: int)
    requires
        0 <= i < j,
        n <= usize::MAX,
    ensures
        forall|k: int|
            0 <= k < pairs_from(n, i, j).len() ==> (#[trigger] pairs_from(n, i, j)[k]).0
                < pairs_from(n, i, j)[k].1 && pairs_from(n, i, j)[k].1 < n,
    decreases n - i, n - j,
{
    if i + 1 >= n {
    } else if j >= n {
        lemma_pairs_bounds(n, i + 1, i + 2);
        assert(pairs_from(n, i, j) == pairs_from(n, i + 1, i + 2));
    } else {
        lemma_pairs_bounds(n, i, j + 1);
        assert forall|k: int| 0 <= k < pairs_from(n, i, j).len() implies (#[trigger] pairs_from(
            n,
            i,
            j,
        )[k]).0 < pairs_from(n, i, j)[k].1 && pairs_from(n, i, j)[k].1 < n by {
            if k > 0 {
                assert(pairs_from(n, i, j)[k] == pairs_from(n, i, j + 1)[k - 1]);
            } else {
                assert(pairs_from(n, i, j)[0] == ((i as usize), (j as usize)));
            }
        }
    }
}

/// Twice the count of enumerated pairs, in closed form.
proof fn lemma_pairs_len(n: int, i: int, j: int)
    requires
        0 <= i < n,
        i < j,
        j <= n,
    ensures
        2 * pairs_from(n, i, j).len() == 2 * (n - j) + (n - i - 1) * (n - i - 2),
    decreases n - i, n - j,
{
    if i + 1 >= n {
        assert(j == n);
        assert((n - i - 1) * (n - i - 2) == 0) by (nonlinear_arith)
            requires
                n - i - 1 == 0,
        ;
    } else if j >= n {
        assert(j == n);
        lemma_pairs_len(n, i + 1, i + 2);
        assert(pairs_from(n, i, j) == pairs_from(n, i + 1, i + 2));
        assert(2 * (n - i - 2) + (n - i - 2) * (n - i - 3) == (n - i - 1) * (n - i - 2))
            by (nonlinear_arith);
    } else {
        lemma_pairs_len(n, i, j + 1);
        assert(pairs_from(n, i, j).len() == 1 + pairs_from(n, i, j + 1).len());
    }
}

/// The condensed dissimilarity matrix of a record sequence: one score
/// per unordered pair, in row-major order.
pub open spec fn condensed_of<V, C: Comparator<V>>(records: Seq<V>, comparator: C) -> Seq<u32> {
    pairs_from(records.len() as int, 0, 1).map_values(
        |p: (usize, usize)| comparator.dissim(records[p.0 as int], records[p.1 as int]),
    )
}

/// Lists the unordered record pairs in row-major order.
fn enumerate_pairs(n: usize) -> (pairs: Vec<(usize, usize)>)
    ensures
        pairs@ == pairs_from(n as int, 0, 1),
{
    let mut pairs: Vec<(usize, usize)> = Vec::new();
    if n == 0 {
        return pairs;
    }
    let mut row: usize = 0;
    while row + 1 < n
        invariant
            row < n,
            pairs@ + pairs_from(n as int, row as int, row + 1) == pairs_from(n as int, 0, 1),
        decreases n - row,
    {
        let mut col: usize = row + 1;
        while col < n
            invariant
                row < col <= n,
                row + 1 < n,
                pairs@ + pairs_from(n as int, row as int, col as int) == pairs_from(n as int, 0, 1),
            decreases n - col,
        {
            let ghost before = pairs@;
            pairs.push((row, col));
            proof {
                assert(pairs_from(n as int, row as int, col as int) == seq![(row, col)]
                    + pairs_from(n as int, row as int, col + 1));
                assert(pairs@ + pairs_from(n as int, row as int, col + 1) =~= before + pairs_from(
                    n as int,
                    row as int,
                    col as int,
                ));
            }
            col = col + 1;
        }
        proof {
            assert(pairs_from(n as int, row as int, n as int) == pairs_from(
                n as int,
                row + 1,
                row + 2,
            ));
        }
        row = row + 1;
    }
    proof {
        assert(pairs_from(n as int, row as int, row + 1) =~= Seq::<(usize, usize)>::empty());
        assert(pairs@ =~= pairs@ + pairs_from(n as int, row as int, row + 1));
    }
    pairs
}

/// Relies on rayon's indexed parallel iterator: `par_iter` over a vector
/// followed by `map` and `collect` yields exactly the sequential map,
/// element `k` of the result coming from element `k` of the input. Each
/// evaluation only calls the verified `compare`, whose contract gives
/// the score of the pair; the evaluations share nothing mutable.
#[verifier::external_body]
fn parallel_pair_scores<V: Sync, C: Comparator<V> + Sync>(
    records: &Vec<V>,
    pairs: &Vec<(usize, usize)>,
    comparator: &C,
) -> (scores: Vec<u32>)
    requires
        forall|k: int|
            0 <= k < pairs@.len() ==> (#[trigger] pairs@[k]).0 < records@.len() && pairs@[k].1
                < records@.len(),
    ensures
        scores@.len() == pairs@.len(),
        forall|k: int|
            0 <= k < pairs@.len() ==> scores@[k] == comparator.dissim(
                records@[(#[trigger] pairs@[k]).0 as int],
                records@[pairs@[k].1 as int],
            ),
{
    pairs.par_iter().map(|&(i, j)| comparator.compare(&records[i], &records[j])).collect()
}

/// Builds the condensed dissimilarity matrix: the comparator's score for
/// every unordered record pair, in row-major order, evaluated in
/// parallel. Empty when there are fewer than two records, without ever
/// consulting the comparator.
pub fn similarity_matrix<V: Sync, C: Comparator<V> + Sync>(records: &Vec<V>, comparator: &C) -> (condensed:
    Vec<u32>)
    ensures
        condensed@ == condensed_of(records@, *comparator),
{
    let pairs = enumerate_pairs(records.len());
    proof {
        lemma_pairs_bounds(records@.len() as int, 0, 1);
    }
    let scores = parallel_pair_scores(records, &pairs, comparator);
    proof {
        assert(scores@ =~= condensed_of(records@, *comparator));
    }
    scores
}

/// The merge steps that the engine builds for a record sequence: none
/// for fewer than two records, else the complete-linkage merge tree of
/// the condensed matrix.
pub open spec fn merge_steps_of<V, C: Comparator<V>>(records: Seq<V>, comparator: C) -> Seq<
    crate::engine::MergeStep,
> {
    if records.len() < 2 {
        Seq::empty()
    } else {
        merge_steps_from(
            linkage_merges(condensed_of(records, comparator), records.len() as usize),
        )
    }
}

/// What `group_similar` returns: the record's merge tree cut at the
/// threshold, as the member indices of each group.
pub open spec fn group_similar_spec<V, C: Comparator<V>>(
    records: Seq<V>,
    comparator: C,
    threshold: u32,
) -> Seq<Seq<usize>> {
    grouping_spec(merge_steps_of(records, comparator), records.len() as usize, threshold)
}

/// Groups records based on a particular configuration.
///
/// Builds the pairwise dissimilarity matrix with the configuration's
/// comparator, hands it to the complete-linkage engine, and cuts the
/// resulting merge tree at the configuration's threshold. Each group is
/// returned as indices into `records`: a representative and the records
/// matched to it. Every record stands in exactly one group; no records
/// yield no groups, and a single record yields one group of itself with
/// no matches.
pub fn group_similar<V: Sync, C: Comparator<V> + Sync>(records: &Vec<V>, config: &Config<C>) -> (groups:
    Vec<crate::cut::Group>)
    requires
        2 * records@.len() <= usize::MAX,
    ensures
        groups_members(groups@) == group_similar_spec(
            records@,
            config.compare,
            config.threshold.raw(),
        ),
        steps_wf(merge_steps_of(records@, config.compare), records@.len() as usize),
        children_unique(merge_steps_of(records@, config.compare)),
        merge_steps_of(records@, config.compare).len() <= records@.len(),
        groups_members(groups@).flatten().no_duplicates(),
        forall|x: usize|
            #[trigger] groups_members(groups@).flatten().contains(x) <==> x < records@.len(),
        groups_members(groups@).flatten().len() == records@.len(),
        records@.len() == 0 ==> groups@.len() == 0,
        records@.len() == 1 ==> groups@.len() == 1 && groups@[0].representative == 0
            && groups@[0].matches@.len() == 0,
{
    let n = records.len();
    let steps: Vec<crate::engine::MergeStep> = if n >= 2 {
        let condensed = similarity_matrix(records, &config.compare);
        proof {
            lemma_pairs_len(n as int, 0, 1);
            assert(2 * (n - 1) + (n - 1) * (n - 2) == n * (n - 1)) by (nonlinear_arith);
            assert(condensed@.len() == n * (n - 1) / 2);
        }
        crate::engine::complete_linkage(&condensed, n)
    } else {
        Vec::new()
    };
    let groups = threshold_cut(n, &steps, &config.threshold);
    proof {
        let ms = merge_steps_of(records@, config.compare);
        let t = config.threshold.raw();
        assert(steps@ == ms);
        if n < 2 {
            assert(ms.len() == 0);
            assert(steps_wf(ms, n));
            assert(children_unique(ms));
        }
        crate::laws::lemma_partition(ms, n, t);
        if n == 0 {
            crate::laws::lemma_grouping_empty(ms, t);
            assert(groups_members(groups@).len() == 0);
        }
        if n == 1 {
            assert(ms =~= Seq::<crate::engine::MergeStep>::empty());
            crate::laws::lemma_grouping_singleton(t);
            assert(groups_members(groups@) =~= seq![seq![0usize]]);
            assert(groups@.len() == 1);
            assert(groups_members(groups@)[0] == group_members(groups@[0]));
            assert(group_members(groups@[0])[0] == groups@[0].representative);
            assert(seq![0usize][0] == 0usize);
            assert(group_members(groups@[0]).len() == 1 + groups@[0].matches@.len());
        }
    }
    groups
}

} // verus!
