//! Laws of the grouping.
//!
//! The central one is the partition law: whatever the merge steps and
//! the threshold, every record ends in exactly one group — either as a
//! representative or as exactly one representative's match.

use vstd::prelude::*;

verus! {

use vstd::seq_lib::lemma_flatten_concat;
use vstd::seq_lib::lemma_no_dup_in_concat;
use vstd::seq_lib::lemma_seq_concat_contains_all_elements;
use crate::cut::cut_spec;
use crate::cut::extract_spec;
use crate::cut::grouping_spec;
use crate::cut::singletons_spec;
use crate::engine::MergeStep;

/// The identifiers of `n` records.
pub open spec fn record_ids(n: usize) -> Set<usize> {
    Set::new(|x: usize| x < n)
}

/// There are `n` record identifiers.
proof fn lemma_record_ids(n: usize)
    ensures
        record_ids(n).finite(),
        record_ids(n).len() == n,
    decreases n,
{
    if n == 0 {
        assert(record_ids(0) =~= Set::empty());
    } else {
        lemma_record_ids((n - 1) as usize);
        assert(record_ids(n) =~= record_ids((n - 1) as usize).insert((n - 1) as usize));
    }
}

/// An element is in a concatenation exactly when it is in one part.
pub(crate) proof fn lemma_concat_contains<A>(a: Seq<A>, b: Seq<A>)
    ensures
        forall|x: A| #[trigger] (a + b).contains(x) <==> a.contains(x) || b.contains(x),
{
    assert forall|x: A| #[trigger] (a + b).contains(x) <==> a.contains(x) || b.contains(x) by {
        lemma_seq_concat_contains_all_elements(a, b, x);
    }
}

/// What one extraction does to the node table: it only grows the
/// consumed set, harvests distinct records that were not yet consumed,
/// and consumes a record if and only if it was consumed before or is
/// harvested now.
pub(crate) proof fn lemma_extract(steps: Seq<MergeStep>, n: usize, c: Set<usize>, id: usize)
    ensures
        ({
            let r = extract_spec(steps, n, c, id);
            &&& forall|x: usize| c.contains(x) ==> #[trigger] r.0.contains(x)
            &&& r.1.no_duplicates()
            &&& forall|x: usize| #[trigger] r.1.contains(x) ==> x < n && !c.contains(x)
            &&& forall|x: usize|
                x < n ==> (#[trigger] r.0.contains(x) <==> c.contains(x) || r.1.contains(x))
        }),
    decreases id,
{
    let r = extract_spec(steps, n, c, id);
    if c.contains(id) {
        assert(forall|x: usize| !r.1.contains(x));
    } else if id < n {
        assert(r.1 == seq![id]);
        assert(r.1[0] == id);
        assert(forall|x: usize| #[trigger] r.1.contains(x) ==> x == id);
    } else if id - n < steps.len() && steps[id - n].cluster1 < id && steps[id - n].cluster2 < id {
        let c0 = c.insert(id);
        let left = steps[id - n].cluster1;
        let right = steps[id - n].cluster2;
        lemma_extract(steps, n, c0, left);
        let r1 = extract_spec(steps, n, c0, left);
        lemma_extract(steps, n, r1.0, right);
        let r2 = extract_spec(steps, n, r1.0, right);
        lemma_concat_contains(r1.1, r2.1);
        assert forall|i: int, j: int| 0 <= i < r1.1.len() && 0 <= j < r2.1.len() implies r1.1[i]
            != r2.1[j] by {
            assert(r1.1.contains(r1.1[i]));
            assert(r2.1.contains(r2.1[j]));
            assert(r1.0.contains(r1.1[i]));
        }
        lemma_no_dup_in_concat(r1.1, r2.1);
        assert(r.0 == r2.0 && r.1 == r1.1 + r2.1);
        assert forall|x: usize| x < n implies (#[trigger] r.0.contains(x) <==> c.contains(x)
            || r.1.contains(x)) by {
            assert(c0.contains(x) <==> c.contains(x));
        }
    } else {
        assert(forall|x: usize| !r.1.contains(x));
    }
}

/// What the cut up from step `k` guarantees: the harvested records of
/// its groups are distinct, below `n`, and exactly the consumed records.
pub(crate) proof fn lemma_cut(steps: Seq<MergeStep>, n: usize, threshold: u32, k: int)
    ensures
        ({
            let r = cut_spec(steps, n, threshold, k);
            &&& r.1.flatten().no_duplicates()
            &&& forall|x: usize| #[trigger] r.1.flatten().contains(x) ==> x < n
            &&& forall|x: usize|
                x < n ==> (#[trigger] r.0.contains(x) <==> r.1.flatten().contains(x))
        }),
    decreases steps.len() - k,
{
    let r = cut_spec(steps, n, threshold, k);
    if k < 0 || k >= steps.len() {
        assert(r.1.flatten() =~= Seq::<usize>::empty());
    } else {
        lemma_cut(steps, n, threshold, k + 1);
        let prev = cut_spec(steps, n, threshold, k + 1);
        if steps[k].dissimilarity <= threshold {
            lemma_extract(steps, n, prev.0, (n + k) as usize);
            let e = extract_spec(steps, n, prev.0, (n + k) as usize);
            if e.1.len() > 0 {
                prev.1.lemma_flatten_push(e.1);
                assert(r.1.flatten() == prev.1.flatten() + e.1);
                lemma_concat_contains(prev.1.flatten(), e.1);
                assert forall|i: int, j: int|
                    0 <= i < prev.1.flatten().len() && 0 <= j < e.1.len() implies prev.1.flatten()[i]
                    != e.1[j] by {
                    assert(prev.1.flatten().contains(prev.1.flatten()[i]));
                    assert(e.1.contains(e.1[j]));
                    assert(prev.0.contains(prev.1.flatten()[i]));
                }
                lemma_no_dup_in_concat(prev.1.flatten(), e.1);
            } else {
                assert(forall|x: usize| !e.1.contains(x));
            }
        }
    }
}

/// What the leftover sweep from identifier `i` on yields: one singleton
/// group per record at least `i` that the cut left unconsumed.
pub(crate) proof fn lemma_singletons(c: Set<usize>, n: usize, i: int)
    requires
        0 <= i,
    ensures
        ({
            let s = singletons_spec(c, n, i);
            &&& s.flatten().no_duplicates()
            &&& forall|x: usize|
                #[trigger] s.flatten().contains(x) <==> i <= x < n && !c.contains(x)
        }),
    decreases n - i,
{
    let s = singletons_spec(c, n, i);
    if i < 0 || i >= n {
        assert(s.flatten() =~= Seq::<usize>::empty());
    } else {
        lemma_singletons(c, n, i + 1);
        let rest = singletons_spec(c, n, i + 1);
        if c.contains(i as usize) {
            assert forall|x: usize| #[trigger] s.flatten().contains(x) <==> i <= x < n
                && !c.contains(x) by {
                if i <= x < n && !c.contains(x) {
                    assert(x != i as usize);
                    assert(i + 1 <= x);
                }
            }
        } else {
            assert(s == seq![seq![i as usize]] + rest);
            assert(s.drop_first() =~= rest);
            assert(s.flatten() == seq![i as usize] + rest.flatten());
            lemma_concat_contains(seq![i as usize], rest.flatten());
            assert(seq![i as usize][0] == i as usize);
            assert(forall|x: usize| #[trigger] seq![i as usize].contains(x) ==> x == i as usize);
            assert forall|p: int, q: int|
                #![trigger seq![i as usize][p], rest.flatten()[q]]
                0 <= p < seq![i as usize].len() && 0 <= q < rest.flatten().len() implies seq![
                i as usize,
            ][p] != rest.flatten()[q] by {
                assert(rest.flatten().contains(rest.flatten()[q]));
            }
            lemma_no_dup_in_concat(seq![i as usize], rest.flatten());
            assert forall|x: usize| #[trigger] s.flatten().contains(x) <==> i <= x < n
                && !c.contains(x) by {
                if s.flatten().contains(x) {
                    if seq![i as usize].contains(x) {
                        assert(x == i as usize);
                    }
                } else {
                    if i <= x < n && !c.contains(x) {
                        if x == i as usize {
                            assert(seq![i as usize].contains(x));
                        } else {
                            assert(i + 1 <= x);
                        }
                    }
                }
            }
        }
    }
}

/// Partition law: cut at any threshold, the merge tree of `n` records
/// yields groups whose members are distinct, are exactly the record
/// identifiers below `n`, and number exactly `n` in total — every record
/// stands in exactly one group, either as its representative or in
/// exactly one representative's matches.
pub proof fn lemma_partition(steps: Seq<MergeStep>, n: usize, threshold: u32)
    ensures
        grouping_spec(steps, n, threshold).flatten().no_duplicates(),
        forall|x: usize| #[trigger] grouping_spec(steps, n, threshold).flatten().contains(x) <==> x < n,
        grouping_spec(steps, n, threshold).flatten().len() == n,
{
    let cut = cut_spec(steps, n, threshold, 0);
    let sing = singletons_spec(cut.0, n, 0);
    let gs = grouping_spec(steps, n, threshold);
    lemma_cut(steps, n, threshold, 0);
    lemma_singletons(cut.0, n, 0);
    lemma_flatten_concat(cut.1, sing);
    assert(gs.flatten() == cut.1.flatten() + sing.flatten());
    lemma_concat_contains(cut.1.flatten(), sing.flatten());
    assert forall|i: int, j: int|
        0 <= i < cut.1.flatten().len() && 0 <= j < sing.flatten().len() implies cut.1.flatten()[i]
        != sing.flatten()[j] by {
        assert(cut.1.flatten().contains(cut.1.flatten()[i]));
        assert(sing.flatten().contains(sing.flatten()[j]));
    }
    lemma_no_dup_in_concat(cut.1.flatten(), sing.flatten());
    assert forall|x: usize| #[trigger] gs.flatten().contains(x) <==> x < n by {
        if x < n {
            if !cut.0.contains(x) {
                assert(sing.flatten().contains(x));
            }
        }
    }
    assert(gs.flatten().to_set() =~= record_ids(n));
    gs.flatten().unique_seq_to_set();
    lemma_record_ids(n);
}

/// Empty-input law: with no records, any cut of any merge steps is the
/// empty grouping.
pub proof fn lemma_grouping_empty(steps: Seq<MergeStep>, threshold: u32)
    ensures
        grouping_spec(steps, 0, threshold).flatten() =~= Seq::<usize>::empty(),
        steps.len() == 0 ==> grouping_spec(steps, 0, threshold) =~= Seq::<Seq<usize>>::empty(),
{
    lemma_partition(steps, 0, threshold);
    let gs = grouping_spec(steps, 0, threshold);
    if gs.flatten().len() > 0 {
        assert(gs.flatten().contains(gs.flatten()[0]));
    }
    if steps.len() == 0 {
        assert(cut_spec(steps, 0, threshold, 0).1 =~= Seq::<Seq<usize>>::empty());
        assert(singletons_spec(cut_spec(steps, 0, threshold, 0).0, 0, 0) =~= Seq::<
            Seq<usize>,
        >::empty());
        assert(gs =~= Seq::<Seq<usize>>::empty() + Seq::<Seq<usize>>::empty());
        assert(gs.len() == 0);
    }
}

/// Singleton law: one record with no merge steps yields exactly one
/// group, the record itself with no matches.
pub proof fn lemma_grouping_singleton(threshold: u32)
    ensures
        grouping_spec(Seq::<MergeStep>::empty(), 1, threshold) =~= seq![seq![0usize]],
{
    let steps = Seq::<MergeStep>::empty();
    let cut = cut_spec(steps, 1, threshold, 0);
    assert(cut.1 =~= Seq::<Seq<usize>>::empty());
    assert(!cut.0.contains(0usize));
    assert(singletons_spec(cut.0, 1, 1) =~= Seq::<Seq<usize>>::empty());
    assert(singletons_spec(cut.0, 1, 0) =~= seq![seq![0usize]] + Seq::<Seq<usize>>::empty());
    assert(grouping_spec(steps, 1, threshold) =~= Seq::<Seq<usize>>::empty() + (seq![
        seq![0usize],
    ] + Seq::<Seq<usize>>::empty()));
}

/// Threshold-boundary law: the boundary is inclusive. A step whose
/// dissimilarity equals the threshold exactly is treated as qualifying:
/// the cut extracts its whole subtree at that step, precisely as it
/// does for any step strictly within the threshold.
pub proof fn lemma_threshold_boundary(steps: Seq<MergeStep>, n: usize, threshold: u32, k: int)
    requires
        0 <= k < steps.len(),
        steps[k].dissimilarity == threshold,
    ensures
        cut_spec(steps, n, threshold, k) == ({
            let prev = cut_spec(steps, n, threshold, k + 1);
            let e = extract_spec(steps, n, prev.0, (n + k) as usize);
            if e.1.len() > 0 {
                (e.0, prev.1.push(e.1))
            } else {
                (e.0, prev.1)
            }
        }),
{
}

} // verus!
