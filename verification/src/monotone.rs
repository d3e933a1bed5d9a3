//! The monotonicity law.
//!
//! Raising the threshold never splits a group: two records grouped
//! together at one threshold are still grouped together at any higher
//! threshold. The proof rests on the merge steps forming a forest —
//! each identifier is merged at most once — so the leaf sets of any two
//! subtrees are either nested or disjoint, and a qualifying step always
//! gathers its whole subtree into a single group.

use vstd::prelude::*;

verus! {

use crate::cut::cut_spec;
use crate::cut::extract_spec;
use crate::cut::grouping_spec;
use crate::cut::singletons_spec;
use crate::engine::children_unique;
use crate::engine::steps_wf;
use crate::engine::MergeStep;
use crate::laws::lemma_concat_contains;
use crate::laws::lemma_cut;
use crate::laws::lemma_extract;
use crate::laws::lemma_partition;

/// The node identifiers of the subtree rooted at `id`: the node itself
/// and, for a merge step, both children's subtrees.
pub open spec fn nodes_under(steps: Seq<MergeStep>, n: usize, id: usize) -> Set<usize>
    decreases id,
{
    if id < n {
        Set::empty().insert(id)
    } else if id - n < steps.len() && steps[id - n].cluster1 < id && steps[id - n].cluster2 < id {
        nodes_under(steps, n, steps[id - n].cluster1).union(
            nodes_under(steps, n, steps[id - n].cluster2),
        ).insert(id)
    } else {
        Set::empty().insert(id)
    }
}

/// The records under `id`: the leaves of its subtree.
pub open spec fn leaves_under(steps: Seq<MergeStep>, n: usize, id: usize) -> Set<usize>
    decreases id,
{
    if id < n {
        Set::empty().insert(id)
    } else if id - n < steps.len() && steps[id - n].cluster1 < id && steps[id - n].cluster2 < id {
        leaves_under(steps, n, steps[id - n].cluster1).union(
            leaves_under(steps, n, steps[id - n].cluster2),
        )
    } else {
        Set::empty()
    }
}

/// A subtree contains its own root.
proof fn lemma_under_self(steps: Seq<MergeStep>, n: usize, id: usize)
    ensures
        nodes_under(steps, n, id).contains(id),
{
    if id < n {
    } else if id - n < steps.len() && steps[id - n].cluster1 < id && steps[id - n].cluster2 < id {
    } else {
    }
}

/// Every node of a subtree lies at or below its root; every leaf is a
/// record and a node of the subtree.
proof fn lemma_under_bounds(steps: Seq<MergeStep>, n: usize, id: usize)
    ensures
        forall|x: usize| #[trigger] nodes_under(steps, n, id).contains(x) ==> x <= id,
        forall|x: usize|
            #[trigger] leaves_under(steps, n, id).contains(x) ==> x < n && nodes_under(
                steps,
                n,
                id,
            ).contains(x),
    decreases id,
{
    if id < n {
    } else if id - n < steps.len() && steps[id - n].cluster1 < id && steps[id - n].cluster2 < id {
        let left = steps[id - n].cluster1;
        let right = steps[id - n].cluster2;
        lemma_under_bounds(steps, n, left);
        lemma_under_bounds(steps, n, right);
        assert forall|x: usize| #[trigger] nodes_under(steps, n, id).contains(x) implies x
            <= id by {
            if x != id {
                if nodes_under(steps, n, left).contains(x) {
                } else {
                    assert(nodes_under(steps, n, right).contains(x));
                }
            }
        }
        assert forall|x: usize| #[trigger] leaves_under(steps, n, id).contains(x) implies x < n
            && nodes_under(steps, n, id).contains(x) by {
            if leaves_under(steps, n, left).contains(x) {
                assert(nodes_under(steps, n, left).contains(x));
            } else {
                assert(leaves_under(steps, n, right).contains(x));
                assert(nodes_under(steps, n, right).contains(x));
            }
        }
    } else {
    }
}

/// A subtree of a subtree: the nodes and leaves below an inner node are
/// nodes and leaves of the whole subtree.
proof fn lemma_under_nested(steps: Seq<MergeStep>, n: usize, id: usize, inner: usize)
    requires
        nodes_under(steps, n, id).contains(inner),
    ensures
        forall|x: usize|
            #[trigger] nodes_under(steps, n, inner).contains(x) ==> nodes_under(
                steps,
                n,
                id,
            ).contains(x),
        forall|x: usize|
            #[trigger] leaves_under(steps, n, inner).contains(x) ==> leaves_under(
                steps,
                n,
                id,
            ).contains(x),
    decreases id,
{
    if inner == id {
    } else if id < n {
    } else if id - n < steps.len() && steps[id - n].cluster1 < id && steps[id - n].cluster2 < id {
        if nodes_under(steps, n, steps[id - n].cluster1).contains(inner) {
            lemma_under_nested(steps, n, steps[id - n].cluster1, inner);
        } else {
            lemma_under_nested(steps, n, steps[id - n].cluster2, inner);
        }
    } else {
    }
}

/// Every node of a subtree except the root is a child of some step of
/// the subtree.
proof fn lemma_under_parent(steps: Seq<MergeStep>, n: usize, id: usize, x: usize) -> (m: int)
    requires
        nodes_under(steps, n, id).contains(x),
        x != id,
    ensures
        0 <= m < steps.len(),
        nodes_under(steps, n, id).contains((n + m) as usize),
        n + m <= id,
        steps[m].cluster1 == x || steps[m].cluster2 == x,
    decreases id,
{
    lemma_under_bounds(steps, n, id);
    if id < n {
        assert(false);
        0
    } else if id - n < steps.len() && steps[id - n].cluster1 < id && steps[id - n].cluster2 < id {
        let left = steps[id - n].cluster1;
        let right = steps[id - n].cluster2;
        if x == left || x == right {
            id - n
        } else if nodes_under(steps, n, left).contains(x) {
            let m = lemma_under_parent(steps, n, left, x);
            lemma_under_nested(steps, n, id, left);
            m
        } else {
            let m = lemma_under_parent(steps, n, right, x);
            lemma_under_nested(steps, n, id, right);
            m
        }
    } else {
        assert(false);
        0
    }
}

/// In a forest, two subtrees that contain neither one's root share no
/// leaves.
proof fn lemma_disjoint_subtrees(steps: Seq<MergeStep>, n: usize, a: usize, b: usize)
    requires
        children_unique(steps),
        !nodes_under(steps, n, a).contains(b),
        !nodes_under(steps, n, b).contains(a),
    ensures
        forall|x: usize|
            #[trigger] leaves_under(steps, n, b).contains(x) ==> !leaves_under(
                steps,
                n,
                a,
            ).contains(x),
    decreases b,
{
    if b < n {
        assert forall|x: usize| #[trigger] leaves_under(steps, n, b).contains(x) implies
            !leaves_under(steps, n, a).contains(x) by {
            assert(x == b);
            lemma_under_bounds(steps, n, a);
        }
    } else if b - n < steps.len() && steps[b - n].cluster1 < b && steps[b - n].cluster2 < b {
        let left = steps[b - n].cluster1;
        let right = steps[b - n].cluster2;
        lemma_under_self(steps, n, left);
        lemma_under_self(steps, n, right);
        assert(nodes_under(steps, n, b).contains(left));
        assert(nodes_under(steps, n, b).contains(right));
        assert forall|child: usize| child == left || child == right implies !nodes_under(
            steps,
            n,
            a,
        ).contains(child) && !nodes_under(steps, n, child).contains(a) by {
            if nodes_under(steps, n, a).contains(child) {
                if child == a {
                    assert(nodes_under(steps, n, b).contains(a));
                    assert(false);
                } else {
                    let m = lemma_under_parent(steps, n, a, child);
                    assert(steps[b - n].cluster1 == child || steps[b - n].cluster2 == child);
                    if m != b - n {
                        assert(false);
                    } else {
                        assert(nodes_under(steps, n, a).contains((n + (b - n)) as usize));
                        assert(nodes_under(steps, n, a).contains(b));
                        assert(false);
                    }
                }
            }
            if nodes_under(steps, n, child).contains(a) {
                lemma_under_nested(steps, n, b, child);
                assert(nodes_under(steps, n, b).contains(a));
                assert(false);
            }
        }
        lemma_disjoint_subtrees(steps, n, a, left);
        lemma_disjoint_subtrees(steps, n, a, right);
        assert forall|x: usize| #[trigger] leaves_under(steps, n, b).contains(x) implies
            !leaves_under(steps, n, a).contains(x) by {
            if leaves_under(steps, n, left).contains(x) {
            } else {
                assert(leaves_under(steps, n, right).contains(x));
            }
        }
    } else {
    }
}

/// Nesting: when the leaf sets of an earlier and a later subtree meet,
/// the earlier subtree lies wholly inside the later one.
proof fn lemma_nested_subtrees(steps: Seq<MergeStep>, n: usize, a: usize, b: usize, x: usize)
    requires
        children_unique(steps),
        a < b,
        leaves_under(steps, n, a).contains(x),
        leaves_under(steps, n, b).contains(x),
    ensures
        forall|y: usize|
            #[trigger] leaves_under(steps, n, a).contains(y) ==> leaves_under(
                steps,
                n,
                b,
            ).contains(y),
{
    if !nodes_under(steps, n, b).contains(a) {
        if nodes_under(steps, n, a).contains(b) {
            lemma_under_bounds(steps, n, a);
            assert(b <= a);
            assert(false);
        } else {
            lemma_disjoint_subtrees(steps, n, a, b);
            assert(false);
        }
    }
    lemma_under_nested(steps, n, b, a);
}

/// A consumed identifier above the one being extracted has no bearing
/// on the walk: it is carried along unchanged.
proof fn lemma_extract_frame(steps: Seq<MergeStep>, n: usize, c: Set<usize>, id: usize, y: usize)
    requires
        id < y,
    ensures
        extract_spec(steps, n, c.insert(y), id).0 =~= extract_spec(steps, n, c, id).0.insert(y),
        extract_spec(steps, n, c.insert(y), id).1 == extract_spec(steps, n, c, id).1,
    decreases id,
{
    if c.contains(id) {
    } else if id < n {
        assert(c.insert(y).insert(id) =~= c.insert(id).insert(y));
    } else if id - n < steps.len() && steps[id - n].cluster1 < id && steps[id - n].cluster2 < id {
        let left = steps[id - n].cluster1;
        let right = steps[id - n].cluster2;
        assert(c.insert(y).insert(id) =~= c.insert(id).insert(y));
        lemma_extract_frame(steps, n, c.insert(id), left, y);
        let s1 = extract_spec(steps, n, c.insert(id), left);
        lemma_extract_frame(steps, n, s1.0, right, y);
    } else {
        assert(c.insert(y).insert(id) =~= c.insert(id).insert(y));
    }
}

/// A consumed set that holds, with every merged identifier, all the
/// records of its subtree. The cut only ever builds such sets, which is
/// why a consumed inner node never hides unconsumed records.
pub open spec fn subtree_closed(steps: Seq<MergeStep>, n: usize, c: Set<usize>) -> bool {
    forall|id: usize, x: usize|
        #[trigger] c.contains(id) && #[trigger] leaves_under(steps, n, id).contains(x)
            ==> c.contains(x)
}

/// Extraction from a subtree-closed set consumes exactly the records of
/// the extracted subtree (beyond those consumed before), and keeps the
/// set subtree-closed.
proof fn lemma_extract_closed(steps: Seq<MergeStep>, n: usize, c: Set<usize>, id: usize)
    requires
        subtree_closed(steps, n, c),
    ensures
        ({
            let r = extract_spec(steps, n, c, id);
            &&& subtree_closed(steps, n, r.0)
            &&& forall|x: usize| #[trigger] leaves_under(steps, n, id).contains(x) ==> r.0.contains(x)
            &&& forall|x: usize|
                x < n ==> (#[trigger] r.0.contains(x) <==> c.contains(x) || leaves_under(
                    steps,
                    n,
                    id,
                ).contains(x))
        }),
    decreases id,
{
    let r = extract_spec(steps, n, c, id);
    lemma_under_bounds(steps, n, id);
    if c.contains(id) {
        assert forall|x: usize| #[trigger] leaves_under(steps, n, id).contains(x) implies
            r.0.contains(x) by {
            assert(c.contains(id) && leaves_under(steps, n, id).contains(x));
        }
    } else if id < n {
        assert forall|u: usize, x: usize|
            #[trigger] r.0.contains(u) && #[trigger] leaves_under(steps, n, u).contains(x) implies
            r.0.contains(x) by {
            if u == id {
                assert(x == id);
            }
        }
    } else if id - n < steps.len() && steps[id - n].cluster1 < id && steps[id - n].cluster2 < id {
        let left = steps[id - n].cluster1;
        let right = steps[id - n].cluster2;
        lemma_extract_frame(steps, n, c, left, id);
        let s1 = extract_spec(steps, n, c, left);
        lemma_extract_closed(steps, n, c, left);
        let r1 = extract_spec(steps, n, c.insert(id), left);
        assert(r1.0 =~= s1.0.insert(id));
        lemma_extract_frame(steps, n, s1.0, right, id);
        let s2 = extract_spec(steps, n, s1.0, right);
        lemma_extract_closed(steps, n, s1.0, right);
        let r2 = extract_spec(steps, n, r1.0, right);
        assert(extract_spec(steps, n, s1.0.insert(id), right).0 =~= s2.0.insert(id));
        assert(r2.0 =~= s2.0.insert(id));
        lemma_extract(steps, n, c, left);
        lemma_extract(steps, n, s1.0, right);
        assert forall|x: usize| #[trigger] leaves_under(steps, n, id).contains(x) implies
            r.0.contains(x) by {
            if leaves_under(steps, n, left).contains(x) {
                assert(s1.0.contains(x));
                assert(s2.0.contains(x));
            } else {
                assert(leaves_under(steps, n, right).contains(x));
                assert(s2.0.contains(x));
            }
        }
        assert forall|u: usize, x: usize|
            #[trigger] r.0.contains(u) && #[trigger] leaves_under(steps, n, u).contains(x) implies
            r.0.contains(x) by {
            if u == id {
                assert(leaves_under(steps, n, id).contains(x));
                assert(r.0.contains(x));
            } else {
                assert(s2.0.contains(u));
                assert(s2.0.contains(x));
            }
        }
        assert forall|x: usize| x < n implies (#[trigger] r.0.contains(x) <==> c.contains(x)
            || leaves_under(steps, n, id).contains(x)) by {
            assert(s2.0.contains(x) <==> s1.0.contains(x) || leaves_under(
                steps,
                n,
                right,
            ).contains(x));
            assert(s1.0.contains(x) <==> c.contains(x) || leaves_under(steps, n, left).contains(x));
        }
    } else {
        assert(leaves_under(steps, n, id) =~= Set::<usize>::empty());
        assert forall|u: usize, x: usize|
            #[trigger] r.0.contains(u) && #[trigger] leaves_under(steps, n, u).contains(x) implies
            r.0.contains(x) by {
            if u == id {
                assert(false);
            }
        }
    }
}

/// The cut's consumed set is always subtree-closed, and holds every
/// record under every qualifying step already processed.
proof fn lemma_cut_closed(steps: Seq<MergeStep>, n: usize, threshold: u32, k: int)
    requires
        0 <= k,
    ensures
        subtree_closed(steps, n, cut_spec(steps, n, threshold, k).0),
        forall|m: int, x: usize|
            0 <= m < steps.len() && k <= m && steps[m].dissimilarity <= threshold
                && #[trigger] leaves_under(steps, n, (n + m) as usize).contains(x) ==> cut_spec(
                steps,
                n,
                threshold,
                k,
            ).0.contains(x),
    decreases steps.len() - k,
{
    let r = cut_spec(steps, n, threshold, k);
    if k < 0 || k >= steps.len() {
    } else {
        lemma_cut_closed(steps, n, threshold, k + 1);
        let prev = cut_spec(steps, n, threshold, k + 1);
        if steps[k].dissimilarity <= threshold {
            lemma_extract_closed(steps, n, prev.0, (n + k) as usize);
            lemma_extract(steps, n, prev.0, (n + k) as usize);
            assert forall|m: int, x: usize|
                0 <= m < steps.len() && k <= m && steps[m].dissimilarity <= threshold
                    && #[trigger] leaves_under(steps, n, (n + m) as usize).contains(x) implies
                r.0.contains(x) by {
                if m == k {
                } else {
                    assert(prev.0.contains(x));
                }
            }
        }
    }
}

/// A group's members all come from the subtree of step `u`, and `u`
/// qualifies under the threshold.
pub open spec fn group_from_step(
    steps: Seq<MergeStep>,
    n: usize,
    threshold: u32,
    group: Seq<usize>,
    u: int,
) -> bool {
    &&& 0 <= u < steps.len()
    &&& steps[u].dissimilarity <= threshold
    &&& forall|x: usize|
        #[trigger] group.contains(x) ==> leaves_under(steps, n, (n + u) as usize).contains(x)
}

/// The group is the harvest of some qualifying step at index at least
/// `k`.
pub open spec fn gathered_from(
    steps: Seq<MergeStep>,
    n: usize,
    threshold: u32,
    k: int,
    group: Seq<usize>,
) -> bool {
    exists|u: int| k <= u && #[trigger] group_from_step(steps, n, threshold, group, u)
}

/// Each group of the sequence comes wholly from the subtree of some
/// qualifying step at index at least `k`.
pub open spec fn groups_from_steps(
    steps: Seq<MergeStep>,
    n: usize,
    threshold: u32,
    k: int,
    groups: Seq<Seq<usize>>,
) -> bool {
    forall|i: int|
        0 <= i < groups.len() ==> #[trigger] gathered_from(steps, n, threshold, k, groups[i])
}

/// Every group the cut materializes is the harvest of one qualifying
/// step, and lies wholly within that step's subtree.
proof fn lemma_cut_groups_from_steps(steps: Seq<MergeStep>, n: usize, threshold: u32, k: int)
    requires
        0 <= k,
    ensures
        groups_from_steps(steps, n, threshold, k, cut_spec(steps, n, threshold, k).1),
    decreases steps.len() - k,
{
    let r = cut_spec(steps, n, threshold, k);
    if k >= steps.len() {
        assert(r.1.len() == 0);
    } else {
        lemma_cut_groups_from_steps(steps, n, threshold, k + 1);
        let prev = cut_spec(steps, n, threshold, k + 1);
        if steps[k].dissimilarity <= threshold {
            lemma_cut_closed(steps, n, threshold, k + 1);
            lemma_extract_closed(steps, n, prev.0, (n + k) as usize);
            lemma_extract(steps, n, prev.0, (n + k) as usize);
            let e = extract_spec(steps, n, prev.0, (n + k) as usize);
            assert forall|i: int| 0 <= i < r.1.len() implies #[trigger] gathered_from(
                steps,
                n,
                threshold,
                k,
                r.1[i],
            ) by {
                if e.1.len() > 0 && i == prev.1.len() {
                    assert(r.1[i] == e.1);
                    assert forall|x: usize| #[trigger] e.1.contains(x) implies leaves_under(
                        steps,
                        n,
                        (n + k) as usize,
                    ).contains(x) by {
                        assert(x < n && !prev.0.contains(x));
                        assert(e.0.contains(x));
                    }
                    assert(group_from_step(steps, n, threshold, r.1[i], k));
                } else {
                    assert(r.1[i] == prev.1[i]);
                    assert(gathered_from(steps, n, threshold, k + 1, prev.1[i]));
                    let u = choose|u: int|
                        k + 1 <= u && #[trigger] group_from_step(steps, n, threshold, prev.1[i], u);
                    assert(group_from_step(steps, n, threshold, r.1[i], u));
                }
            }
        } else {
            assert forall|i: int| 0 <= i < r.1.len() implies #[trigger] gathered_from(
                steps,
                n,
                threshold,
                k,
                r.1[i],
            ) by {
                assert(r.1[i] == prev.1[i]);
                assert(gathered_from(steps, n, threshold, k + 1, prev.1[i]));
                let u = choose|u: int|
                    k + 1 <= u && #[trigger] group_from_step(steps, n, threshold, prev.1[i], u);
                assert(group_from_step(steps, n, threshold, r.1[i], u));
            }
        }
    }
}

/// Two records stand together in some group of the sequence.
pub open spec fn in_same_group(groups: Seq<Seq<usize>>, x: usize, y: usize) -> bool {
    exists|i: int| 0 <= i < groups.len() && (#[trigger] groups[i]).contains(x) && groups[i].contains(
        y,
    )
}

/// A member of a flattening belongs to one of the parts.
proof fn lemma_flatten_member<A>(gs: Seq<Seq<A>>, x: A) -> (i: int)
    requires
        gs.flatten().contains(x),
    ensures
        0 <= i < gs.len(),
        gs[i].contains(x),
    decreases gs.len(),
{
    if gs.len() == 0 {
        assert(false);
        0
    } else {
        lemma_concat_contains(gs.first(), gs.drop_first().flatten());
        if gs.first().contains(x) {
            0
        } else {
            let j = lemma_flatten_member(gs.drop_first(), x);
            assert(gs[j + 1] == gs.drop_first()[j]);
            j + 1
        }
    }
}

/// A member of any part belongs to the flattening.
proof fn lemma_member_flatten<A>(gs: Seq<Seq<A>>, i: int, x: A)
    requires
        0 <= i < gs.len(),
        gs[i].contains(x),
    ensures
        gs.flatten().contains(x),
    decreases gs.len(),
{
    lemma_concat_contains(gs.first(), gs.drop_first().flatten());
    if i == 0 {
    } else {
        lemma_member_flatten(gs.drop_first(), i - 1, x);
        assert(gs[i] == gs.drop_first()[i - 1]);
    }
}

/// The records under every step that qualifies stand together in one
/// group of the cut: a qualifying subtree is never split.
proof fn lemma_cut_gathers(steps: Seq<MergeStep>, n: usize, threshold: u32, k: int)
    requires
        steps_wf(steps, n),
        children_unique(steps),
        n + steps.len() <= usize::MAX,
        0 <= k,
    ensures
        forall|m: int, x: usize, y: usize|
            0 <= m < steps.len() && k <= m && steps[m].dissimilarity <= threshold
                && #[trigger] leaves_under(steps, n, (n + m) as usize).contains(x)
                && #[trigger] leaves_under(steps, n, (n + m) as usize).contains(y)
                ==> in_same_group(cut_spec(steps, n, threshold, k).1, x, y),
    decreases steps.len() - k,
{
    let r = cut_spec(steps, n, threshold, k);
    if k >= steps.len() {
    } else {
        lemma_cut_gathers(steps, n, threshold, k + 1);
        lemma_cut_groups_from_steps(steps, n, threshold, k + 1);
        lemma_cut_closed(steps, n, threshold, k + 1);
        lemma_cut(steps, n, threshold, k + 1);
        let prev = cut_spec(steps, n, threshold, k + 1);
        if steps[k].dissimilarity <= threshold {
            lemma_extract_closed(steps, n, prev.0, (n + k) as usize);
            lemma_extract(steps, n, prev.0, (n + k) as usize);
            let e = extract_spec(steps, n, prev.0, (n + k) as usize);
            assert forall|m: int, x: usize, y: usize|
                0 <= m < steps.len() && k <= m && steps[m].dissimilarity <= threshold
                    && #[trigger] leaves_under(steps, n, (n + m) as usize).contains(x)
                    && #[trigger] leaves_under(steps, n, (n + m) as usize).contains(y) implies
                in_same_group(r.1, x, y) by {
                lemma_under_bounds(steps, n, (n + m) as usize);
                if m > k {
                    assert(in_same_group(prev.1, x, y));
                    let i = choose|i: int|
                        0 <= i < prev.1.len() && (#[trigger] prev.1[i]).contains(x)
                            && prev.1[i].contains(y);
                    assert(r.1[i].contains(x) && r.1[i].contains(y));
                    assert(in_same_group(r.1, x, y));
                } else {
                    if prev.0.contains(x) || prev.0.contains(y) {
                        let (w, z) = if prev.0.contains(x) {
                            (x, y)
                        } else {
                            (y, x)
                        };
                        assert(prev.1.flatten().contains(w));
                        let i = lemma_flatten_member(prev.1, w);
                        assert(gathered_from(steps, n, threshold, k + 1, prev.1[i]));
                        let u = choose|u: int|
                            k + 1 <= u && #[trigger] group_from_step(
                                steps,
                                n,
                                threshold,
                                prev.1[i],
                                u,
                            );
                        assert(leaves_under(steps, n, (n + u) as usize).contains(w));
                        assert((n + k) as usize == n + k);
                        assert((n + u) as usize == n + u);
                        lemma_nested_subtrees(
                            steps,
                            n,
                            (n + k) as usize,
                            (n + u) as usize,
                            w,
                        );
                        assert(leaves_under(steps, n, (n + u) as usize).contains(z));
                        assert(prev.0.contains(z));
                        assert(in_same_group(prev.1, x, y));
                        let i2 = choose|i2: int|
                            0 <= i2 < prev.1.len() && (#[trigger] prev.1[i2]).contains(x)
                                && prev.1[i2].contains(y);
                        assert(r.1[i2].contains(x) && r.1[i2].contains(y));
                        assert(in_same_group(r.1, x, y));
                    } else {
                        assert(e.0.contains(x) && e.0.contains(y));
                        assert(e.1.contains(x) && e.1.contains(y));
                        assert(e.1.len() > 0);
                        assert(r.1[prev.1.len() as int] == e.1);
                        assert(in_same_group(r.1, x, y));
                    }
                }
            }
        } else {
            assert forall|m: int, x: usize, y: usize|
                0 <= m < steps.len() && k <= m && steps[m].dissimilarity <= threshold
                    && #[trigger] leaves_under(steps, n, (n + m) as usize).contains(x)
                    && #[trigger] leaves_under(steps, n, (n + m) as usize).contains(y) implies
                in_same_group(r.1, x, y) by {
                assert(m > k);
                assert(in_same_group(prev.1, x, y));
            }
        }
    }
}

/// Every leftover group is one record on its own.
proof fn lemma_singletons_shape(c: Set<usize>, n: usize, i: int)
    requires
        0 <= i,
    ensures
        forall|j: int|
            0 <= j < singletons_spec(c, n, i).len() ==> (#[trigger] singletons_spec(c, n, i)[j]).len()
                == 1,
    decreases n - i,
{
    let s = singletons_spec(c, n, i);
    if i >= n {
    } else {
        lemma_singletons_shape(c, n, i + 1);
        let rest = singletons_spec(c, n, i + 1);
        if c.contains(i as usize) {
        } else {
            assert forall|j: int| 0 <= j < s.len() implies (#[trigger] s[j]).len() == 1 by {
                if j > 0 {
                    assert(s[j] == rest[j - 1]);
                } else {
                    assert(s[0] == seq![seq![i as usize]][0]);
                }
            }
        }
    }
}

/// Threshold-boundary law, seen on the groups: a step whose
/// dissimilarity is within the threshold — the boundary case being
/// exact equality — has all records of its subtree gathered into one
/// group of the cut.
pub proof fn lemma_qualifying_step_gathers(
    steps: Seq<MergeStep>,
    n: usize,
    threshold: u32,
    k: int,
)
    requires
        steps_wf(steps, n),
        children_unique(steps),
        n + steps.len() <= usize::MAX,
        0 <= k < steps.len(),
        steps[k].dissimilarity <= threshold,
    ensures
        forall|x: usize, y: usize|
            #[trigger] leaves_under(steps, n, (n + k) as usize).contains(x)
                && #[trigger] leaves_under(steps, n, (n + k) as usize).contains(y)
                ==> in_same_group(cut_spec(steps, n, threshold, 0).1, x, y),
{
    lemma_cut_gathers(steps, n, threshold, 0);
}

/// Monotonicity law: raising the threshold never splits a group. Any
/// two records that one cut of the merge tree groups together are also
/// grouped together by the cut at any threshold at least as permissive;
/// groups can only stay as they are or merge further. The contract of
/// `group_similar` supplies every premise for the steps it cuts, so two
/// runs over the same records and comparator relate this way.
pub proof fn lemma_threshold_monotone(
    steps: Seq<MergeStep>,
    n: usize,
    strict: u32,
    permissive: u32,
)
    requires
        steps_wf(steps, n),
        children_unique(steps),
        n + steps.len() <= usize::MAX,
        strict <= permissive,
    ensures
        forall|i: int, x: usize, y: usize|
            #![trigger grouping_spec(steps, n, strict)[i].contains(x), grouping_spec(steps, n, strict)[i].contains(y)]
            0 <= i < grouping_spec(steps, n, strict).len() && grouping_spec(
                steps,
                n,
                strict,
            )[i].contains(x) && grouping_spec(steps, n, strict)[i].contains(y)
                ==> in_same_group(grouping_spec(steps, n, permissive), x, y),
{
    let g1 = grouping_spec(steps, n, strict);
    let g2 = grouping_spec(steps, n, permissive);
    let cut1 = cut_spec(steps, n, strict, 0);
    let cut2 = cut_spec(steps, n, permissive, 0);
    lemma_cut_groups_from_steps(steps, n, strict, 0);
    lemma_cut_gathers(steps, n, permissive, 0);
    lemma_partition(steps, n, strict);
    lemma_partition(steps, n, permissive);
    lemma_singletons_shape(cut1.0, n, 0);
    assert forall|i: int, x: usize, y: usize|
        #![trigger g1[i].contains(x), g1[i].contains(y)]
        0 <= i < g1.len() && g1[i].contains(x) && g1[i].contains(y) implies in_same_group(
        g2,
        x,
        y,
    ) by {
        if i < cut1.1.len() {
            assert(g1[i] == cut1.1[i]);
            assert(gathered_from(steps, n, strict, 0, cut1.1[i]));
            let u = choose|u: int|
                0 <= u && #[trigger] group_from_step(steps, n, strict, cut1.1[i], u);
            assert(steps[u].dissimilarity <= permissive);
            assert(leaves_under(steps, n, (n + u) as usize).contains(x));
            assert(leaves_under(steps, n, (n + u) as usize).contains(y));
            assert(in_same_group(cut2.1, x, y));
            let i2 = choose|i2: int|
                0 <= i2 < cut2.1.len() && (#[trigger] cut2.1[i2]).contains(x)
                    && cut2.1[i2].contains(y);
            assert(g2[i2] == cut2.1[i2]);
            assert(in_same_group(g2, x, y));
        } else {
            let j = i - cut1.1.len();
            assert(g1[i] == singletons_spec(cut1.0, n, 0)[j]);
            assert(g1[i].len() == 1);
            let px = choose|p: int| 0 <= p < g1[i].len() && g1[i][p] == x;
            let py = choose|p: int| 0 <= p < g1[i].len() && g1[i][p] == y;
            assert(px == 0 && py == 0);
            assert(x == y);
            lemma_member_flatten(g1, i, x);
            assert(g1.flatten().contains(x));
            assert(x < n);
            assert(g2.flatten().contains(x));
            let i2 = lemma_flatten_member(g2, x);
            assert(in_same_group(g2, x, x));
        }
    }
}

} // verus!
