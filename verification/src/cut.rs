//! The threshold cutter.
//!
//! Walks the merge steps from the root (the last-created step) toward the
//! leaves. A step whose dissimilarity is within the threshold extracts
//! every record still present under its subtree into one group; records
//! taken by a wider, earlier-processed subtree are gone from the node
//! table, so the widest qualifying subtree wins and descendants of a
//! materialized group contribute nothing. Records never consumed by any
//! qualifying step end as their own group with no matches.

use vstd::prelude::*;

verus! {

use crate::config::Threshold;
use crate::engine::step_wf;
use crate::engine::steps_wf;
use crate::engine::MergeStep;

/// One output group: a representative record and the records matched to
/// it, all as indices into the record sequence that was grouped.
#[derive(Debug, PartialEq, Eq)]
pub struct Group {
    /// The record under which the group is listed: the first record
    /// extracted from the group's subtree.
    pub representative: usize,
    /// The other records of the group, in extraction order; never
    /// contains the representative.
    pub matches: Vec<usize>,
}

/// The members of a group: the representative followed by the matches.
pub open spec fn group_members(g: Group) -> Seq<usize> {
    seq![g.representative] + g.matches@
}

/// The members of each group, in group order.
pub open spec fn groups_members(groups: Seq<Group>) -> Seq<Seq<usize>> {
    groups.map_values(|g: Group| group_members(g))
}

/// The identifiers marked consumed in the node table.
pub open spec fn consumed_set(consumed: Seq<bool>) -> Set<usize> {
    Set::new(|id: usize| id < consumed.len() && consumed[id as int])
}

/// One extraction: the depth-first walk from `id` toward the leaves that
/// consumes every identifier still present and harvests the leaves it
/// reaches, first child before second. Returns the consumed set after
/// the walk and the harvested leaves in visit order.
pub open spec fn extract_spec(
    steps: Seq<MergeStep>,
    n: usize,
    consumed: Set<usize>,
    id: usize,
) -> (Set<usize>, Seq<usize>)
    decreases id,
{
    if consumed.contains(id) {
        (consumed, Seq::empty())
    } else if id < n {
        (consumed.insert(id), seq![id])
    } else if id - n < steps.len() && steps[id - n].cluster1 < id && steps[id - n].cluster2 < id {
        let after_id = consumed.insert(id);
        let first = extract_spec(steps, n, after_id, steps[id - n].cluster1);
        let second = extract_spec(steps, n, first.0, steps[id - n].cluster2);
        (second.0, first.1 + second.1)
    } else {
        (consumed.insert(id), Seq::empty())
    }
}

/// The cut after processing the steps with index at least `k`, in
/// descending index order: the consumed set and the groups materialized
/// so far, in materialization order. The full cut is `k == 0`.
pub open spec fn cut_spec(
    steps: Seq<MergeStep>,
    n: usize,
    threshold: u32,
    k: int,
) -> (Set<usize>, Seq<Seq<usize>>)
    decreases steps.len() - k,
{
    if k < 0 || k >= steps.len() {
        (Set::empty(), Seq::empty())
    } else {
        let prev = cut_spec(steps, n, threshold, k + 1);
        if steps[k].dissimilarity <= threshold {
            let extracted = extract_spec(steps, n, prev.0, (n + k) as usize);
            if extracted.1.len() > 0 {
                (extracted.0, prev.1.push(extracted.1))
            } else {
                (extracted.0, prev.1)
            }
        } else {
            prev
        }
    }
}

/// The groups of the records with identifier at least `i` that no
/// qualifying step consumed: each is its own group, in identifier order.
pub open spec fn singletons_spec(consumed: Set<usize>, n: usize, i: int) -> Seq<Seq<usize>>
    decreases n - i,
{
    if i < 0 || i >= n {
        Seq::empty()
    } else if consumed.contains(i as usize) {
        singletons_spec(consumed, n, i + 1)
    } else {
        seq![seq![i as usize]] + singletons_spec(consumed, n, i + 1)
    }
}

/// The grouping of `n` records under the given merge steps, cut at
/// `threshold`: the groups of the qualifying steps, widest first, then
/// the leftover records as singleton groups.
pub open spec fn grouping_spec(steps: Seq<MergeStep>, n: usize, threshold: u32) -> Seq<Seq<usize>> {
    let cut = cut_spec(steps, n, threshold, 0);
    cut.1 + singletons_spec(cut.0, n, 0)
}

/// Recursively consumes the subtree at `id` and harvests into `out`
/// every record still present under it, first child before second.
fn extract_values(
    steps: &Vec<MergeStep>,
    n: usize,
    consumed: &mut Vec<bool>,
    id: usize,
    out: &mut Vec<usize>,
)
    requires
        steps_wf(steps@, n),
        old(consumed)@.len() == n + steps@.len(),
        id < n + steps@.len(),
    ensures
        final(consumed)@.len() == old(consumed)@.len(),
        consumed_set(final(consumed)@) == extract_spec(
            steps@,
            n,
            consumed_set(old(consumed)@),
            id,
        ).0,
        final(out)@ == old(out)@ + extract_spec(steps@, n, consumed_set(old(consumed)@), id).1,
    decreases id,
{
    let ghost entry_set = consumed_set(old(consumed)@);
    let ghost entry_out = old(out)@;
    if consumed[id] {
        proof {
            assert(entry_set.contains(id));
            assert(out@ =~= entry_out + extract_spec(steps@, n, entry_set, id).1);
        }
    } else {
        consumed.set(id, true);
        proof {
            assert(!entry_set.contains(id));
            assert(consumed_set(consumed@) =~= entry_set.insert(id));
        }
        if id < n {
            out.push(id);
            proof {
                assert(out@ =~= entry_out + extract_spec(steps@, n, entry_set, id).1);
            }
        } else {
            proof {
                assert(step_wf(steps@, n, id - n));
            }
            let first_child = steps[id - n].cluster1;
            let second_child = steps[id - n].cluster2;
            let ghost first = extract_spec(steps@, n, entry_set.insert(id), first_child);
            let ghost second = extract_spec(steps@, n, first.0, second_child);
            extract_values(steps, n, consumed, first_child, out);
            extract_values(steps, n, consumed, second_child, out);
            proof {
                assert(extract_spec(steps@, n, entry_set, id).0 == second.0);
                assert(out@ =~= entry_out + extract_spec(steps@, n, entry_set, id).1);
            }
        }
    }
}

/// Cuts the merge tree at the threshold: materializes a group for every
/// qualifying step whose subtree still holds records, processing the
/// steps from the root downward, then lists every never-consumed record
/// as its own group.
pub fn threshold_cut(n: usize, steps: &Vec<MergeStep>, threshold: &Threshold) -> (groups: Vec<
    Group,
>)
    requires
        steps_wf(steps@, n),
        n + steps@.len() <= usize::MAX,
    ensures
        groups_members(groups@) == grouping_spec(steps@, n, threshold.raw()),
{
    let total = n + steps.len();
    let mut consumed: Vec<bool> = Vec::new();
    while consumed.len() < total
        invariant
            consumed@.len() <= total,
            forall|i: int| 0 <= i < consumed@.len() ==> !consumed@[i],
        decreases total - consumed@.len(),
    {
        consumed.push(false);
    }
    proof {
        assert(consumed_set(consumed@) =~= cut_spec(steps@, n, threshold.raw(), steps@.len() as int).0);
        assert(groups_members(Seq::<Group>::empty()) =~= cut_spec(
            steps@,
            n,
            threshold.raw(),
            steps@.len() as int,
        ).1);
    }
    let mut groups: Vec<Group> = Vec::new();
    let mut k = steps.len();
    while k > 0
        invariant
            k <= steps@.len(),
            steps_wf(steps@, n),
            n + steps@.len() <= usize::MAX,
            consumed@.len() == n + steps@.len(),
            consumed_set(consumed@) == cut_spec(steps@, n, threshold.raw(), k as int).0,
            groups_members(groups@) == cut_spec(steps@, n, threshold.raw(), k as int).1,
        decreases k,
    {
        k = k - 1;
        let ghost prev = cut_spec(steps@, n, threshold.raw(), k as int + 1);
        if threshold.within(steps[k].dissimilarity) {
            let mut members: Vec<usize> = Vec::new();
            let ghost extracted = extract_spec(steps@, n, prev.0, (n + k) as usize);
            extract_values(steps, n, &mut consumed, n + k, &mut members);
            if members.len() > 0 {
                let ghost before_members = members@;
                let representative = members.remove(0);
                let group = Group { representative, matches: members };
                proof {
                    assert(group_members(group) =~= before_members);
                }
                let ghost before_groups = groups@;
                groups.push(group);
                proof {
                    assert(groups_members(groups@) =~= groups_members(before_groups).push(
                        group_members(group),
                    ));
                    assert(groups_members(groups@) =~= cut_spec(steps@, n, threshold.raw(), k as int).1);
                }
            } else {
                proof {
                    assert(members@ =~= extracted.1);
                    assert(groups_members(groups@) == cut_spec(steps@, n, threshold.raw(), k as int).1);
                }
            }
        }
    }
    let ghost cut = cut_spec(steps@, n, threshold.raw(), 0);
    let mut id: usize = 0;
    proof {
        assert(groups_members(groups@) + singletons_spec(cut.0, n, 0) =~= cut.1 + singletons_spec(
            cut.0,
            n,
            0,
        ));
    }
    while id < n
        invariant
            id <= n,
            n <= consumed@.len(),
            consumed_set(consumed@) == cut.0,
            groups_members(groups@) + singletons_spec(cut.0, n, id as int) == cut.1
                + singletons_spec(cut.0, n, 0),
        decreases n - id,
    {
        if !consumed[id] {
            proof {
                assert(!cut.0.contains(id));
            }
            let ghost before_groups = groups@;
            let group = Group { representative: id, matches: Vec::new() };
            proof {
                assert(group_members(group) =~= seq![id]);
            }
            groups.push(group);
            proof {
                assert(groups_members(groups@) =~= groups_members(before_groups).push(
                    group_members(group),
                ));
                assert(singletons_spec(cut.0, n, id as int) == seq![seq![id]] + singletons_spec(
                    cut.0,
                    n,
                    id as int + 1,
                ));
                assert(groups_members(groups@) + singletons_spec(cut.0, n, id as int + 1)
                    =~= groups_members(before_groups) + singletons_spec(cut.0, n, id as int));
            }
        } else {
            proof {
                assert(cut.0.contains(id));
            }
        }
        id = id + 1;
    }
    proof {
        assert(singletons_spec(cut.0, n, n as int) =~= Seq::<Seq<usize>>::empty());
        assert(groups_members(groups@) =~= groups_members(groups@) + singletons_spec(
            cut.0,
            n,
            n as int,
        ));
    }
    groups
}

} // verus!
