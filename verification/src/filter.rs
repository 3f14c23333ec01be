//! The coefficient filter: components whose score lies below a threshold
//! leave the graph, and the components that stay are ranked by score.
//!
//! A score is the rank key of a component's average clustering coefficient: a
//! larger key stands for a larger average. The graph supplies the fractions
//! that the averages are made of ([`CoPurchaseGraph::component_profiles`]);
//! the caller turns each profile into a key.

use crate::clustering::{coefficients, Ratio};
use crate::graph::{CoPurchaseGraph, GraphView};
use crate::removal::members_of;
use crate::store::{rows, sits_at};
use vstd::prelude::*;

verus! {

/// Why the filter refused its input.
#[derive(Debug, Clone, Copy, PartialEq, Eq, Structural)]
pub enum FilterError {
    /// There is not exactly one score for each component of the graph.
    ScoreCount,
}

/// A component as the ranking lists it: its position in the decomposition,
/// the number of its nodes, and its score.
#[derive(Debug, Clone, Copy, PartialEq, Eq, Structural)]
pub struct RankedComponent {
    pub component: usize,
    pub size: usize,
    pub score: u64,
}

/// For each group, whether its score lies below the threshold.
pub open spec fn low(parts: Seq<Seq<usize>>, scores: Seq<u64>, threshold: u64) -> Seq<bool> {
    Seq::new(parts.len(), |c: int| scores[c] < threshold)
}

/// Whether `a` comes before `b` in a ranking: by the larger score, and among
/// equal scores by the earlier place in the decomposition.
pub open spec fn ranks_before(a: RankedComponent, b: RankedComponent) -> bool {
    a.score > b.score || (a.score == b.score && a.component < b.component)
}

/// Whether `list` is the ranking of the groups that have at least `min_size`
/// members: it holds each of them once, with its size and score, and no other
/// entry, and every entry ranks before the entries behind it.
pub open spec fn is_ranking(
    list: Seq<RankedComponent>,
    parts: Seq<Seq<usize>>,
    scores: Seq<u64>,
    min_size: usize,
) -> bool {
    &&& forall|i: int|
        0 <= i < list.len() ==> {
            &&& (#[trigger] list[i]).component < parts.len()
            &&& list[i].size == parts[list[i].component as int].len()
            &&& list[i].score == scores[list[i].component as int]
            &&& list[i].size >= min_size
        }
    &&& forall|c: int|
        0 <= c < parts.len() && (#[trigger] parts[c]).len() >= min_size ==> exists|i: int|
            0 <= i < list.len() && (#[trigger] list[i]).component == c
    &&& forall|i: int, j: int|
        0 <= i < j < list.len() ==> ranks_before(#[trigger] list[i], #[trigger] list[j])
}

impl GraphView {
    /// Whether the node with this key is a member of a component whose score
    /// lies below the threshold.
    pub open spec fn in_low_component(self, scores: Seq<u64>, threshold: u64, key: usize) -> bool {
        members_of(self.components(), low(self.components(), scores, threshold)).contains(key)
    }

    /// The graph without the nodes of the components whose score lies below
    /// the threshold, and without the edges from or to them.
    pub open spec fn without_low_components(self, scores: Seq<u64>, threshold: u64) -> GraphView {
        self.without_keys(members_of(self.components(), low(self.components(), scores, threshold)))
    }

    /// For each component, the clustering coefficient of each of its nodes.
    pub open spec fn profiles(self) -> Seq<Seq<Ratio>> {
        Seq::new(self.components().len(), |c: int| coefficients(self, self.components()[c]))
    }
}

/// The rows of a nested vector of fractions as sequences.
pub open spec fn ratio_rows(v: Vec<Vec<Ratio>>) -> Seq<Seq<Ratio>> {
    Seq::new(v.len() as nat, |c: int| v[c]@)
}

impl CoPurchaseGraph {
    /// For each strongly connected component, in the order of the
    /// decomposition, the clustering coefficient of each of its nodes. The
    /// average of a row is the component's clustering coefficient.
    pub fn component_profiles(&self) -> (profiles: Vec<Vec<Ratio>>)
        requires
            self.wf(),
        ensures
            ratio_rows(profiles) == self@.profiles(),
            profiles.len() == self@.components().len(),
            forall|c: int, i: int|
                0 <= c < profiles.len() && 0 <= i < profiles[c].len() ==> (
                #[trigger] profiles[c][i]).in_unit_interval(),
            forall|c: int| 0 <= c < profiles.len() ==> (#[trigger] profiles[c]).len() > 0,
    {
        let parts = self.strongly_connected_components();
        let mut profiles: Vec<Vec<Ratio>> = Vec::new();
        let mut c: usize = 0;
        while c < parts.len()
            invariant
                self.wf(),
                rows(parts) == self@.components(),
                self@.split_into(rows(parts)),
                c <= parts.len(),
                profiles.len() == c,
                forall|d: int| 0 <= d < c ==> (#[trigger] profiles[d])@ == self@.profiles()[d],
                forall|d: int, i: int|
                    0 <= d < profiles.len() && 0 <= i < profiles[d].len() ==> (
                    #[trigger] profiles[d][i]).in_unit_interval(),
                forall|d: int| 0 <= d < profiles.len() ==> (#[trigger] profiles[d]).len() > 0,
            decreases parts.len() - c,
        {
            assert(parts[c as int]@ == rows(parts)[c as int]);
            assert forall|i: int| 0 <= i < parts[c as int].len() implies self@.alive(
                #[trigger] parts[c as int][i],
            ) by {
                assert(self@.alive(rows(parts)[c as int][i]));
            }
            let row = self.component_ratios(&parts[c]);
            assert(rows(parts)[c as int].len() > 0);
            profiles.push(row);
            c += 1;
        }
        assert(ratio_rows(profiles) =~= self@.profiles());
        profiles
    }

    /// Removes every component whose score lies below `threshold`, with the
    /// edges from or to its nodes, and answers how many nodes were removed.
    /// `scores` holds one score for each component, in the order of the
    /// decomposition; with any other number of scores nothing is removed.
    ///
    /// A node is removed if and only if it belongs to a component whose score
    /// lies below the threshold.
    pub fn remove_low_components(&mut self, scores: &Vec<u64>, threshold: u64) -> (res: Result<
        usize,
        FilterError,
    >)
        requires
            old(self).wf(),
        ensures
            final(self).wf(),
            res is Err <==> scores.len() != old(self)@.components().len(),
            res is Err ==> final(self)@ == old(self)@,
            res is Ok ==> final(self)@ == old(self)@.without_low_components(scores@, threshold),
            res is Ok ==> res->Ok_0 == old(self)@.keys.len() - final(self)@.keys.len(),
            res is Ok ==> forall|key: usize|
                final(self)@.alive(key) <==> old(self)@.alive(key) && !old(self)@.in_low_component(
                    scores@,
                    threshold,
                    key,
                ),
            forall|key: usize|
                #[trigger] final(self)@.alive(key) ==> final(self)@.products[key as int] == old(self)@.products[key as int],
    {
        let parts = self.strongly_connected_components();
        if scores.len() != parts.len() {
            return Err(FilterError::ScoreCount);
        }
        let mut chosen: Vec<bool> = Vec::new();
        let mut c: usize = 0;
        while c < parts.len()
            invariant
                c <= parts.len(),
                scores.len() == parts.len(),
                chosen@ == low(rows(parts), scores@, threshold).take(c as int),
            decreases parts.len() - c,
        {
            chosen.push(scores[c] < threshold);
            assert(chosen@ =~= low(rows(parts), scores@, threshold).take(c + 1));
            c += 1;
        }
        assert(chosen@ =~= low(rows(parts), scores@, threshold));
        let marks = self.mark_members(&parts, &chosen);
        let removed = self.remove_marked(&marks);
        Ok(removed)
    }

    /// Ranks the components that have at least `min_size` nodes: by
    /// descending score, and among equal scores in the order of the
    /// decomposition. `scores` holds one score for each component, in the
    /// order of the decomposition.
    pub fn rank_components(&self, scores: &Vec<u64>, min_size: usize) -> (res: Result<
        Vec<RankedComponent>,
        FilterError,
    >)
        requires
            self.wf(),
        ensures
            res is Err <==> scores.len() != self@.components().len(),
            res is Ok ==> is_ranking(res->Ok_0@, self@.components(), scores@, min_size),
    {
        let parts = self.strongly_connected_components();
        if scores.len() != parts.len() {
            return Err(FilterError::ScoreCount);
        }
        let mut list: Vec<RankedComponent> = Vec::new();
        let mut c: usize = 0;
        while c < parts.len()
            invariant
                c <= parts.len(),
                scores.len() == parts.len(),
                is_ranking(list@, rows(parts).take(c as int), scores@, min_size),
            decreases parts.len() - c,
        {
            let size = parts[c].len();
            let ghost seen = rows(parts).take(c as int);
            let ghost now = rows(parts).take(c + 1);
            let ghost before = list@;
            if size >= min_size {
                let entry = RankedComponent { component: c, size, score: scores[c] };
                let mut at: usize = 0;
                while at < list.len() && list[at].score >= entry.score
                    invariant
                        at <= list.len(),
                        forall|i: int| 0 <= i < at ==> (#[trigger] list@[i]).score >= entry.score,
                    decreases list.len() - at,
                {
                    at += 1;
                }
                list.insert(at, entry);
                proof {
                    assert forall|i: int| 0 <= i < list.len() implies {
                        &&& (#[trigger] list@[i]).component < now.len()
                        &&& list@[i].size == now[list@[i].component as int].len()
                        &&& list@[i].score == scores@[list@[i].component as int]
                        &&& list@[i].size >= min_size
                    } by {
                        if i < at {
                            assert(list@[i] == before[i]);
                            assert(seen[before[i].component as int] == now[before[i].component as int]);
                        } else if i > at {
                            assert(list@[i] == before[i - 1]);
                            assert(seen[before[i - 1].component as int] == now[before[i
                                - 1].component as int]);
                        }
                    }
                    assert forall|d: int| 0 <= d < now.len() && (#[trigger] now[d]).len()
                        >= min_size implies exists|i: int|
                        0 <= i < list.len() && (#[trigger] list@[i]).component == d by {
                        if d < c {
                            assert(seen[d] == now[d]);
                            let i = choose|i: int|
                                0 <= i < before.len() && (#[trigger] before[i]).component == d;
                            if i < at {
                                assert(list@[i] == before[i]);
                            } else {
                                assert(list@[i + 1] == before[i]);
                            }
                        } else {
                            assert(list@[at as int].component == d);
                        }
                    }
                    assert forall|i: int, j: int| 0 <= i < j < list.len() implies ranks_before(
                        #[trigger] list@[i],
                        #[trigger] list@[j],
                    ) by {
                        if j < at {
                            assert(list@[i] == before[i] && list@[j] == before[j]);
                        } else if j == at {
                            assert(list@[i] == before[i]);
                            assert(before[i].component < seen.len());
                        } else if i < at {
                            assert(list@[i] == before[i] && list@[j] == before[j - 1]);
                        } else if i == at {
                            assert(list@[j] == before[j - 1]);
                            if j - 1 > at {
                                assert(ranks_before(before[at as int], before[j - 1]));
                            }
                        } else {
                            assert(list@[i] == before[i - 1] && list@[j] == before[j - 1]);
                        }
                    }
                }
            } else {
                proof {
                    assert forall|i: int| 0 <= i < list.len() implies {
                        &&& (#[trigger] list@[i]).component < now.len()
                        &&& list@[i].size == now[list@[i].component as int].len()
                        &&& list@[i].score == scores@[list@[i].component as int]
                        &&& list@[i].size >= min_size
                    } by {
                        assert(seen[list@[i].component as int] == now[list@[i].component as int]);
                    }
                    assert forall|d: int| 0 <= d < now.len() && (#[trigger] now[d]).len()
                        >= min_size implies exists|i: int|
                        0 <= i < list.len() && (#[trigger] list@[i]).component == d by {
                        assert(now[c as int] == parts[c as int]@);
                        assert(seen[d] == now[d]);
                    }
                }
            }
            c += 1;
        }
        assert(rows(parts).take(c as int) =~= rows(parts));
        Ok(list)
    }
}

} // verus!
