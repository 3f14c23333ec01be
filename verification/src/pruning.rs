//! The iterative pruner: round after round, every strongly connected
//! component below the structural floor is removed, until the smallest
//! component that is left reaches the wanted size, nothing is left, or the
//! round limit is reached.

use crate::graph::{CoPurchaseGraph, GraphView};
use crate::reach::lemma_pruning_is_final;
use crate::removal::{lemma_sweep_nothing, members_of};
use crate::store::{covered, rows, sits_at};
use vstd::prelude::*;

verus! {

/// Components with fewer nodes than this are removed in every round.
pub const SMALL_COMPONENT_FLOOR: usize = 3;

/// The pruner never runs more rounds than this.
pub const MAX_PRUNE_ROUNDS: usize = 100;

/// The size that the smallest component has to reach, unless the caller asks
/// for another.
pub const DEFAULT_MIN_COMPONENT_SIZE: usize = 5;

/// How the pruner stopped.
#[derive(Debug, Clone, Copy, PartialEq, Eq, Structural)]
pub enum PruneEnd {
    /// The smallest component that is left has the wanted size.
    Converged,
    /// No component is left: the graph is empty.
    NoComponents,
    /// The round limit was reached before the wanted size.
    RoundLimit,
}

/// What the pruner reports: how it stopped, after how many rounds, and the
/// number of components that are left with the sizes of the smallest and the
/// largest of them (all zero when none is left).
#[derive(Debug, Clone, Copy, PartialEq, Eq, Structural)]
pub struct PruneReport {
    pub end: PruneEnd,
    pub rounds: usize,
    pub components: usize,
    pub smallest: usize,
    pub largest: usize,
}

/// For each group, whether it has fewer than `floor` members.
pub open spec fn below(parts: Seq<Seq<usize>>, floor: usize) -> Seq<bool> {
    Seq::new(parts.len(), |c: int| parts[c].len() < floor)
}

/// The size of the smallest group, and zero when there is no group.
pub open spec fn smallest(parts: Seq<Seq<usize>>) -> nat
    decreases parts.len(),
{
    if parts.len() == 0 {
        0
    } else if parts.len() == 1 {
        parts[0].len()
    } else if parts.last().len() < smallest(parts.drop_last()) {
        parts.last().len()
    } else {
        smallest(parts.drop_last())
    }
}

/// The size of the largest group, and zero when there is no group.
pub open spec fn largest(parts: Seq<Seq<usize>>) -> nat
    decreases parts.len(),
{
    if parts.len() == 0 {
        0
    } else if parts.last().len() > largest(parts.drop_last()) {
        parts.last().len()
    } else {
        largest(parts.drop_last())
    }
}

impl GraphView {
    /// The graph after one round: without the nodes of the components that
    /// are below the structural floor.
    pub open spec fn pruned_once(self) -> GraphView {
        self.without_keys(
            members_of(self.components(), below(self.components(), SMALL_COMPONENT_FLOOR)),
        )
    }

    /// Whether the pruner has nothing more to wait for: no component is left,
    /// or the smallest one has at least `min_size` nodes.
    pub open spec fn settled(self, min_size: usize) -> bool {
        self.components().len() == 0 || smallest(self.components()) >= min_size
    }

    /// What the pruner reports of a graph that its first round has left. The
    /// later rounds change nothing, so the pruner stops after one round when
    /// this graph is settled and at the round limit when it is not.
    pub open spec fn prune_report(self, min_size: usize) -> PruneReport {
        let parts = self.components();
        PruneReport {
            end: if parts.len() == 0 {
                PruneEnd::NoComponents
            } else if smallest(parts) >= min_size {
                PruneEnd::Converged
            } else {
                PruneEnd::RoundLimit
            },
            rounds: if self.settled(min_size) {
                1
            } else {
                MAX_PRUNE_ROUNDS
            },
            components: parts.len() as usize,
            smallest: smallest(parts) as usize,
            largest: largest(parts) as usize,
        }
    }
}

/// Every group has at least as many members as the smallest one.
pub proof fn lemma_smallest_is_lower_bound(parts: Seq<Seq<usize>>, c: int)
    requires
        0 <= c < parts.len(),
    ensures
        smallest(parts) <= parts[c].len(),
    decreases parts.len(),
{
    if parts.len() > 1 {
        if c < parts.len() - 1 {
            lemma_smallest_is_lower_bound(parts.drop_last(), c);
            assert(parts.drop_last()[c] == parts[c]);
        }
    }
}

/// A round removes nothing from a graph that is settled for a wanted size no
/// smaller than the structural floor.
pub proof fn lemma_settled_is_fixed(g: GraphView, min_size: usize)
    requires
        g.settled(min_size),
        min_size >= SMALL_COMPONENT_FLOOR,
    ensures
        g.pruned_once() == g,
{
    let parts = g.components();
    let doomed = members_of(parts, below(parts, SMALL_COMPONENT_FLOOR));
    assert forall|key: usize| !doomed.contains(key) by {
        if doomed.contains(key) {
            let (c, i) = choose|c: int, i: int|
                #[trigger] sits_at(parts, key, c, i) && 0 <= c < below(
                    parts,
                    SMALL_COMPONENT_FLOOR,
                ).len() && below(parts, SMALL_COMPONENT_FLOOR)[c];
            lemma_smallest_is_lower_bound(parts, c);
        }
    }
    lemma_sweep_nothing(g, doomed, g.keys.len() as int);
}

/// The sizes of the smallest and the largest component.
pub fn size_range(parts: &Vec<Vec<usize>>) -> (range: (usize, usize))
    ensures
        range.0 == smallest(rows(*parts)),
        range.1 == largest(rows(*parts)),
{
    let mut low: usize = 0;
    let mut high: usize = 0;
    let mut c: usize = 0;
    while c < parts.len()
        invariant
            c <= parts.len(),
            low == smallest(rows(*parts).take(c as int)),
            high == largest(rows(*parts).take(c as int)),
        decreases parts.len() - c,
    {
        let size = parts[c].len();
        proof {
            let now = rows(*parts).take(c + 1);
            assert(now.drop_last() =~= rows(*parts).take(c as int));
            assert(now.last() == parts[c as int]@);
            if c == 0 {
                assert(now[0] == parts[0]@);
            }
        }
        if c == 0 || size < low {
            low = size;
        }
        if size > high {
            high = size;
        }
        c += 1;
    }
    assert(rows(*parts).take(c as int) =~= rows(*parts));
    (low, high)
}

impl CoPurchaseGraph {
    /// Runs the pruner with `min_size` as the wanted size of the smallest
    /// component.
    ///
    /// Every round removes the components with fewer than
    /// [`SMALL_COMPONENT_FLOOR`] nodes, with the edges from or to them, and
    /// decomposes the graph afresh. The pruner stops after the first round
    /// that leaves no component or a smallest component of at least
    /// `min_size` nodes, and after [`MAX_PRUNE_ROUNDS`] rounds at the latest.
    ///
    /// The graph that is left is the graph after one round, whatever the
    /// number of rounds: the components that a round leaves are the
    /// components of at least [`SMALL_COMPONENT_FLOOR`] nodes that were there
    /// before, so a further round finds nothing to remove. The pruner works
    /// on the empty graph too.
    pub fn prune_small_components(&mut self, min_size: usize) -> (report: PruneReport)
        requires
            old(self).wf(),
        ensures
            final(self).wf(),
            final(self)@ == old(self)@.pruned_once(),
            report == final(self)@.prune_report(min_size),
            final(self)@.pruned_once() == final(self)@,
            1 <= report.rounds <= MAX_PRUNE_ROUNDS,
            forall|key: usize|
                #[trigger] final(self)@.alive(key) ==> old(self)@.alive(key) && final(self)@.products[key as int] == old(self)@.products[key as int],
            report.end == PruneEnd::NoComponents <==> final(self)@.keys.len() == 0,
            report.end != PruneEnd::RoundLimit <==> final(self)@.settled(min_size),
    {
        let ghost start = self@;
        let mut rounds: usize = 0;
        let mut parts = self.strongly_connected_components();
        proof {
            self.lemma_valid();
        }
        loop
            invariant
                self.wf(),
                start == old(self)@,
                start.valid(),
                start.decomposed(),
                rounds < MAX_PRUNE_ROUNDS,
                rows(parts) == self@.components(),
                self@.decomposed(),
                rounds == 0 ==> self@ == start,
                rounds > 0 ==> self@ == start.pruned_once() && self@.pruned_once() == self@
                    && !self@.settled(min_size),
                forall|key: usize|
                    #[trigger] self@.alive(key) ==> start.alive(key) && self@.products[key as int]
                        == start.products[key as int],
            decreases MAX_PRUNE_ROUNDS - rounds,
        {
            let ghost before = self@;
            let mut chosen: Vec<bool> = Vec::new();
            let mut c: usize = 0;
            while c < parts.len()
                invariant
                    c <= parts.len(),
                    chosen@ == below(rows(parts), SMALL_COMPONENT_FLOOR).take(c as int),
                decreases parts.len() - c,
            {
                chosen.push(parts[c].len() < SMALL_COMPONENT_FLOOR);
                assert(chosen@ =~= below(rows(parts), SMALL_COMPONENT_FLOOR).take(c + 1));
                c += 1;
            }
            assert(chosen@ =~= below(rows(parts), SMALL_COMPONENT_FLOOR));
            let marks = self.mark_members(&parts, &chosen);
            self.remove_marked(&marks);
            assert(self@ == before.pruned_once());
            parts = self.strongly_connected_components();
            proof {
                if rounds == 0 {
                    lemma_pruning_is_final(start);
                }
                assert(self@ == start.pruned_once());
                assert(self@.pruned_once() == self@);
            }
            rounds += 1;
            let (low, high) = size_range(&parts);
            proof {
                assert(rows(parts).len() == parts.len());
                self.lemma_valid();
                if parts.len() == 0 {
                    if self@.keys.len() > 0 {
                        assert(self@.alive(self@.keys[0]));
                        assert(covered(rows(parts), self@.keys[0]));
                    }
                } else {
                    assert(rows(parts)[0].len() > 0);
                    assert(self@.alive(rows(parts)[0][0]));
                }
            }
            if parts.len() == 0 {
                assert(rounds == 1);
                return PruneReport {
                    end: PruneEnd::NoComponents,
                    rounds,
                    components: 0,
                    smallest: 0,
                    largest: 0,
                };
            }
            if low >= min_size {
                assert(rounds == 1);
                return PruneReport {
                    end: PruneEnd::Converged,
                    rounds,
                    components: parts.len(),
                    smallest: low,
                    largest: high,
                };
            }
            if rounds >= MAX_PRUNE_ROUNDS {
                return PruneReport {
                    end: PruneEnd::RoundLimit,
                    rounds,
                    components: parts.len(),
                    smallest: low,
                    largest: high,
                };
            }
        }
    }
}

} // verus!
