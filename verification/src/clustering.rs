//! Local clustering: how many pairs of a node's neighbours are themselves
//! joined by an edge.

use crate::graph::{holds_key, CoPurchaseGraph, GraphView};
use crate::store::{has_arc_to, targets, Arc};
use vstd::prelude::*;

verus! {

/// A clustering coefficient as a fraction: `linked` of the `possible`
/// neighbour pairs are joined. With no possible pair the coefficient is zero.
#[derive(Debug, Clone, Copy, PartialEq, Eq, Structural)]
pub struct Ratio {
    pub linked: u64,
    pub possible: u64,
}

impl Ratio {
    /// Whether the coefficient is zero.
    pub open spec fn is_zero(self) -> bool {
        self.linked == 0
    }

    /// Whether the coefficient lies between zero and one.
    pub open spec fn in_unit_interval(self) -> bool {
        self.linked <= self.possible
    }
}

/// The distinct members of `list`, in the order in which they first stand
/// there.
pub open spec fn distinct(list: Seq<usize>) -> Seq<usize>
    decreases list.len(),
{
    if list.len() == 0 {
        list
    } else if distinct(list.drop_last()).contains(list.last()) {
        distinct(list.drop_last())
    } else {
        distinct(list.drop_last()).push(list.last())
    }
}

/// Whether an edge joins the nodes `i` and `j`, in either direction.
pub open spec fn joined(out: Seq<Seq<Arc>>, i: usize, j: usize) -> bool {
    has_arc_to(out[i as int], j) || has_arc_to(out[j as int], i)
}

/// Number of neighbours `list[j]`, for `j` after `i` and before `upto`, that
/// an edge joins to neighbour `list[i]`, in either direction.
pub open spec fn row_links(out: Seq<Seq<Arc>>, list: Seq<usize>, i: int, upto: int) -> nat
    decreases upto - i,
{
    if upto <= i + 1 {
        0
    } else {
        row_links(out, list, i, upto - 1) + (if joined(out, list[i], list[upto - 1]) {
            1nat
        } else {
            0nat
        })
    }
}

/// Number of pairs `i < j` of positions in `list`, with `i` before `upto`,
/// such that an edge joins the neighbours `list[i]` and `list[j]`, in either
/// direction.
pub open spec fn pair_links(out: Seq<Seq<Arc>>, list: Seq<usize>, upto: int) -> nat
    decreases upto,
{
    if upto <= 0 {
        0
    } else {
        pair_links(out, list, upto - 1) + row_links(out, list, upto - 1, list.len() as int)
    }
}

/// Number of pairs that `k` neighbours form.
pub open spec fn pair_total(k: nat) -> nat {
    if k < 2 {
        0
    } else {
        (k * (k - 1) / 2) as nat
    }
}

impl GraphView {
    /// The neighbours of the node with this key: the distinct targets of its
    /// outgoing edges, by node index.
    pub open spec fn neighbourhood(self, key: usize) -> Seq<usize> {
        distinct(targets(self.out[self.index_of(key)]))
    }

    /// The clustering coefficient of the node with this key: of the pairs of
    /// its neighbours, the part that an edge joins, in either direction.
    pub open spec fn coefficient(self, key: usize) -> Ratio {
        let list = self.neighbourhood(key);
        Ratio {
            linked: pair_links(self.out, list, list.len() as int) as u64,
            possible: pair_total(list.len()) as u64,
        }
    }
}

/// A row holds no more joined pairs than it has later neighbours.
pub proof fn lemma_row_links_bound(out: Seq<Seq<Arc>>, list: Seq<usize>, i: int, upto: int)
    requires
        0 <= i,
    ensures
        row_links(out, list, i, upto) <= (if upto <= i + 1 {
            0
        } else {
            upto - i - 1
        }),
    decreases upto - i,
{
    if upto > i + 1 {
        lemma_row_links_bound(out, list, i, upto - 1);
    }
}

/// The first `upto` rows hold no more joined pairs than they have pairs.
pub proof fn lemma_pair_links_bound(out: Seq<Seq<Arc>>, list: Seq<usize>, upto: int)
    requires
        0 <= upto <= list.len(),
    ensures
        2 * pair_links(out, list, upto) <= upto * (2 * list.len() - upto - 1),
    decreases upto,
{
    if upto > 0 {
        let k = list.len() as int;
        let m = upto - 1;
        lemma_pair_links_bound(out, list, m);
        lemma_row_links_bound(out, list, m, k);
        assert(m * (2 * k - m - 1) + 2 * (k - m - 1) == (m + 1) * (2 * k - (m + 1) - 1))
            by (nonlinear_arith);
    } else {
        assert(0 * (2 * list.len() - 0 - 1) == 0) by (nonlinear_arith);
    }
}

/// No more pairs are joined than there are pairs, and none where there are
/// fewer than two neighbours.
pub proof fn lemma_links_within_total(out: Seq<Seq<Arc>>, list: Seq<usize>)
    ensures
        pair_links(out, list, list.len() as int) <= pair_total(list.len()),
        list.len() < 2 ==> pair_links(out, list, list.len() as int) == 0,
{
    let k = list.len() as int;
    lemma_pair_links_bound(out, list, k);
    assert(k * (2 * k - k - 1) == k * (k - 1)) by (nonlinear_arith);
    if k < 2 {
        assert(k * (k - 1) == 0) by (nonlinear_arith)
            requires
                0 <= k < 2,
        ;
    } else {
        assert(k * (k - 1) / 2 >= 0) by (nonlinear_arith)
            requires
                k >= 2,
        ;
    }
}

/// Whether an edge joins every two of the nodes of `list`.
pub open spec fn all_joined(out: Seq<Seq<Arc>>, list: Seq<usize>) -> bool {
    forall|i: int, j: int|
        0 <= i < j < list.len() ==> joined(out, #[trigger] list[i], #[trigger] list[j])
}

/// Whether no edge joins any two of the nodes of `list`.
pub open spec fn none_joined(out: Seq<Seq<Arc>>, list: Seq<usize>) -> bool {
    forall|i: int, j: int|
        0 <= i < j < list.len() ==> !joined(out, #[trigger] list[i], #[trigger] list[j])
}

/// Number of pairs that the first `upto` of `k` neighbours form with the
/// neighbours behind them.
pub open spec fn pairs_below(k: int, upto: int) -> int
    decreases upto,
{
    if upto <= 0 {
        0
    } else {
        pairs_below(k, upto - 1) + (k - upto)
    }
}

/// The pairs below a position, counted.
pub proof fn lemma_pairs_below(k: int, upto: int)
    requires
        0 <= upto <= k,
    ensures
        2 * pairs_below(k, upto) == upto * (2 * k - upto - 1),
    decreases upto,
{
    if upto > 0 {
        let m = upto - 1;
        lemma_pairs_below(k, m);
        assert(m * (2 * k - m - 1) + 2 * (k - m - 1) == (m + 1) * (2 * k - (m + 1) - 1))
            by (nonlinear_arith);
    } else {
        assert(0 * (2 * k - 0 - 1) == 0) by (nonlinear_arith);
    }
}

/// A row holds no joined pair exactly when no later neighbour is joined to
/// its neighbour, and as many as it has later neighbours exactly when all
/// are.
pub proof fn lemma_row_extremes(out: Seq<Seq<Arc>>, list: Seq<usize>, i: int, upto: int)
    requires
        0 <= i,
        upto <= list.len(),
    ensures
        row_links(out, list, i, upto) == 0 <==> (forall|j: int|
            i < j < upto ==> !joined(out, list[i], #[trigger] list[j])),
        upto > i ==> (row_links(out, list, i, upto) == upto - i - 1 <==> (forall|j: int|
            i < j < upto ==> joined(out, list[i], #[trigger] list[j]))),
    decreases upto - i,
{
    if upto > i + 1 {
        lemma_row_extremes(out, list, i, upto - 1);
        lemma_row_links_bound(out, list, i, upto - 1);
        let here = joined(out, list[i], list[upto - 1]);
        if row_links(out, list, i, upto) == 0 {
            assert forall|j: int| i < j < upto implies !joined(out, list[i], #[trigger] list[j]) by {}
        }
        if row_links(out, list, i, upto) == upto - i - 1 {
            assert forall|j: int| i < j < upto implies joined(out, list[i], #[trigger] list[j]) by {}
        }
        if forall|j: int| i < j < upto ==> !joined(out, list[i], #[trigger] list[j]) {
            assert(!joined(out, list[i], list[upto - 1]));
        }
        if forall|j: int| i < j < upto ==> joined(out, list[i], #[trigger] list[j]) {
            assert(joined(out, list[i], list[upto - 1]));
        }
    }
}

/// The coefficient is zero exactly when no two neighbours are joined, and
/// one exactly when every two are.
pub proof fn lemma_pair_extremes(out: Seq<Seq<Arc>>, list: Seq<usize>, upto: int)
    requires
        0 <= upto <= list.len(),
    ensures
        pair_links(out, list, upto) <= pairs_below(list.len() as int, upto),
        pair_links(out, list, upto) == 0 <==> (forall|i: int, j: int|
            0 <= i < upto && i < j < list.len() ==> !joined(
                out,
                #[trigger] list[i],
                #[trigger] list[j],
            )),
        pair_links(out, list, upto) == pairs_below(list.len() as int, upto) <==> (forall|
            i: int,
            j: int,
        |
            0 <= i < upto && i < j < list.len() ==> joined(
                out,
                #[trigger] list[i],
                #[trigger] list[j],
            )),
    decreases upto,
{
    let k = list.len() as int;
    if upto > 0 {
        let m = upto - 1;
        lemma_pair_extremes(out, list, m);
        lemma_row_extremes(out, list, m, k);
        lemma_row_links_bound(out, list, m, k);
        if pair_links(out, list, upto) == 0 {
            assert forall|i: int, j: int| 0 <= i < upto && i < j < k implies !joined(
                out,
                #[trigger] list[i],
                #[trigger] list[j],
            ) by {}
        }
        if pair_links(out, list, upto) == pairs_below(k, upto) {
            assert forall|i: int, j: int| 0 <= i < upto && i < j < k implies joined(
                out,
                #[trigger] list[i],
                #[trigger] list[j],
            ) by {}
        }
        if forall|i: int, j: int|
            0 <= i < upto && i < j < k ==> !joined(out, #[trigger] list[i], #[trigger] list[j]) {
            assert forall|j: int| m < j < k implies !joined(out, list[m], #[trigger] list[j]) by {}
        }
        if forall|i: int, j: int|
            0 <= i < upto && i < j < k ==> joined(out, #[trigger] list[i], #[trigger] list[j]) {
            assert forall|j: int| m < j < k implies joined(out, list[m], #[trigger] list[j]) by {}
        }
    }
}

/// The distinct members are members, and there are no more of them than
/// members.
pub proof fn lemma_distinct(list: Seq<usize>)
    ensures
        distinct(list).len() <= list.len(),
        distinct(list).no_duplicates(),
        forall|v: usize| #[trigger] distinct(list).contains(v) ==> list.contains(v),
        forall|v: usize| #[trigger] list.contains(v) ==> distinct(list).contains(v),
    decreases list.len(),
{
    if list.len() > 0 {
        let rest = list.drop_last();
        lemma_distinct(rest);
        let d = distinct(rest);
        let all = distinct(list);
        assert forall|v: usize| #[trigger] all.contains(v) implies list.contains(v) by {
            let i = choose|i: int| 0 <= i < all.len() && all[i] == v;
            if i < d.len() {
                assert(d[i] == v);
                assert(d.contains(v));
                assert(rest.contains(v));
                let k = choose|k: int| 0 <= k < rest.len() && rest[k] == v;
                assert(list[k] == v);
            } else {
                assert(list[list.len() - 1] == v);
            }
        }
        assert forall|v: usize| #[trigger] list.contains(v) implies all.contains(v) by {
            let k = choose|k: int| 0 <= k < list.len() && list[k] == v;
            if k < rest.len() {
                assert(rest[k] == v);
                assert(rest.contains(v));
                assert(d.contains(v));
                let i = choose|i: int| 0 <= i < d.len() && d[i] == v;
                assert(all[i] == v);
            } else if d.contains(v) {
                let i = choose|i: int| 0 <= i < d.len() && d[i] == v;
                assert(all[i] == v);
            } else {
                assert(all[d.len() as int] == v);
            }
        }
    }
}

impl CoPurchaseGraph {
    /// The clustering coefficient of a node, as the number of joined
    /// neighbour pairs over the number of neighbour pairs.
    ///
    /// The neighbours of the node are the nodes that it has an edge to, each
    /// counted once; a pair of them is joined when an edge leads from one to
    /// the other, in either direction. The coefficient is zero for a node
    /// with fewer than two neighbours and lies between zero and one
    /// otherwise. The key has to name a node of the graph.
    pub fn clustering_coefficient(&self, key: usize) -> (ratio: Ratio)
        requires
            self.wf(),
            self@.alive(key),
        ensures
            ratio == self@.coefficient(key),
            ratio.in_unit_interval(),
            self@.neighbourhood(key).len() < 2 ==> ratio.is_zero(),
            ratio.is_zero() <==> none_joined(self@.out, self@.neighbourhood(key)),
            ratio.linked == ratio.possible <==> all_joined(self@.out, self@.neighbourhood(key)),
    {
        let a = match self.slot(key) {
            Some(a) => a,
            None => vstd::pervasive::unreached(),
        };
        let walk = self.neighbor_indices(a);
        let mut list: Vec<usize> = Vec::new();
        let mut at: usize = 0;
        while at < walk.len()
            invariant
                at <= walk.len(),
                list@ == distinct(walk@.take(at as int)),
                list.len() <= at,
                forall|j: int| 0 <= j < walk.len() ==> (#[trigger] walk[j]) < self@.keys.len(),
                forall|j: int| 0 <= j < list.len() ==> (#[trigger] list[j]) < self@.keys.len(),
            decreases walk.len() - at,
        {
            proof {
                assert(walk@.take(at + 1).drop_last() =~= walk@.take(at as int));
                assert(walk@.take(at + 1).last() == walk[at as int]);
                lemma_distinct(walk@.take(at as int));
            }
            if !holds_key(&list, walk[at]) {
                list.push(walk[at]);
            }
            at += 1;
        }
        assert(walk@.take(at as int) =~= walk@);
        let k = list.len();
        let mut linked: u64 = 0;
        let mut i: usize = 0;
        while i < k
            invariant
                self.wf(),
                k == list.len(),
                k <= u32::MAX,
                i <= k,
                forall|j: int| 0 <= j < list.len() ==> (#[trigger] list[j]) < self@.keys.len(),
                linked == pair_links(self@.out, list@, i as int),
                linked <= i * k,
            decreases k - i,
        {
            let mut row: u64 = 0;
            let mut j: usize = i + 1;
            while j < k
                invariant
                    self.wf(),
                    k == list.len(),
                    k <= u32::MAX,
                    i < k,
                    i < j <= k,
                    forall|j: int| 0 <= j < list.len() ==> (#[trigger] list[j]) < self@.keys.len(),
                    row == row_links(self@.out, list@, i as int, j as int),
                    row <= j - i - 1,
                decreases k - j,
            {
                if self.arc_exists(list[i], list[j]) || self.arc_exists(list[j], list[i]) {
                    row += 1;
                }
                j += 1;
            }
            assert(i * k + k == (i + 1) * k) by (nonlinear_arith);
            assert((i + 1) * k <= 0xffff_ffff * 0xffff_ffff) by (nonlinear_arith)
                requires
                    i + 1 <= k,
                    k <= 0xffff_ffff,
            ;
            linked += row;
            i += 1;
        }
        proof {
            lemma_links_within_total(self@.out, list@);
            lemma_pair_extremes(self@.out, list@, k as int);
            lemma_pairs_below(k as int, k as int);
            assert(k * (2 * k - k - 1) == k * (k - 1)) by (nonlinear_arith);
            if k >= 2 {
                assert(pairs_below(k as int, k as int) == pair_total(k as nat)) by (nonlinear_arith)
                    requires
                        2 * pairs_below(k as int, k as int) == k * (k - 1),
                        pair_total(k as nat) == (k * (k - 1) / 2) as nat,
                        k >= 2,
                ;
            } else {
                assert(pairs_below(k as int, k as int) == 0) by (nonlinear_arith)
                    requires
                        2 * pairs_below(k as int, k as int) == k * (k - 1),
                        0 <= k < 2,
                ;
            }
        }
        let possible: u64 = if k < 2 {
            0
        } else {
            let wide = k as u64;
            assert(wide * (wide - 1) <= 0xffff_ffff * 0xffff_ffff) by (nonlinear_arith)
                requires
                    2 <= wide <= 0xffff_ffff,
            ;
            wide * (wide - 1) / 2
        };
        Ratio { linked, possible }
    }

    /// The clustering coefficients of the nodes of `component`, in its order.
    /// Every member has to be a node of the graph.
    pub fn component_ratios(&self, component: &Vec<usize>) -> (ratios: Vec<Ratio>)
        requires
            self.wf(),
            forall|i: int| 0 <= i < component.len() ==> self@.alive(#[trigger] component[i]),
        ensures
            ratios@ == coefficients(self@, component@),
            forall|i: int| 0 <= i < ratios.len() ==> (#[trigger] ratios[i]).in_unit_interval(),
    {
        let mut ratios: Vec<Ratio> = Vec::new();
        let mut i: usize = 0;
        while i < component.len()
            invariant
                self.wf(),
                i <= component.len(),
                forall|i: int| 0 <= i < component.len() ==> self@.alive(#[trigger] component[i]),
                ratios@ == coefficients(self@, component@).take(i as int),
                forall|j: int| 0 <= j < ratios.len() ==> (#[trigger] ratios[j]).in_unit_interval(),
            decreases component.len() - i,
        {
            ratios.push(self.clustering_coefficient(component[i]));
            assert(ratios@ =~= coefficients(self@, component@).take(i + 1));
            i += 1;
        }
        assert(coefficients(self@, component@).take(i as int) =~= coefficients(self@, component@));
        ratios
    }
}

/// The clustering coefficient of each node of `component`.
pub open spec fn coefficients(g: GraphView, component: Seq<usize>) -> Seq<Ratio> {
    Seq::new(component.len(), |i: int| g.coefficient(component[i]))
}

} // verus!
