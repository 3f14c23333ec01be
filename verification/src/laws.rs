//! Laws that relate several operations of the library.

use crate::clustering::{distinct, joined, lemma_distinct, pair_links, row_links};
use crate::filter::low;
use crate::graph::{
    co_purchase_outcome, lemma_first_arc_at, lemma_with_arc_valid, lemma_with_weight_valid,
    GraphView,
};
use crate::removal::{lemma_without_keys, members_of};
use crate::tally::{in_row, in_rows, is_pair, lemma_rows_hold_both};
use crate::store::{first_arc_to, has_arc_to, sits_at, targets, Arc};
use vstd::prelude::*;
use vstd::set_lib::lemma_len_subset;

verus! {

/// Where a list holds an edge to `b`, the first such edge stands at
/// `first_arc_to`, and no edge before it points to `b`.
pub proof fn lemma_first_arc(list: Seq<Arc>, b: usize)
    requires
        has_arc_to(list, b),
    ensures
        0 <= first_arc_to(list, b) < list.len(),
        list[first_arc_to(list, b)].0 == b,
        forall|i: int| 0 <= i < first_arc_to(list, b) ==> (#[trigger] list[i]).0 != b,
    decreases list.len(),
{
    let j = choose|j: int| 0 <= j < list.len() && (#[trigger] list[j]).0 == b;
    if list[0].0 != b {
        let rest = list.drop_first();
        assert(rest[j - 1] == list[j]);
        lemma_first_arc(rest, b);
        assert forall|i: int| 0 <= i < first_arc_to(list, b) implies (#[trigger] list[i]).0 != b by {
            if i > 0 {
                assert(rest[i - 1] == list[i]);
            }
        }
        assert(rest[first_arc_to(rest, b)] == list[first_arc_to(rest, b) + 1]);
    }
}

/// In a valid graph a key stands at one index only.
pub proof fn lemma_index_of(g: GraphView, i: int)
    requires
        g.valid(),
        0 <= i < g.keys.len(),
    ensures
        g.alive(g.keys[i]),
        g.index_of(g.keys[i]) == i,
{
    let key = g.keys[i];
    assert(g.keys.contains(key));
    let j = g.keys.index_of(key);
    assert(0 <= j < g.keys.len() && g.keys[j] == key);
}

impl GraphView {
    /// The weight between two nodes, whatever the direction: the weight from
    /// `x` to `y` and the weight from `y` to `x` together.
    pub open spec fn between(self, x: usize, y: usize) -> nat {
        self.weight(x, y) + self.weight(y, x)
    }

    /// The direction in which one more co-purchase of `from` and `to` raises
    /// a weight: that of the edge that joins the two nodes, and from `from`
    /// to `to` where no edge joins them.
    pub open spec fn raised_pair(self, from: usize, to: usize) -> (usize, usize) {
        if !self.linked(from, to) && self.linked(to, from) {
            (to, from)
        } else {
            (from, to)
        }
    }

    /// Whether the graph has at most one edge between any two nodes, the two
    /// directions taken together.
    pub open spec fn simple(self) -> bool {
        &&& forall|i: int| 0 <= i < self.out.len() ==> (#[trigger] targets(self.out[i])).no_duplicates()
        &&& forall|i: int, j: int|
            0 <= i < self.out.len() && 0 <= j < self.out.len() ==> !(#[trigger] has_arc_to(
                self.out[i],
                j as usize,
            ) && #[trigger] has_arc_to(self.out[j], i as usize))
    }
}

/// Lists with the same targets hold an edge to the same nodes, and the first
/// edge to a node at the same place.
pub proof fn lemma_first_arc_by_targets(one: Seq<Arc>, other: Seq<Arc>, t: usize)
    requires
        targets(one) == targets(other),
    ensures
        has_arc_to(one, t) == has_arc_to(other, t),
        first_arc_to(one, t) == first_arc_to(other, t),
    decreases one.len(),
{
    assert(one.len() == targets(one).len());
    assert(other.len() == targets(other).len());
    if has_arc_to(one, t) {
        let j = choose|j: int| 0 <= j < one.len() && (#[trigger] one[j]).0 == t;
        assert(targets(one)[j] == t);
        assert(targets(other)[j] == other[j].0);
    }
    if has_arc_to(other, t) {
        let j = choose|j: int| 0 <= j < other.len() && (#[trigger] other[j]).0 == t;
        assert(targets(other)[j] == t);
        assert(targets(one)[j] == one[j].0);
    }
    if one.len() > 0 {
        assert(targets(one)[0] == one[0].0);
        assert(targets(other)[0] == other[0].0);
        assert(targets(one.drop_first()) =~= targets(one).drop_first());
        assert(targets(other.drop_first()) =~= targets(other).drop_first());
        lemma_first_arc_by_targets(one.drop_first(), other.drop_first(), t);
    }
}

/// Raising the first edge from node `a` to node `b` changes that weight and
/// no other, and no edge.
pub proof fn lemma_raised(g: GraphView, a: int, b: int, i: int, t: usize)
    requires
        g.valid(),
        0 <= a < g.keys.len(),
        0 <= b < g.keys.len(),
        0 <= i < g.keys.len(),
        has_arc_to(g.out[a], b as usize),
        g.first_weight(a, b) < u64::MAX,
    ensures
        g.raised(a, b).valid(),
        g.raised(a, b).keys == g.keys,
        g.raised(a, b).products == g.products,
        targets(g.raised(a, b).out[i]) == targets(g.out[i]),
        has_arc_to(g.raised(a, b).out[i], t) == has_arc_to(g.out[i], t),
        has_arc_to(g.out[i], t) ==> g.raised(a, b).first_weight(i, t as int) == (if i == a && t == b {
            g.first_weight(a, b) + 1
        } else {
            g.first_weight(i, t as int) as int
        }),
{
    let h = g.raised(a, b);
    let list = g.out[a];
    lemma_first_arc(list, b as usize);
    let j = first_arc_to(list, b as usize);
    lemma_with_weight_valid(g, a, j, (list[j].1 + 1) as u64);
    if i == a {
        assert(targets(h.out[a]) =~= targets(list));
        lemma_first_arc_by_targets(h.out[a], list, t);
        if has_arc_to(list, t) {
            lemma_first_arc(list, t);
        }
    } else {
        assert(h.out[i] == g.out[i]);
    }
}

/// A new edge from node `a` to node `b`, where there was none, changes no
/// other edge and no weight.
pub proof fn lemma_new_arc(g: GraphView, a: int, b: int, weight: u64, i: int, t: usize)
    requires
        g.valid(),
        0 <= a < g.keys.len(),
        0 <= b < g.keys.len(),
        0 <= i < g.keys.len(),
        a != b,
        weight >= 1,
        !has_arc_to(g.out[a], b as usize),
    ensures
        g.with_arc(a, b, weight).valid(),
        has_arc_to(g.with_arc(a, b, weight).out[i], t) == (has_arc_to(g.out[i], t) || (i == a && t
            == b)),
        has_arc_to(g.out[i], t) ==> g.with_arc(a, b, weight).first_weight(i, t as int)
            == g.first_weight(i, t as int),
        g.with_arc(a, b, weight).first_weight(a, b) == weight,
{
    let h = g.with_arc(a, b, weight);
    let list = g.out[a];
    let after = h.out[a];
    lemma_with_arc_valid(g, a, b, weight);
    assert(after[0] == (b as usize, weight));
    assert(after.drop_first() =~= list);
    if i == a {
        if has_arc_to(list, t) {
            let k = choose|k: int| 0 <= k < list.len() && (#[trigger] list[k]).0 == t;
            assert(after[k + 1] == list[k]);
        }
        if has_arc_to(after, t) && t != b {
            let k = choose|k: int| 0 <= k < after.len() && (#[trigger] after[k]).0 == t;
            assert(after[k] == list[k - 1]);
        }
        if has_arc_to(list, t) {
            lemma_first_arc(list, t);
            assert(after[first_arc_to(list, t) + 1] == list[first_arc_to(list, t)]);
        }
    } else {
        assert(h.out[i] == g.out[i]);
    }
}

/// One more co-purchase of two different products raises one weight by 1,
/// that of [`GraphView::raised_pair`], and changes no other weight. It makes
/// an edge only where none joined the two nodes, and it takes none away.
pub proof fn lemma_co_purchase_adds_one(g: GraphView, from: usize, to: usize, x: usize, y: usize)
    requires
        g.valid(),
        from != to,
        co_purchase_outcome(g, from, to) is Ok,
    ensures
        g.co_purchased(from, to).valid(),
        g.co_purchased(from, to).keys == g.keys,
        g.co_purchased(from, to).products == g.products,
        g.co_purchased(from, to).linked(x, y) == (g.linked(x, y) || ((x, y) == (from, to)
            && !g.linked(to, from))),
        g.co_purchased(from, to).weight(x, y) == g.weight(x, y) + (if (x, y) == g.raised_pair(
            from,
            to,
        ) {
            1nat
        } else {
            0nat
        }),
{
    let h = g.co_purchased(from, to);
    let a = g.index_of(from);
    let b = g.index_of(to);
    assert(0 <= a < g.keys.len() && g.keys[a] == from);
    assert(0 <= b < g.keys.len() && g.keys[b] == to);
    if g.alive(x) && g.alive(y) {
        let i = g.index_of(x);
        let t = g.index_of(y);
        assert(0 <= i < g.keys.len() && g.keys[i] == x);
        assert(0 <= t < g.keys.len() && g.keys[t] == y);
        if has_arc_to(g.out[a], b as usize) {
            lemma_raised(g, a, b, i, t as usize);
        } else if has_arc_to(g.out[b], a as usize) {
            lemma_raised(g, b, a, i, t as usize);
        } else {
            lemma_new_arc(g, a, b, 1, i, t as usize);
        }
    } else {
        if has_arc_to(g.out[a], b as usize) {
            lemma_raised(g, a, b, a, b as usize);
        } else if has_arc_to(g.out[b], a as usize) {
            lemma_raised(g, b, a, a, b as usize);
        } else {
            lemma_new_arc(g, a, b, 1, a, b as usize);
        }
    }
}

/// A new edge between two nodes that none joined adds 1 to the joined pairs
/// of a row that holds the two, and nothing to those of another row.
pub proof fn lemma_row_gains(
    g: GraphView,
    a: int,
    b: int,
    weight: u64,
    list: Seq<usize>,
    i: int,
    upto: int,
)
    requires
        g.valid(),
        0 <= a < g.keys.len(),
        0 <= b < g.keys.len(),
        a != b,
        weight >= 1,
        !joined(g.out, a as usize, b as usize),
        list.no_duplicates(),
        forall|m: int| 0 <= m < list.len() ==> (#[trigger] list[m]) < g.keys.len(),
        0 <= i < list.len(),
        upto <= list.len(),
    ensures
        row_links(g.with_arc(a, b, weight).out, list, i, upto) == row_links(g.out, list, i, upto) + (
        if in_row(list, i, upto, a as usize, b as usize) {
            1nat
        } else {
            0nat
        }),
    decreases upto - i,
{
    let h = g.with_arc(a, b, weight);
    if upto > i + 1 {
        lemma_row_gains(g, a, b, weight, list, i, upto - 1);
        let p = list[i];
        let q = list[upto - 1];
        assert(p != q);
        lemma_new_arc(g, a, b, weight, p as int, q);
        lemma_new_arc(g, a, b, weight, q as int, p);
        assert(joined(h.out, p, q) == (joined(g.out, p, q) || is_pair(p, q, a as usize, b as usize)));
        if in_row(list, i, upto - 1, a as usize, b as usize) {
            let j = choose|j: int|
                i < j < upto - 1 && j < list.len() && is_pair(
                    list[i],
                    #[trigger] list[j],
                    a as usize,
                    b as usize,
                );
            assert(is_pair(list[i], list[j], a as usize, b as usize));
            assert(in_row(list, i, upto, a as usize, b as usize));
            if is_pair(p, q, a as usize, b as usize) {
                assert(list[j] == list[upto - 1]);
            }
        }
        if is_pair(p, q, a as usize, b as usize) {
            assert(is_pair(list[i], list[upto - 1], a as usize, b as usize));
            assert(in_row(list, i, upto, a as usize, b as usize));
        }
        if in_row(list, i, upto, a as usize, b as usize) {
            let j = choose|j: int|
                i < j < upto && j < list.len() && is_pair(
                    list[i],
                    #[trigger] list[j],
                    a as usize,
                    b as usize,
                );
            if j < upto - 1 {
                assert(in_row(list, i, upto - 1, a as usize, b as usize));
            }
        }
    } else {
        if in_row(list, i, upto, a as usize, b as usize) {
            let j = choose|j: int|
                i < j < upto && j < list.len() && is_pair(
                    list[i],
                    #[trigger] list[j],
                    a as usize,
                    b as usize,
                );
        }
    }
}

/// A new edge between two nodes that none joined adds 1 to the joined pairs
/// of a list that holds the two, and nothing to those of another list.
pub proof fn lemma_pairs_gain(
    g: GraphView,
    a: int,
    b: int,
    weight: u64,
    list: Seq<usize>,
    upto: int,
)
    requires
        g.valid(),
        0 <= a < g.keys.len(),
        0 <= b < g.keys.len(),
        a != b,
        weight >= 1,
        !joined(g.out, a as usize, b as usize),
        list.no_duplicates(),
        forall|m: int| 0 <= m < list.len() ==> (#[trigger] list[m]) < g.keys.len(),
        0 <= upto <= list.len(),
    ensures
        pair_links(g.with_arc(a, b, weight).out, list, upto) == pair_links(g.out, list, upto) + (
        if in_rows(list, upto, a as usize, b as usize) {
            1nat
        } else {
            0nat
        }),
    decreases upto,
{
    let n = list.len() as int;
    let (x, y) = (a as usize, b as usize);
    if upto > 0 {
        lemma_pairs_gain(g, a, b, weight, list, upto - 1);
        lemma_row_gains(g, a, b, weight, list, upto - 1, n);
        if in_rows(list, upto - 1, x, y) {
            let i = choose|i: int|
                0 <= i < upto - 1 && i < list.len() && #[trigger] in_row(list, i, n, x, y);
            assert(in_row(list, i, n, x, y));
            assert(in_rows(list, upto, x, y));
            if in_row(list, upto - 1, n, x, y) {
                let j = choose|j: int|
                    i < j < n && j < list.len() && is_pair(list[i], #[trigger] list[j], x, y);
                let k = choose|k: int|
                    upto - 1 < k < n && k < list.len() && is_pair(
                        list[upto - 1],
                        #[trigger] list[k],
                        x,
                        y,
                    );
                assert(list[i] == list[upto - 1] || list[i] == list[k]);
                assert(list[j] == list[upto - 1] || list[j] == list[k]);
            }
        }
        if in_row(list, upto - 1, n, x, y) {
            assert(in_rows(list, upto, x, y));
        }
        if in_rows(list, upto, x, y) {
            let i = choose|i: int|
                0 <= i < upto && i < list.len() && #[trigger] in_row(list, i, n, x, y);
            if i < upto - 1 {
                assert(in_rows(list, upto - 1, x, y));
            }
        }
    } else {
        if in_rows(list, upto, x, y) {
            let i = choose|i: int|
                0 <= i < upto && i < list.len() && #[trigger] in_row(list, i, n, x, y);
        }
    }
}

/// A new edge between two neighbours of a node that no edge joined raises the
/// clustering coefficient of the node: one more pair is joined, of as many
/// pairs as before. A new edge between two nodes that are not both its
/// neighbours leaves the coefficient as it was. The edge does not start at
/// the node itself, so the node keeps its neighbours.
pub proof fn lemma_joining_raises(g: GraphView, key: usize, a: int, b: int, weight: u64)
    requires
        g.valid(),
        g.alive(key),
        0 <= a < g.keys.len(),
        0 <= b < g.keys.len(),
        a != b,
        a != g.index_of(key),
        weight >= 1,
        !joined(g.out, a as usize, b as usize),
    ensures
        g.with_arc(a, b, weight).neighbourhood(key) == g.neighbourhood(key),
        pair_links(
            g.with_arc(a, b, weight).out,
            g.neighbourhood(key),
            g.neighbourhood(key).len() as int,
        ) == pair_links(g.out, g.neighbourhood(key), g.neighbourhood(key).len() as int) + (
        if g.neighbourhood(key).contains(a as usize) && g.neighbourhood(key).contains(b as usize) {
            1nat
        } else {
            0nat
        }),
{
    let h = g.with_arc(a, b, weight);
    let at = g.index_of(key);
    assert(0 <= at < g.keys.len() && g.keys[at] == key);
    assert(h.out[at] == g.out[at]);
    let walk = targets(g.out[at]);
    let list = g.neighbourhood(key);
    lemma_distinct(walk);
    assert forall|m: int| 0 <= m < list.len() implies (#[trigger] list[m]) < g.keys.len() by {
        assert(list.contains(list[m]));
        assert(walk.contains(list[m]));
        let w = choose|w: int| 0 <= w < walk.len() && walk[w] == list[m];
        assert(g.out[at][w].0 < g.keys.len());
    }
    lemma_pairs_gain(g, a, b, weight, list, list.len() as int);
    lemma_rows_hold_both(list, a as usize, b as usize);
}

/// Raising the threshold of the coefficient filter never lets a node stay
/// that the lower threshold removed, so it never leaves more nodes.
pub proof fn lemma_threshold_monotone(g: GraphView, scores: Seq<u64>, lower: u64, higher: u64)
    requires
        g.valid(),
        lower <= higher,
    ensures
        forall|key: usize|
            g.without_low_components(scores, higher).alive(key) ==> g.without_low_components(
                scores,
                lower,
            ).alive(key),
        g.without_low_components(scores, higher).keys.len() <= g.without_low_components(
            scores,
            lower,
        ).keys.len(),
{
    let parts = g.components();
    let few = members_of(parts, low(parts, scores, lower));
    let many = members_of(parts, low(parts, scores, higher));
    let strict = g.without_low_components(scores, higher);
    let mild = g.without_low_components(scores, lower);
    lemma_without_keys(g, few);
    lemma_without_keys(g, many);
    assert forall|key: usize| few.contains(key) implies many.contains(key) by {
        let (c, i) = choose|c: int, i: int|
            #[trigger] sits_at(parts, key, c, i) && 0 <= c < low(parts, scores, lower).len() && low(
                parts,
                scores,
                lower,
            )[c];
        assert(sits_at(parts, key, c, i) && 0 <= c < low(parts, scores, higher).len() && low(
            parts,
            scores,
            higher,
        )[c]);
    }
    assert(strict == g.without_keys(many));
    assert(mild == g.without_keys(few));
    assert forall|key: usize| strict.alive(key) implies mild.alive(key) by {
        assert(g.alive(key) && !many.contains(key));
        assert(!few.contains(key));
    }
    strict.keys.unique_seq_to_set();
    mild.keys.unique_seq_to_set();
    assert(strict.keys.to_set().subset_of(mild.keys.to_set())) by {
        assert forall|key: usize| strict.keys.to_set().contains(key) implies mild.keys.to_set().contains(
            key,
        ) by {
            assert(strict.alive(key));
        }
    }
    lemma_len_subset(strict.keys.to_set(), mild.keys.to_set());
}

} // verus!
