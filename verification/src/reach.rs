//! Paths between nodes, and what removing whole components does to the
//! components that stay.

use crate::graph::GraphView;
use crate::laws::lemma_index_of;
use crate::pruning::{below, SMALL_COMPONENT_FLOOR};
use crate::removal::{lemma_sweep_nothing, lemma_without_keys, members_of};
use crate::store::{covered, grouped, is_walk, sits_at};
use vstd::prelude::*;

verus! {

impl GraphView {
    /// Whether `path` is a non-empty sequence of nodes in which each node has
    /// an edge to the next.
    pub open spec fn is_path(self, path: Seq<usize>) -> bool {
        &&& path.len() > 0
        &&& forall|i: int| 0 <= i < path.len() ==> self.alive(#[trigger] path[i])
        &&& forall|i: int| 0 <= i < path.len() - 1 ==> self.linked(#[trigger] path[i], path[i + 1])
    }

    /// Whether a path leads from the node with key `from` to the node with
    /// key `to`.
    pub open spec fn joined(self, from: usize, to: usize) -> bool {
        exists|path: Seq<usize>| #[trigger] self.is_path(path) && path[0] == from && path.last() == to
    }

    /// Whether each of the two nodes can be reached from the other.
    pub open spec fn same_class(self, x: usize, y: usize) -> bool {
        self.connected(x, y) && self.connected(y, x)
    }

    /// Whether the decomposition of this graph splits its nodes into the
    /// classes of mutual reachability. Every decomposition that
    /// [`CoPurchaseGraph::strongly_connected_components`](crate::graph::CoPurchaseGraph::strongly_connected_components)
    /// returns does.
    pub open spec fn decomposed(self) -> bool {
        &&& self.split_into(self.components())
        &&& forall|x: usize, y: usize|
            self.alive(x) && self.alive(y) ==> (#[trigger] grouped(self.components(), x, y)
                <==> self.same_class(x, y))
    }
}

/// A node is reached along edges exactly when a path leads to it.
pub proof fn lemma_connected_is_joined(g: GraphView, x: usize, y: usize)
    requires
        g.valid(),
    ensures
        g.connected(x, y) <==> g.joined(x, y),
{
    if g.connected(x, y) {
        let ix = g.index_of(x);
        let iy = g.index_of(y);
        assert(0 <= ix < g.keys.len() && g.keys[ix] == x);
        assert(0 <= iy < g.keys.len() && g.keys[iy] == y);
        let walk = choose|walk: Seq<usize>|
            #[trigger] is_walk(g.out, walk) && walk[0] == ix as usize && walk.last() == iy as usize;
        let path = Seq::new(walk.len(), |i: int| g.keys[walk[i] as int]);
        assert forall|i: int| 0 <= i < path.len() implies g.alive(#[trigger] path[i]) by {
            assert(walk[i] < g.out.len());
            lemma_index_of(g, walk[i] as int);
        }
        assert forall|i: int| 0 <= i < path.len() - 1 implies g.linked(
            #[trigger] path[i],
            path[i + 1],
        ) by {
            assert(walk[i] < g.out.len());
            assert(walk[i + 1] < g.out.len());
            lemma_index_of(g, walk[i] as int);
            lemma_index_of(g, walk[i + 1] as int);
            let list = g.out[walk[i] as int];
            assert(crate::store::has_arc_to(list, walk[i + 1]));
        }
        assert(g.is_path(path) && path[0] == x && path.last() == y);
    }
    if g.joined(x, y) {
        let path = choose|path: Seq<usize>|
            #[trigger] g.is_path(path) && path[0] == x && path.last() == y;
        let walk = Seq::new(path.len(), |i: int| g.index_of(path[i]) as usize);
        assert forall|i: int| 0 <= i < walk.len() implies (#[trigger] walk[i]) < g.out.len() by {
            assert(g.alive(path[i]));
            let at = g.keys.index_of(path[i]);
            assert(0 <= at < g.keys.len() && g.keys[at] == path[i]);
        }
        assert forall|i: int| 0 <= i < walk.len() - 1 implies crate::store::has_arc_to(
            #[trigger] g.out[walk[i] as int],
            walk[i + 1],
        ) by {
            assert(g.alive(path[i]));
            assert(g.linked(path[i], path[i + 1]));
            let at = g.keys.index_of(path[i]);
            assert(0 <= at < g.keys.len() && g.keys[at] == path[i]);
            let to = g.keys.index_of(path[i + 1]);
            assert(g.alive(path[i + 1]));
            assert(0 <= to < g.keys.len() && g.keys[to] == path[i + 1]);
        }
        assert(g.alive(path[0]));
        assert(g.alive(path[path.len() - 1]));
        assert(is_walk(g.out, walk) && walk[0] == g.index_of(x) as usize && walk.last() == g.index_of(
            y,
        ) as usize);
    }
}

/// A path to a node and a path from it make a path.
pub proof fn lemma_joined_through(g: GraphView, x: usize, y: usize, z: usize)
    requires
        g.joined(x, y),
        g.joined(y, z),
    ensures
        g.joined(x, z),
{
    let p = choose|path: Seq<usize>| #[trigger] g.is_path(path) && path[0] == x && path.last() == y;
    let q = choose|path: Seq<usize>| #[trigger] g.is_path(path) && path[0] == y && path.last() == z;
    let r = p + q.drop_first();
    assert forall|i: int| 0 <= i < r.len() implies g.alive(#[trigger] r[i]) by {
        if i < p.len() {
            assert(r[i] == p[i]);
        } else {
            assert(r[i] == q[i - p.len() + 1]);
        }
    }
    assert forall|i: int| 0 <= i < r.len() - 1 implies g.linked(#[trigger] r[i], r[i + 1]) by {
        if i < p.len() - 1 {
            assert(r[i] == p[i] && r[i + 1] == p[i + 1]);
        } else if i == p.len() - 1 {
            assert(r[i] == p[i] && r[i + 1] == q[1]);
            assert(g.linked(q[0], q[1]));
        } else {
            let k = i - p.len() + 1;
            assert(r[i] == q[k] && r[i + 1] == q[k + 1]);
        }
    }
    if q.len() == 1 {
        assert(r =~= p);
    } else {
        assert(r.last() == q.last());
    }
    assert(g.is_path(r) && r[0] == x && r.last() == z);
}

/// Every node of a path that leads from `x` to a node from which `x` can be
/// reached again is in the class of `x`.
pub proof fn lemma_path_stays_in_class(g: GraphView, path: Seq<usize>, i: int)
    requires
        g.is_path(path),
        g.joined(path.last(), path[0]),
        0 <= i < path.len(),
    ensures
        g.joined(path[0], path[i]),
        g.joined(path[i], path[0]),
{
    let head = path.take(i + 1);
    assert forall|k: int| 0 <= k < head.len() - 1 implies g.linked(#[trigger] head[k], head[k + 1]) by {
        assert(head[k] == path[k] && head[k + 1] == path[k + 1]);
    }
    assert forall|k: int| 0 <= k < head.len() implies g.alive(#[trigger] head[k]) by {
        assert(head[k] == path[k]);
    }
    assert(g.is_path(head) && head[0] == path[0] && head.last() == path[i]);
    let tail = path.skip(i);
    assert forall|k: int| 0 <= k < tail.len() - 1 implies g.linked(#[trigger] tail[k], tail[k + 1]) by {
        assert(tail[k] == path[i + k] && tail[k + 1] == path[i + k + 1]);
    }
    assert forall|k: int| 0 <= k < tail.len() implies g.alive(#[trigger] tail[k]) by {
        assert(tail[k] == path[i + k]);
    }
    assert(g.is_path(tail) && tail[0] == path[i] && tail.last() == path.last());
    lemma_joined_through(g, path[i], path.last(), path[0]);
}

/// A set of whole components holds, with a node, every node of its class.
pub proof fn lemma_class_shares_fate(g: GraphView, chosen: Seq<bool>, x: usize, y: usize)
    requires
        g.decomposed(),
        g.alive(x),
        g.alive(y),
        g.same_class(x, y),
        members_of(g.components(), chosen).contains(y),
    ensures
        members_of(g.components(), chosen).contains(x),
{
    let parts = g.components();
    let (c, j) = choose|c: int, j: int|
        #[trigger] sits_at(parts, y, c, j) && 0 <= c < chosen.len() && chosen[c];
    assert(grouped(parts, x, y));
    let (d, i, k) = choose|d: int, i: int, k: int|
        #[trigger] sits_at(parts, x, d, i) && #[trigger] sits_at(parts, y, d, k);
    assert(c == d);
    assert(sits_at(parts, x, c, i) && 0 <= c < chosen.len() && chosen[c]);
}

/// Removing whole components leaves the classes of the other nodes as they
/// were: two nodes that stay reach each other afterwards exactly when they
/// did before.
pub proof fn lemma_classes_persist(g: GraphView, chosen: Seq<bool>, x: usize, y: usize)
    requires
        g.valid(),
        g.decomposed(),
        g.without_keys(members_of(g.components(), chosen)).alive(x),
        g.without_keys(members_of(g.components(), chosen)).alive(y),
    ensures
        g.without_keys(members_of(g.components(), chosen)).same_class(x, y) <==> g.same_class(x, y),
{
    let doomed = members_of(g.components(), chosen);
    let h = g.without_keys(doomed);
    lemma_without_keys(g, doomed);
    lemma_connected_is_joined(g, x, y);
    lemma_connected_is_joined(g, y, x);
    lemma_connected_is_joined(h, x, y);
    lemma_connected_is_joined(h, y, x);
    if h.joined(x, y) {
        let path = choose|path: Seq<usize>|
            #[trigger] h.is_path(path) && path[0] == x && path.last() == y;
        lemma_path_carries_back(g, doomed, path);
        assert(g.is_path(path) && path[0] == x && path.last() == y);
    }
    if h.joined(y, x) {
        let path = choose|path: Seq<usize>|
            #[trigger] h.is_path(path) && path[0] == y && path.last() == x;
        lemma_path_carries_back(g, doomed, path);
        assert(g.is_path(path) && path[0] == y && path.last() == x);
    }
    if g.same_class(x, y) {
        lemma_path_survives(g, chosen, x, y);
        lemma_path_survives(g, chosen, y, x);
    }
}

/// A path of the graph after a removal is a path of the graph before it.
pub proof fn lemma_path_carries_back(g: GraphView, doomed: Set<usize>, path: Seq<usize>)
    requires
        g.valid(),
        g.without_keys(doomed).is_path(path),
    ensures
        g.is_path(path),
{
    let h = g.without_keys(doomed);
    lemma_without_keys(g, doomed);
    assert forall|i: int| 0 <= i < path.len() implies g.alive(#[trigger] path[i]) by {
        assert(h.alive(path[i]));
    }
    assert forall|i: int| 0 <= i < path.len() - 1 implies g.linked(#[trigger] path[i], path[i + 1]) by {
        assert(h.linked(path[i], path[i + 1]));
    }
}

/// Two nodes of one class that stay when whole components are removed are
/// still joined by a path afterwards.
pub proof fn lemma_path_survives(g: GraphView, chosen: Seq<bool>, x: usize, y: usize)
    requires
        g.valid(),
        g.decomposed(),
        g.same_class(x, y),
        !members_of(g.components(), chosen).contains(x),
    ensures
        g.without_keys(members_of(g.components(), chosen)).joined(x, y),
{
    let doomed = members_of(g.components(), chosen);
    let h = g.without_keys(doomed);
    lemma_without_keys(g, doomed);
    lemma_connected_is_joined(g, x, y);
    lemma_connected_is_joined(g, y, x);
    let path = choose|path: Seq<usize>| #[trigger] g.is_path(path) && path[0] == x && path.last() == y;
    assert forall|i: int| 0 <= i < path.len() implies !doomed.contains(#[trigger] path[i]) by {
        lemma_path_stays_in_class(g, path, i);
        lemma_connected_is_joined(g, x, path[i]);
        lemma_connected_is_joined(g, path[i], x);
        assert(g.alive(path[i]));
        if doomed.contains(path[i]) {
            lemma_class_shares_fate(g, chosen, x, path[i]);
        }
    }
    assert forall|i: int| 0 <= i < path.len() implies h.alive(#[trigger] path[i]) by {
        assert(g.alive(path[i]) && !doomed.contains(path[i]));
    }
    assert forall|i: int| 0 <= i < path.len() - 1 implies h.linked(#[trigger] path[i], path[i + 1]) by {
        assert(g.linked(path[i], path[i + 1]));
        assert(!doomed.contains(path[i]));
        assert(!doomed.contains(path[i + 1]));
    }
    assert(h.is_path(path) && path[0] == x && path.last() == y);
}

/// No node sits twice in one component.
pub proof fn lemma_component_has_no_duplicates(g: GraphView, c: int)
    requires
        g.decomposed(),
        0 <= c < g.components().len(),
    ensures
        g.components()[c].no_duplicates(),
{
    let part = g.components()[c];
    assert forall|i: int, j: int| 0 <= i < part.len() && 0 <= j < part.len() && i != j implies part[i]
        != part[j] by {
        if part[i] == part[j] {
            assert(sits_at(g.components(), part[i], c, i));
            assert(sits_at(g.components(), part[i], c, j));
        }
    }
}

/// Removing whole components leaves the other components as they were: each
/// component of the graph after the removal has the nodes of a component of
/// the graph before it that was not removed, and so its size.
pub proof fn lemma_components_persist(g: GraphView, chosen: Seq<bool>, after: int) -> (before: int)
    requires
        g.valid(),
        g.decomposed(),
        g.without_keys(members_of(g.components(), chosen)).decomposed(),
        0 <= after < g.without_keys(members_of(g.components(), chosen)).components().len(),
    ensures
        0 <= before < g.components().len(),
        before < chosen.len() ==> !chosen[before],
        g.components()[before].to_set() == g.without_keys(
            members_of(g.components(), chosen),
        ).components()[after].to_set(),
        g.components()[before].len() == g.without_keys(
            members_of(g.components(), chosen),
        ).components()[after].len(),
{
    let doomed = members_of(g.components(), chosen);
    let h = g.without_keys(doomed);
    let gp = g.components();
    let hp = h.components();
    lemma_without_keys(g, doomed);
    let x = hp[after][0];
    assert(sits_at(hp, x, after, 0));
    assert(h.alive(x));
    assert(g.alive(x) && !doomed.contains(x));
    assert(covered(gp, x));
    let (c, i) = choose|c: int, i: int| #[trigger] sits_at(gp, x, c, i);
    if c < chosen.len() && chosen[c] {
        assert(sits_at(gp, x, c, i) && 0 <= c < chosen.len() && chosen[c]);
    }
    let old_set = gp[c].to_set();
    let new_set = hp[after].to_set();
    assert forall|y: usize| old_set.contains(y) implies new_set.contains(y) by {
        let j = choose|j: int| 0 <= j < gp[c].len() && gp[c][j] == y;
        assert(sits_at(gp, y, c, j));
        assert(g.alive(gp[c][j]));
        assert(grouped(gp, x, y));
        assert(g.same_class(x, y));
        if doomed.contains(y) {
            lemma_class_shares_fate(g, chosen, x, y);
        }
        assert(h.alive(y));
        lemma_classes_persist(g, chosen, x, y);
        assert(grouped(hp, x, y));
        let (d, k, m) = choose|d: int, k: int, m: int|
            #[trigger] sits_at(hp, x, d, k) && #[trigger] sits_at(hp, y, d, m);
        assert(d == after);
        assert(hp[after][m] == y);
    }
    assert forall|y: usize| new_set.contains(y) implies old_set.contains(y) by {
        let j = choose|j: int| 0 <= j < hp[after].len() && hp[after][j] == y;
        assert(sits_at(hp, y, after, j));
        assert(h.alive(hp[after][j]));
        assert(grouped(hp, x, y));
        assert(h.same_class(x, y));
        lemma_classes_persist(g, chosen, x, y);
        assert(g.alive(y));
        assert(grouped(gp, x, y));
        let (d, k, m) = choose|d: int, k: int, m: int|
            #[trigger] sits_at(gp, x, d, k) && #[trigger] sits_at(gp, y, d, m);
        assert(d == c);
        assert(gp[c][m] == y);
    }
    assert(old_set =~= new_set);
    lemma_component_has_no_duplicates(g, c);
    lemma_component_has_no_duplicates(h, after);
    gp[c].unique_seq_to_set();
    hp[after].unique_seq_to_set();
    c
}

/// One round of the pruner is final: the components that it leaves are not
/// below the structural floor, so a further round removes nothing.
pub proof fn lemma_pruning_is_final(g: GraphView)
    requires
        g.valid(),
        g.decomposed(),
        g.pruned_once().decomposed(),
    ensures
        g.pruned_once().pruned_once() == g.pruned_once(),
        forall|c: int|
            0 <= c < g.pruned_once().components().len() ==> (#[trigger] g.pruned_once().components()[c]).len()
                >= SMALL_COMPONENT_FLOOR,
{
    let chosen = below(g.components(), SMALL_COMPONENT_FLOOR);
    let h = g.pruned_once();
    let hp = h.components();
    assert forall|c: int| 0 <= c < hp.len() implies (#[trigger] hp[c]).len()
        >= SMALL_COMPONENT_FLOOR by {
        let before = lemma_components_persist(g, chosen, c);
        assert(!chosen[before]);
    }
    let doomed = members_of(hp, below(hp, SMALL_COMPONENT_FLOOR));
    assert forall|j: int| 0 <= j < h.keys.len() implies !doomed.contains(#[trigger] h.keys[j]) by {
        if doomed.contains(h.keys[j]) {
            let (c, i) = choose|c: int, i: int|
                #[trigger] sits_at(hp, h.keys[j], c, i) && 0 <= c < below(
                    hp,
                    SMALL_COMPONENT_FLOOR,
                ).len() && below(hp, SMALL_COMPONENT_FLOOR)[c];
            assert(hp[c].len() >= SMALL_COMPONENT_FLOOR);
        }
    }
    lemma_sweep_nothing(h, doomed, h.keys.len() as int);
}

} // verus!
