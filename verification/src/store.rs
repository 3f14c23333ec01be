//! The adjacency store: a `petgraph` directed graph whose nodes carry a product
//! key and whose edges carry a co-purchase count.
//!
//! Everything in this module that is marked `external_body` is trusted: its
//! contract restates what `petgraph` does and is not proved here. The rest of
//! the crate reasons about the store only through the two models
//! [`node_keys`] and [`out_lists`], and about its decomposition through
//! [`tarjan_order`].

use petgraph::graph::NodeIndex;
use petgraph::visit::EdgeRef;
use vstd::prelude::*;

verus! {

#[verifier::external_type_specification]
#[verifier::external_body]
#[verifier::reject_recursive_types(N)]
#[verifier::reject_recursive_types(E)]
#[verifier::reject_recursive_types(Ty)]
#[verifier::reject_recursive_types(Ix)]
pub struct ExGraph<N, E, Ty, Ix>(petgraph::graph::Graph<N, E, Ty, Ix>);

#[verifier::external_type_specification]
#[verifier::external_body]
pub struct ExDirected(petgraph::Directed);

/// One outgoing edge as the models show it: the index of the node it points
/// to, and its weight.
pub type Arc = (usize, u64);

/// The weight of every node, in node-index order.
pub uninterp spec fn node_keys(g: petgraph::graph::Graph<usize, u64, petgraph::Directed, u32>) -> Seq<usize>;

/// For every node index, the outgoing edges of that node in the order in which
/// `petgraph` walks them.
pub uninterp spec fn out_lists(g: petgraph::graph::Graph<usize, u64, petgraph::Directed, u32>) -> Seq<Seq<Arc>>;

/// The strongly connected components of an adjacency structure, in the order
/// in which `petgraph::algo::tarjan_scc` lists them and their members.
pub uninterp spec fn tarjan_order(out: Seq<Seq<Arc>>) -> Seq<Seq<usize>>;

/// Number of edges held in `out`.
pub open spec fn arc_total(out: Seq<Seq<Arc>>) -> nat
    decreases out.len(),
{
    if out.len() == 0 {
        0
    } else {
        arc_total(out.drop_last()) + out.last().len()
    }
}

/// Position of the first edge of `list` that points to `b`, or the length of
/// `list` when there is none.
pub open spec fn first_arc_to(list: Seq<Arc>, b: usize) -> int
    decreases list.len(),
{
    if list.len() == 0 {
        0
    } else if list[0].0 == b {
        0
    } else {
        1 + first_arc_to(list.drop_first(), b)
    }
}

/// Whether `list` holds an edge that points to `b`.
pub open spec fn has_arc_to(list: Seq<Arc>, b: usize) -> bool {
    exists|j: int| 0 <= j < list.len() && (#[trigger] list[j]).0 == b
}

/// The targets of `list`, in order.
pub open spec fn targets(list: Seq<Arc>) -> Seq<usize> {
    Seq::new(list.len(), |j: int| list[j].0)
}

/// An edge as it stands after node `last` has taken index `gone`.
pub open spec fn moved_arc(e: Arc, gone: usize, last: usize) -> Arc {
    if e.0 == last {
        (gone, e.1)
    } else {
        e
    }
}

/// What is left of one node's outgoing edges after node `gone` is removed and
/// node `last` takes its index: edges into `gone` disappear, edges into `last`
/// now point to `gone`'s index, and the order of the others is kept.
pub open spec fn arcs_after_removal(list: Seq<Arc>, gone: usize, last: usize) -> Seq<Arc>
    decreases list.len(),
{
    if list.len() == 0 {
        list
    } else {
        let before = arcs_after_removal(list.drop_last(), gone, last);
        if list.last().0 == gone {
            before
        } else {
            before.push(moved_arc(list.last(), gone, last))
        }
    }
}

/// The outgoing lists after node `gone` is removed: the last node moves to
/// index `gone`, every other node keeps its index.
pub open spec fn lists_after_removal(out: Seq<Seq<Arc>>, gone: usize) -> Seq<Seq<Arc>>
    recommends
        gone < out.len(),
{
    let last = (out.len() - 1) as usize;
    Seq::new(
        (out.len() - 1) as nat,
        |x: int|
            arcs_after_removal(
                if x == gone {
                    out[last as int]
                } else {
                    out[x]
                },
                gone,
                last,
            ),
    )
}

/// The node keys after node `gone` is removed: the last key moves to index
/// `gone`.
pub open spec fn keys_after_removal(keys: Seq<usize>, gone: usize) -> Seq<usize>
    recommends
        gone < keys.len(),
{
    keys.update(gone as int, keys.last()).drop_last()
}

/// Whether `walk` is a non-empty sequence of nodes of `out` in which each node
/// has an edge to the next.
pub open spec fn is_walk(out: Seq<Seq<Arc>>, walk: Seq<usize>) -> bool {
    &&& walk.len() > 0
    &&& forall|i: int| 0 <= i < walk.len() ==> (#[trigger] walk[i]) < out.len()
    &&& forall|i: int|
        0 <= i < walk.len() - 1 ==> has_arc_to(#[trigger] out[walk[i] as int], walk[i + 1])
}

/// Whether node `b` can be reached from node `a` along edges of `out`.
pub open spec fn reaches(out: Seq<Seq<Arc>>, a: usize, b: usize) -> bool {
    exists|walk: Seq<usize>| #[trigger] is_walk(out, walk) && walk[0] == a && walk.last() == b
}

/// Whether `v` is member `i` of group `c`.
pub open spec fn sits_at(parts: Seq<Seq<usize>>, v: usize, c: int, i: int) -> bool {
    0 <= c < parts.len() && 0 <= i < parts[c].len() && parts[c][i] == v
}

/// Whether `v` is a member of some group of `parts`.
pub open spec fn covered(parts: Seq<Seq<usize>>, v: usize) -> bool {
    exists|c: int, i: int| #[trigger] sits_at(parts, v, c, i)
}

/// Whether `parts` splits the node indices below `n` into non-empty groups:
/// every member is below `n`, and every index below `n` sits at exactly one
/// place.
pub open spec fn splits_nodes(parts: Seq<Seq<usize>>, n: nat) -> bool {
    &&& forall|c: int| 0 <= c < parts.len() ==> (#[trigger] parts[c]).len() > 0
    &&& forall|c: int, i: int|
        0 <= c < parts.len() && 0 <= i < parts[c].len() ==> (#[trigger] parts[c][i]) < n
    &&& forall|v: usize| v < n ==> #[trigger] covered(parts, v)
    &&& forall|v: usize, c: int, i: int, d: int, j: int|
        #[trigger] sits_at(parts, v, c, i) && #[trigger] sits_at(parts, v, d, j) ==> c == d && i
            == j
}

/// Whether `a` and `b` are members of one group of `parts`.
pub open spec fn grouped(parts: Seq<Seq<usize>>, a: usize, b: usize) -> bool {
    exists|c: int, i: int, j: int| #[trigger] sits_at(parts, a, c, i) && #[trigger] sits_at(parts, b, c, j)
}

/// Whether the groups of `parts` are the classes of mutual reachability in
/// `out`: two nodes share a group exactly when each reaches the other.
pub open spec fn groups_by_reach(parts: Seq<Seq<usize>>, out: Seq<Seq<Arc>>) -> bool {
    forall|a: usize, b: usize|
        a < out.len() && b < out.len() ==> (#[trigger] grouped(parts, a, b) <==> reaches(out, a, b)
            && reaches(out, b, a))
}

/// The rows of a nested vector as sequences.
pub open spec fn rows(v: Vec<Vec<usize>>) -> Seq<Seq<usize>> {
    Seq::new(v.len() as nat, |c: int| v[c]@)
}

/// `Graph::new`: the graph starts with no node and no edge.
#[verifier::external_body]
pub(crate) fn store_new() -> (g: petgraph::graph::Graph<usize, u64, petgraph::Directed, u32>)
    ensures
        node_keys(g) == Seq::<usize>::empty(),
        out_lists(g) == Seq::<Seq<Arc>>::empty(),
{
    petgraph::graph::Graph::new()
}

/// `Clone::clone` of a graph: the copy has the same nodes, in the same order,
/// with the same outgoing edges.
#[verifier::external_body]
pub(crate) fn store_clone(g: &petgraph::graph::Graph<usize, u64, petgraph::Directed, u32>) -> (copy:
    petgraph::graph::Graph<usize, u64, petgraph::Directed, u32>)
    ensures
        node_keys(copy) == node_keys(*g),
        out_lists(copy) == out_lists(*g),
{
    g.clone()
}

/// `Graph::node_count`: the number of nodes, which the `u32` indices keep at
/// `u32::MAX` or below.
#[verifier::external_body]
pub(crate) fn store_node_count(g: &petgraph::graph::Graph<usize, u64, petgraph::Directed, u32>) -> (n:
    usize)
    ensures
        n == node_keys(*g).len(),
        n <= u32::MAX,
{
    g.node_count()
}

/// `Graph::edge_count`: the number of edges, which is the total length of the
/// outgoing lists and which the `u32` indices keep at `u32::MAX` or below.
#[verifier::external_body]
pub(crate) fn store_edge_count(g: &petgraph::graph::Graph<usize, u64, petgraph::Directed, u32>) -> (n:
    usize)
    ensures
        n == arc_total(out_lists(*g)),
        n <= u32::MAX,
{
    g.edge_count()
}

/// Indexing a graph by a node index: the weight of that node. It panics for
/// an index that names no node, which `requires` rules out.
#[verifier::external_body]
pub(crate) fn store_key(g: &petgraph::graph::Graph<usize, u64, petgraph::Directed, u32>, a: usize) -> (key:
    usize)
    requires
        a < node_keys(*g).len(),
    ensures
        key == node_keys(*g)[a as int],
{
    g[NodeIndex::new(a)]
}

/// `Graph::add_node`: the new node gets the next index, its weight is put
/// last, and it has no edge. It panics when the graph already holds
/// `u32::MAX` nodes, which `requires` rules out.
#[verifier::external_body]
pub(crate) fn store_add_node(
    g: &mut petgraph::graph::Graph<usize, u64, petgraph::Directed, u32>,
    key: usize,
) -> (ix: usize)
    requires
        node_keys(*old(g)).len() < u32::MAX,
    ensures
        ix == node_keys(*old(g)).len(),
        node_keys(*final(g)) == node_keys(*old(g)).push(key),
        out_lists(*final(g)) == out_lists(*old(g)).push(Seq::<Arc>::empty()),
{
    g.add_node(key).index()
}

/// `Graph::add_edge`: the new edge becomes the first outgoing edge of `a`,
/// also when `a` already has an edge to `b`; nothing else changes. It panics
/// for a missing node or when the graph already holds `u32::MAX` edges, which
/// `requires` rules out.
#[verifier::external_body]
pub(crate) fn store_add_edge(
    g: &mut petgraph::graph::Graph<usize, u64, petgraph::Directed, u32>,
    a: usize,
    b: usize,
    weight: u64,
)
    requires
        a < node_keys(*old(g)).len(),
        b < node_keys(*old(g)).len(),
        arc_total(out_lists(*old(g))) < u32::MAX,
    ensures
        node_keys(*final(g)) == node_keys(*old(g)),
        out_lists(*final(g)) == out_lists(*old(g)).update(
            a as int,
            seq![(b, weight)] + out_lists(*old(g))[a as int],
        ),
{
    g.add_edge(NodeIndex::new(a), NodeIndex::new(b), weight);
}

/// `Graph::update_edge`: where `a` has an edge to `b`, the first such edge
/// gets the new weight and keeps its place; otherwise the edge is added as
/// `Graph::add_edge` adds it.
#[verifier::external_body]
pub(crate) fn store_update_edge(
    g: &mut petgraph::graph::Graph<usize, u64, petgraph::Directed, u32>,
    a: usize,
    b: usize,
    weight: u64,
)
    requires
        a < node_keys(*old(g)).len(),
        b < node_keys(*old(g)).len(),
        has_arc_to(out_lists(*old(g))[a as int], b) || arc_total(out_lists(*old(g))) < u32::MAX,
    ensures
        node_keys(*final(g)) == node_keys(*old(g)),
        out_lists(*final(g)) == out_lists(*old(g)).update(
            a as int,
            if has_arc_to(out_lists(*old(g))[a as int], b) {
                out_lists(*old(g))[a as int].update(
                    first_arc_to(out_lists(*old(g))[a as int], b),
                    (b, weight),
                )
            } else {
                seq![(b, weight)] + out_lists(*old(g))[a as int]
            },
        ),
{
    g.update_edge(NodeIndex::new(a), NodeIndex::new(b), weight);
}

/// `Graph::edges`: the outgoing edges of `a`, each given as its target index
/// and its weight, in the order of the walk.
#[verifier::external_body]
pub(crate) fn store_out_edges(
    g: &petgraph::graph::Graph<usize, u64, petgraph::Directed, u32>,
    a: usize,
) -> (list: Vec<Arc>)
    requires
        a < node_keys(*g).len(),
    ensures
        list@ == out_lists(*g)[a as int],
{
    g.edges(NodeIndex::new(a)).map(|e| (e.target().index(), *e.weight())).collect()
}

/// `Graph::neighbors`: the targets of the outgoing edges of `a`, one per edge,
/// in the order of the walk.
#[verifier::external_body]
pub(crate) fn store_neighbors(
    g: &petgraph::graph::Graph<usize, u64, petgraph::Directed, u32>,
    a: usize,
) -> (list: Vec<usize>)
    requires
        a < node_keys(*g).len(),
    ensures
        list@ == targets(out_lists(*g)[a as int]),
{
    g.neighbors(NodeIndex::new(a)).map(|n| n.index()).collect()
}

/// `Graph::contains_edge`: whether `a` has an outgoing edge to `b`.
#[verifier::external_body]
pub(crate) fn store_contains_edge(
    g: &petgraph::graph::Graph<usize, u64, petgraph::Directed, u32>,
    a: usize,
    b: usize,
) -> (found: bool)
    requires
        a < node_keys(*g).len(),
        b < node_keys(*g).len(),
    ensures
        found == has_arc_to(out_lists(*g)[a as int], b),
{
    g.contains_edge(NodeIndex::new(a), NodeIndex::new(b))
}

/// `Graph::find_edge`, and the weight of the edge found: the weight of the
/// first outgoing edge of `a` that points to `b`, if `a` has such an edge.
#[verifier::external_body]
pub(crate) fn store_first_weight(
    g: &petgraph::graph::Graph<usize, u64, petgraph::Directed, u32>,
    a: usize,
    b: usize,
) -> (found: Option<u64>)
    requires
        a < node_keys(*g).len(),
        b < node_keys(*g).len(),
    ensures
        found is Some <==> has_arc_to(out_lists(*g)[a as int], b),
        found is Some ==> found->0 == out_lists(*g)[a as int][first_arc_to(
            out_lists(*g)[a as int],
            b,
        )].1,
{
    g.find_edge(NodeIndex::new(a), NodeIndex::new(b)).and_then(|e| g.edge_weight(e).copied())
}

/// `Graph::remove_node`: node `a` leaves with every edge from or to it, the
/// last node takes index `a`, and the remaining edges of every node keep their
/// order.
#[verifier::external_body]
pub(crate) fn store_remove_node(
    g: &mut petgraph::graph::Graph<usize, u64, petgraph::Directed, u32>,
    a: usize,
)
    requires
        a < node_keys(*old(g)).len(),
    ensures
        node_keys(*final(g)) == keys_after_removal(node_keys(*old(g)), a),
        out_lists(*final(g)) == lists_after_removal(out_lists(*old(g)), a),
{
    g.remove_node(NodeIndex::new(a));
}

/// `petgraph::algo::tarjan_scc`: the strongly connected components. The list
/// depends on the outgoing lists alone; it splits the nodes; and two nodes
/// share a component exactly when each can be reached from the other.
#[verifier::external_body]
pub(crate) fn store_components(
    g: &petgraph::graph::Graph<usize, u64, petgraph::Directed, u32>,
) -> (parts: Vec<Vec<usize>>)
    ensures
        rows(parts) == tarjan_order(out_lists(*g)),
        splits_nodes(rows(parts), out_lists(*g).len()),
        groups_by_reach(rows(parts), out_lists(*g)),
{
    petgraph::algo::tarjan_scc(g).into_iter().map(
        |part| part.into_iter().map(|n| n.index()).collect(),
    ).collect()
}

} // verus!
