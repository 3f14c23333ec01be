//! Decomposition of the graph into strongly connected components.

use crate::graph::{CoPurchaseGraph, GraphView};
use crate::store::{covered, grouped, groups_by_reach, rows, sits_at, splits_nodes, tarjan_order};
use vstd::prelude::*;

verus! {

/// The number of members of all groups together.
pub open spec fn total_size(parts: Seq<Seq<usize>>) -> nat
    decreases parts.len(),
{
    if parts.len() == 0 {
        0
    } else {
        total_size(parts.drop_last()) + parts.last().len()
    }
}

/// The members of the first `upto` groups.
pub open spec fn members_upto(parts: Seq<Seq<usize>>, upto: int) -> Set<usize>
    decreases upto,
{
    if upto <= 0 {
        Set::empty()
    } else {
        members_upto(parts, upto - 1) + parts[upto - 1].to_set()
    }
}

/// Where no member sits at two places, the first groups have as many members
/// as their sizes add up to.
pub proof fn lemma_members_upto(parts: Seq<Seq<usize>>, upto: int)
    requires
        0 <= upto <= parts.len(),
        forall|key: usize, c: int, i: int, d: int, j: int|
            #[trigger] sits_at(parts, key, c, i) && #[trigger] sits_at(parts, key, d, j) ==> c == d
                && i == j,
    ensures
        members_upto(parts, upto).finite(),
        members_upto(parts, upto).len() == total_size(parts.take(upto)),
        forall|key: usize|
            members_upto(parts, upto).contains(key) <==> exists|c: int, i: int|
                #[trigger] sits_at(parts, key, c, i) && c < upto,
    decreases upto,
{
    if upto > 0 {
        let part = parts[upto - 1];
        let before = members_upto(parts, upto - 1);
        lemma_members_upto(parts, upto - 1);
        vstd::seq_lib::seq_to_set_is_finite(part);
        assert(part.no_duplicates()) by {
            assert forall|i: int, j: int| 0 <= i < part.len() && 0 <= j < part.len() && i
                != j implies part[i] != part[j] by {
                if part[i] == part[j] {
                    assert(sits_at(parts, part[i], upto - 1, i));
                    assert(sits_at(parts, part[i], upto - 1, j));
                }
            }
        }
        part.unique_seq_to_set();
        assert(before.disjoint(part.to_set())) by {
            assert forall|key: usize| !(before.contains(key) && part.to_set().contains(key)) by {
                if before.contains(key) && part.to_set().contains(key) {
                    let (c, i) = choose|c: int, i: int| #[trigger] sits_at(parts, key, c, i) && c < upto - 1;
                    let j = choose|j: int| 0 <= j < part.len() && part[j] == key;
                    assert(sits_at(parts, key, upto - 1, j));
                }
            }
        }
        vstd::set_lib::lemma_set_disjoint_lens(before, part.to_set());
        assert(parts.take(upto).drop_last() =~= parts.take(upto - 1));
        assert(parts.take(upto).last() == part);
        assert forall|key: usize|
            members_upto(parts, upto).contains(key) <==> exists|c: int, i: int|
                #[trigger] sits_at(parts, key, c, i) && c < upto by {
            if members_upto(parts, upto).contains(key) {
                if before.contains(key) {
                    let (c, i) = choose|c: int, i: int| #[trigger] sits_at(parts, key, c, i) && c < upto - 1;
                    assert(sits_at(parts, key, c, i) && c < upto);
                } else {
                    let j = choose|j: int| 0 <= j < part.len() && part[j] == key;
                    assert(sits_at(parts, key, upto - 1, j) && upto - 1 < upto);
                }
            }
            if exists|c: int, i: int| #[trigger] sits_at(parts, key, c, i) && c < upto {
                let (c, i) = choose|c: int, i: int| #[trigger] sits_at(parts, key, c, i) && c < upto;
                if c < upto - 1 {
                    assert(sits_at(parts, key, c, i) && c < upto - 1);
                } else {
                    assert(part[i] == key);
                    assert(part.to_set().contains(key));
                }
            }
        }
    } else {
        assert(parts.take(upto) =~= Seq::<Seq<usize>>::empty());
    }
}

/// Groups that split the nodes have as many members, all together, as there
/// are nodes.
pub proof fn lemma_split_covers(g: GraphView, parts: Seq<Seq<usize>>)
    requires
        g.valid(),
        g.split_into(parts),
    ensures
        total_size(parts) == g.keys.len(),
{
    let n = parts.len() as int;
    lemma_members_upto(parts, n);
    let members = members_upto(parts, n);
    assert(parts.take(n) =~= parts);
    g.keys.unique_seq_to_set();
    assert(members =~= g.keys.to_set()) by {
        assert forall|key: usize| members.contains(key) <==> g.keys.to_set().contains(key) by {
            if members.contains(key) {
                let (c, i) = choose|c: int, i: int| #[trigger] sits_at(parts, key, c, i) && c < n;
                assert(g.alive(parts[c][i]));
            }
            if g.keys.to_set().contains(key) {
                assert(g.alive(key));
                assert(covered(parts, key));
                let (c, i) = choose|c: int, i: int| #[trigger] sits_at(parts, key, c, i);
                assert(sits_at(parts, key, c, i) && c < n);
            }
        }
    }
}

impl CoPurchaseGraph {
    /// The strongly connected components of the graph, each as the keys of
    /// its nodes.
    ///
    /// The components split the nodes: none is empty, every member is a node,
    /// and every node is a member of exactly one component, at one place. Two
    /// nodes share a component exactly when each can be reached from the
    /// other. The order of the components and of their members is that of
    /// [`GraphView::components`](crate::graph::GraphView::components), which
    /// is fixed for a fixed graph.
    pub fn strongly_connected_components(&self) -> (parts: Vec<Vec<usize>>)
        requires
            self.wf(),
        ensures
            rows(parts) == self@.components(),
            self@.split_into(rows(parts)),
            forall|x: usize, y: usize|
                self@.alive(x) && self@.alive(y) ==> (#[trigger] grouped(rows(parts), x, y)
                    <==> self@.connected(x, y) && self@.connected(y, x)),
            self@.decomposed(),
            total_size(rows(parts)) == self@.keys.len(),
    {
        let found = self.found_components();
        let mut parts: Vec<Vec<usize>> = Vec::new();
        let mut c: usize = 0;
        while c < found.len()
            invariant
                c <= found.len(),
                self.wf(),
                rows(found) == tarjan_order(self@.out),
                splits_nodes(rows(found), self@.keys.len()),
                groups_by_reach(rows(found), self@.out),
                parts.len() == c,
                forall|d: int| 0 <= d < c ==> (#[trigger] parts[d])@ == self@.components()[d],
            decreases found.len() - c,
        {
            let part = &found[c];
            assert(part@ == rows(found)[c as int]);
            let mut keys: Vec<usize> = Vec::new();
            let mut i: usize = 0;
            while i < part.len()
                invariant
                    i <= part.len(),
                    self.wf(),
                    c < found.len(),
                    part@ == rows(found)[c as int],
                    rows(found) == tarjan_order(self@.out),
                    splits_nodes(rows(found), self@.keys.len()),
                    keys@ == self@.components()[c as int].take(i as int),
                decreases part.len() - i,
            {
                let ix = part[i];
                assert(ix == rows(found)[c as int][i as int]);
                keys.push(self.key_at(ix));
                assert(keys@ =~= self@.components()[c as int].take(i + 1));
                i += 1;
            }
            assert(self@.components()[c as int].take(part.len() as int) =~= self@.components()[c as int]);
            parts.push(keys);
            c += 1;
        }
        proof {
            assert(rows(parts) =~= self@.components());
            self.lemma_components_split(rows(found));
            self.lemma_valid();
            lemma_split_covers(self@, rows(parts));
        }
        parts
    }

    /// What the index-level decomposition says of the keyed one.
    proof fn lemma_components_split(&self, found: Seq<Seq<usize>>)
        requires
            self.wf(),
            found == tarjan_order(self@.out),
            splits_nodes(found, self@.keys.len()),
            groups_by_reach(found, self@.out),
        ensures
            self@.split_into(self@.components()),
            forall|x: usize, y: usize|
                self@.alive(x) && self@.alive(y) ==> (#[trigger] grouped(self@.components(), x, y)
                    <==> self@.connected(x, y) && self@.connected(y, x)),
    {
        let g = self@;
        let parts = g.components();
        self.lemma_valid();
        assert forall|key: usize| g.alive(key) implies #[trigger] covered(parts, key) by {
            let ix = g.index_of(key) as usize;
            assert(covered(found, ix));
            let (c, i) = choose|c: int, i: int| #[trigger] sits_at(found, ix, c, i);
            assert(sits_at(parts, key, c, i));
        }
        assert forall|key: usize, c: int, i: int, d: int, j: int|
            #[trigger] sits_at(parts, key, c, i) && #[trigger] sits_at(
                parts,
                key,
                d,
                j,
            ) implies c == d && i == j by {
            let ix = found[c][i];
            let jx = found[d][j];
            assert(g.keys[ix as int] == key && g.keys[jx as int] == key);
            assert(sits_at(found, ix, c, i));
            assert(sits_at(found, ix, d, j));
        }
        assert forall|x: usize, y: usize| g.alive(x) && g.alive(y) implies (#[trigger] grouped(
            parts,
            x,
            y,
        ) <==> g.connected(x, y) && g.connected(y, x)) by {
            let ix = g.index_of(x) as usize;
            let iy = g.index_of(y) as usize;
            if grouped(parts, x, y) {
                let (c, i, j) = choose|c: int, i: int, j: int|
                    #[trigger] sits_at(parts, x, c, i) && #[trigger] sits_at(parts, y, c, j);
                assert(g.keys[found[c][i] as int] == x);
                assert(g.keys[found[c][j] as int] == y);
                assert(sits_at(found, ix, c, i) && sits_at(found, iy, c, j));
                assert(grouped(found, ix, iy));
            }
            if grouped(found, ix, iy) {
                let (c, i, j) = choose|c: int, i: int, j: int|
                    #[trigger] sits_at(found, ix, c, i) && #[trigger] sits_at(found, iy, c, j);
                assert(sits_at(parts, x, c, i) && sits_at(parts, y, c, j));
            }
        }
    }
}

} // verus!
