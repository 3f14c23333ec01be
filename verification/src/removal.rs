//! Removing a set of nodes, and whole components, from the graph.

use crate::graph::{
    lemma_arcs_after_removal_source, lemma_first_arc_at, lemma_without_index_alive,
    lemma_without_index_valid, CoPurchaseGraph, GraphView,
};
use crate::laws::{lemma_first_arc, lemma_index_of};
use crate::store::{arcs_after_removal, first_arc_to, has_arc_to, moved_arc, rows, sits_at, Arc};
use vstd::prelude::*;

verus! {

impl GraphView {
    /// The graph after every node below index `upto` whose key is in `doomed`
    /// has been removed, highest index first.
    pub open spec fn sweep(self, doomed: Set<usize>, upto: int) -> GraphView
        decreases upto,
    {
        if upto <= 0 {
            self
        } else if doomed.contains(self.keys[upto - 1]) {
            self.without_index(upto - 1).sweep(doomed, upto - 1)
        } else {
            self.sweep(doomed, upto - 1)
        }
    }

    /// The graph without the nodes whose keys are in `doomed`, and without
    /// the edges from or to them.
    pub open spec fn without_keys(self, doomed: Set<usize>) -> GraphView {
        self.sweep(doomed, self.keys.len() as int)
    }

    /// Whether no node at index `from` or above has its key in `doomed`.
    pub open spec fn clear_from(self, doomed: Set<usize>, from: int) -> bool {
        forall|j: int| from <= j < self.keys.len() ==> !doomed.contains(#[trigger] self.keys[j])
    }
}

/// The keys of the members of the groups that `chosen` picks.
pub open spec fn members_of(parts: Seq<Seq<usize>>, chosen: Seq<bool>) -> Set<usize> {
    Set::new(
        |key: usize|
            exists|c: int, i: int|
                #[trigger] sits_at(parts, key, c, i) && 0 <= c < chosen.len() && chosen[c],
    )
}

/// The keys that `marks` flags.
pub open spec fn marked(marks: Seq<bool>) -> Set<usize> {
    Set::new(|key: usize| key < marks.len() && marks[key as int])
}

/// Every edge that does not point to the removed node is still there after
/// the removal, as it stands after the move.
pub proof fn lemma_arcs_after_removal_keeps(list: Seq<Arc>, gone: usize, last: usize, k: int)
    requires
        0 <= k < list.len(),
        list[k].0 != gone,
    ensures
        exists|j: int|
            0 <= j < arcs_after_removal(list, gone, last).len() && (#[trigger] arcs_after_removal(
                list,
                gone,
                last,
            )[j]) == moved_arc(list[k], gone, last),
    decreases list.len(),
{
    let before = arcs_after_removal(list.drop_last(), gone, last);
    let after = arcs_after_removal(list, gone, last);
    if k == list.len() - 1 {
        assert(after[before.len() as int] == moved_arc(list[k], gone, last));
    } else {
        lemma_arcs_after_removal_keeps(list.drop_last(), gone, last, k);
        let j = choose|j: int|
            0 <= j < before.len() && (#[trigger] before[j]) == moved_arc(
                list.drop_last()[k],
                gone,
                last,
            );
        assert(list.drop_last()[k] == list[k]);
        assert(after[j] == before[j]);
    }
}

/// After a node is removed, two nodes are joined by an edge exactly when they
/// were joined before and neither is the removed node.
pub proof fn lemma_without_index_linked(g: GraphView, a: int, x: usize, y: usize)
    requires
        g.valid(),
        0 <= a < g.keys.len(),
    ensures
        g.without_index(a).linked(x, y) <==> g.linked(x, y) && x != g.keys[a] && y != g.keys[a],
{
    let h = g.without_index(a);
    let last = g.keys.len() - 1;
    lemma_without_index_valid(g, a);
    lemma_without_index_alive(g, a);
    lemma_index_of(g, a);
    if g.alive(x) && g.alive(y) && x != g.keys[a] && y != g.keys[a] {
        let ix = g.index_of(x);
        let iy = g.index_of(y);
        assert(0 <= ix < g.keys.len() && g.keys[ix] == x);
        assert(0 <= iy < g.keys.len() && g.keys[iy] == y);
        let hx = if ix == last {
            a
        } else {
            ix
        };
        let hy = if iy == last {
            a
        } else {
            iy
        };
        assert(h.keys[hx] == x);
        assert(h.keys[hy] == y);
        lemma_index_of(h, hx);
        lemma_index_of(h, hy);
        let list = g.out[ix];
        let after = arcs_after_removal(list, a as usize, last as usize);
        assert(h.out[hx] == after);
        if has_arc_to(list, iy as usize) {
            let k = choose|k: int| 0 <= k < list.len() && (#[trigger] list[k]).0 == iy as usize;
            lemma_arcs_after_removal_keeps(list, a as usize, last as usize, k);
            let j = choose|j: int|
                0 <= j < after.len() && (#[trigger] after[j]) == moved_arc(
                    list[k],
                    a as usize,
                    last as usize,
                );
            assert(after[j].0 == hy as usize);
        }
        if has_arc_to(after, hy as usize) {
            let j = choose|j: int| 0 <= j < after.len() && (#[trigger] after[j]).0 == hy as usize;
            lemma_arcs_after_removal_source(list, a as usize, last as usize, j);
            let k = choose|k: int|
                0 <= k < list.len() && (#[trigger] list[k]).0 != a as usize && after[j] == moved_arc(
                    list[k],
                    a as usize,
                    last as usize,
                );
            assert(list[k].0 < g.keys.len());
            assert(list[k].0 == iy as usize);
        }
    }
}

/// What is left of two lists, one behind the other, is what is left of the
/// first and behind it what is left of the second.
pub proof fn lemma_arcs_after_removal_joined(one: Seq<Arc>, other: Seq<Arc>, gone: usize, last: usize)
    ensures
        arcs_after_removal(one + other, gone, last) == arcs_after_removal(one, gone, last)
            + arcs_after_removal(other, gone, last),
    decreases other.len(),
{
    if other.len() == 0 {
        assert(one + other =~= one);
        assert(arcs_after_removal(one, gone, last) + arcs_after_removal(other, gone, last)
            =~= arcs_after_removal(one, gone, last));
    } else {
        lemma_arcs_after_removal_joined(one, other.drop_last(), gone, last);
        assert((one + other).drop_last() =~= one + other.drop_last());
        assert((one + other).last() == other.last());
        assert(arcs_after_removal(one + other, gone, last) =~= arcs_after_removal(one, gone, last)
            + arcs_after_removal(other, gone, last));
    }
}

/// After a node is removed, the weight between two other nodes is what it
/// was.
pub proof fn lemma_without_index_weight(g: GraphView, a: int, x: usize, y: usize)
    requires
        g.valid(),
        0 <= a < g.keys.len(),
        x != g.keys[a],
        y != g.keys[a],
    ensures
        g.without_index(a).weight(x, y) == g.weight(x, y),
{
    let h = g.without_index(a);
    let last = g.keys.len() - 1;
    lemma_without_index_valid(g, a);
    lemma_without_index_alive(g, a);
    lemma_without_index_linked(g, a, x, y);
    lemma_index_of(g, a);
    if g.linked(x, y) {
        let ix = g.index_of(x);
        let iy = g.index_of(y);
        assert(0 <= ix < g.keys.len() && g.keys[ix] == x);
        assert(0 <= iy < g.keys.len() && g.keys[iy] == y);
        let hx = if ix == last {
            a
        } else {
            ix
        };
        let hy = if iy == last {
            a
        } else {
            iy
        };
        assert(h.keys[hx] == x);
        assert(h.keys[hy] == y);
        lemma_index_of(h, hx);
        lemma_index_of(h, hy);
        let list = g.out[ix];
        let after = arcs_after_removal(list, a as usize, last as usize);
        assert(h.out[hx] == after);
        lemma_first_arc(list, iy as usize);
        let k = first_arc_to(list, iy as usize);
        let head = list.take(k);
        let upto = list.take(k + 1);
        let tail = list.skip(k + 1);
        let kept = arcs_after_removal(head, a as usize, last as usize);
        assert(upto.drop_last() =~= head);
        assert(upto.last() == list[k]);
        assert(arcs_after_removal(upto, a as usize, last as usize) == kept.push(
            moved_arc(list[k], a as usize, last as usize),
        ));
        assert(upto + tail =~= list);
        lemma_arcs_after_removal_joined(upto, tail, a as usize, last as usize);
        let j = kept.len() as int;
        assert(after[j] == moved_arc(list[k], a as usize, last as usize));
        assert(after[j].0 == hy as usize);
        assert forall|i: int| 0 <= i < j implies (#[trigger] after[i]).0 != hy as usize by {
            assert(after[i] == kept[i]);
            lemma_arcs_after_removal_source(head, a as usize, last as usize, i);
            let m = choose|m: int|
                0 <= m < head.len() && (#[trigger] head[m]).0 != a as usize && kept[i] == moved_arc(
                    head[m],
                    a as usize,
                    last as usize,
                );
            assert(head[m] == list[m]);
            assert(list[m].0 != iy as usize);
            assert(list[m].0 < g.keys.len());
        }
        lemma_first_arc_at(after, hy as usize, j);
    }
}

/// A sweep keeps the invariant, and leaves exactly the nodes that were there
/// and are not doomed, with exactly the edges between them and with their
/// weights.
pub proof fn lemma_sweep(g: GraphView, doomed: Set<usize>, upto: int)
    requires
        g.valid(),
        0 <= upto <= g.keys.len(),
        g.clear_from(doomed, upto),
    ensures
        g.sweep(doomed, upto).valid(),
        forall|key: usize|
            #[trigger] g.sweep(doomed, upto).alive(key) ==> g.sweep(doomed, upto).products[key as int]
                == g.products[key as int],
        forall|key: usize| g.sweep(doomed, upto).alive(key) <==> g.alive(key) && !doomed.contains(key),
        forall|x: usize, y: usize|
            #[trigger] g.sweep(doomed, upto).linked(x, y) <==> g.linked(x, y) && !doomed.contains(x)
                && !doomed.contains(y),
        forall|x: usize, y: usize|
            !doomed.contains(x) && !doomed.contains(y) ==> #[trigger] g.sweep(doomed, upto).weight(
                x,
                y,
            ) == g.weight(x, y),
    decreases upto,
{
    if upto <= 0 {
        assert forall|key: usize| g.alive(key) implies !doomed.contains(key) by {
            let j = choose|j: int| 0 <= j < g.keys.len() && g.keys[j] == key;
            assert(!doomed.contains(g.keys[j]));
        }
    } else if doomed.contains(g.keys[upto - 1]) {
        assert forall|x: usize, y: usize|
            #[trigger] g.without_index(upto - 1).linked(x, y) <==> g.linked(x, y) && x != g.keys[upto
                - 1] && y != g.keys[upto - 1] by {
            lemma_without_index_linked(g, upto - 1, x, y);
        }
        let h = g.without_index(upto - 1);
        lemma_without_index_valid(g, upto - 1);
        lemma_without_index_alive(g, upto - 1);
        assert forall|x: usize, y: usize|
            !doomed.contains(x) && !doomed.contains(y) implies #[trigger] h.weight(x, y) == g.weight(
            x,
            y,
        ) by {
            lemma_without_index_weight(g, upto - 1, x, y);
        }
        assert(h.clear_from(doomed, upto - 1)) by {
            assert forall|j: int| upto - 1 <= j < h.keys.len() implies !doomed.contains(
                #[trigger] h.keys[j],
            ) by {
                if j == upto - 1 {
                    assert(h.keys[j] == g.keys[g.keys.len() - 1]);
                } else {
                    assert(h.keys[j] == g.keys[j]);
                }
            }
        }
        lemma_sweep(h, doomed, upto - 1);
        assert forall|key: usize| #[trigger] g.sweep(doomed, upto).alive(key) implies g.sweep(
            doomed,
            upto,
        ).products[key as int] == g.products[key as int] by {
            assert(h.alive(key));
            assert(g.alive(key) && key != g.keys[upto - 1]);
            let at = choose|at: int| 0 <= at < g.keys.len() && g.keys[at] == key;
            assert(g.keys[at] < g.products.len());
            assert(h.products[key as int] == g.products[key as int]);
        }
    } else {
        assert(g.clear_from(doomed, upto - 1)) by {
            assert forall|j: int| upto - 1 <= j < g.keys.len() implies !doomed.contains(
                #[trigger] g.keys[j],
            ) by {}
        }
        lemma_sweep(g, doomed, upto - 1);
    }
}

/// Removing a set of nodes keeps the invariant, and leaves
/// exactly the nodes that were there and are not in the set, with exactly the
/// edges that joined them.
pub proof fn lemma_without_keys(g: GraphView, doomed: Set<usize>)
    requires
        g.valid(),
    ensures
        g.without_keys(doomed).valid(),
        forall|key: usize|
            #[trigger] g.without_keys(doomed).alive(key) ==> g.without_keys(doomed).products[key as int]
                == g.products[key as int],
        forall|key: usize|
            g.without_keys(doomed).alive(key) <==> g.alive(key) && !doomed.contains(key),
        forall|x: usize, y: usize|
            #[trigger] g.without_keys(doomed).linked(x, y) <==> g.linked(x, y) && !doomed.contains(x)
                && !doomed.contains(y),
        forall|x: usize, y: usize|
            !doomed.contains(x) && !doomed.contains(y) ==> #[trigger] g.without_keys(doomed).weight(
                x,
                y,
            ) == g.weight(x, y),
{
    lemma_sweep(g, doomed, g.keys.len() as int);
}

/// Removing no node of the graph changes nothing.
pub proof fn lemma_sweep_nothing(g: GraphView, doomed: Set<usize>, upto: int)
    requires
        0 <= upto <= g.keys.len(),
        forall|j: int| 0 <= j < g.keys.len() ==> !doomed.contains(#[trigger] g.keys[j]),
    ensures
        g.sweep(doomed, upto) == g,
    decreases upto,
{
    if upto > 0 {
        lemma_sweep_nothing(g, doomed, upto - 1);
    }
}

impl CoPurchaseGraph {
    /// Removes every node whose key `marks` flags, with the edges from or to
    /// it, and answers how many nodes were removed.
    pub fn remove_marked(&mut self, marks: &Vec<bool>) -> (removed: usize)
        requires
            old(self).wf(),
        ensures
            final(self).wf(),
            final(self)@ == old(self)@.without_keys(marked(marks@)),
            forall|key: usize|
                final(self)@.alive(key) <==> old(self)@.alive(key) && !marked(marks@).contains(key),
            forall|key: usize|
                #[trigger] final(self)@.alive(key) ==> final(self)@.products[key as int] == old(self)@.products[key as int],
            forall|x: usize, y: usize|
                #[trigger] final(self)@.linked(x, y) <==> old(self)@.linked(x, y) && !marked(
                    marks@,
                ).contains(x) && !marked(marks@).contains(y),
            forall|x: usize, y: usize|
                !marked(marks@).contains(x) && !marked(marks@).contains(y) ==> #[trigger] final(self)@.weight(x, y) == old(self)@.weight(x, y),
            removed == old(self)@.keys.len() - final(self)@.keys.len(),
    {
        let ghost doomed = marked(marks@);
        let ghost start = self@;
        let n = self.node_count();
        let mut removed: usize = 0;
        let mut i: usize = n;
        proof {
            self.lemma_valid();
            lemma_without_keys(start, doomed);
        }
        while i > 0
            invariant
                self.wf(),
                doomed == marked(marks@),
                i <= self@.keys.len(),
                self@.keys.len() + removed == start.keys.len(),
                start.keys.len() == n,
                self@.clear_from(doomed, i as int),
                self@.sweep(doomed, i as int) == start.without_keys(doomed),
            decreases i,
        {
            let key = self.key_at(i - 1);
            let ghost before = self@;
            proof {
                self.lemma_valid();
            }
            if key < marks.len() && marks[key] {
                assert(before.keys.contains(key));
                assert(before.index_of(key) == i - 1) by {
                    let j = before.index_of(key);
                    assert(0 <= j < before.keys.len() && before.keys[j] == key);
                }
                let gone = self.remove_node(key);
                removed += 1;
                proof {
                    assert(self@ == before.without_index(i - 1));
                    assert forall|j: int| i - 1 <= j < self@.keys.len() implies !doomed.contains(
                        #[trigger] self@.keys[j],
                    ) by {
                        if j == i - 1 {
                            assert(self@.keys[j] == before.keys[before.keys.len() - 1]);
                        } else {
                            assert(self@.keys[j] == before.keys[j]);
                        }
                    }
                }
            } else {
                assert(!doomed.contains(key));
            }
            i -= 1;
        }
        removed
    }

    /// Flags the key of every member of the components that `chosen` picks.
    /// The flags cover every product key.
    pub(crate) fn mark_members(&self, parts: &Vec<Vec<usize>>, chosen: &Vec<bool>) -> (marks: Vec<bool>)
        requires
            self.wf(),
            self@.split_into(rows(*parts)),
            chosen.len() == parts.len(),
        ensures
            marks.len() == self@.products.len(),
            marked(marks@) == members_of(rows(*parts), chosen@),
    {
        let total = self.product_count();
        let mut marks: Vec<bool> = Vec::new();
        let mut k: usize = 0;
        while k < total
            invariant
                k <= total,
                marks.len() == k,
                forall|j: int| 0 <= j < k ==> !(#[trigger] marks[j]),
            decreases total - k,
        {
            marks.push(false);
            k += 1;
        }
        let mut c: usize = 0;
        while c < parts.len()
            invariant
                self.wf(),
                self@.split_into(rows(*parts)),
                chosen.len() == parts.len(),
                c <= parts.len(),
                marks.len() == self@.products.len(),
                forall|key: usize|
                    key < marks.len() ==> (#[trigger] marks[key as int] <==> exists|d: int, i: int|
                        #[trigger] sits_at(rows(*parts), key, d, i) && d < c && chosen[d]),
            decreases parts.len() - c,
        {
            if chosen[c] {
                let part = &parts[c];
                assert(part@ == rows(*parts)[c as int]);
                let mut i: usize = 0;
                while i < part.len()
                    invariant
                        self.wf(),
                        self@.split_into(rows(*parts)),
                        chosen.len() == parts.len(),
                        c < parts.len(),
                        chosen[c as int],
                        part@ == rows(*parts)[c as int],
                        i <= part.len(),
                        marks.len() == self@.products.len(),
                        forall|key: usize|
                            key < marks.len() ==> (#[trigger] marks[key as int] <==> exists|
                                d: int,
                                j: int,
                            |
                                #[trigger] sits_at(rows(*parts), key, d, j) && (d < c || (d == c && j
                                    < i)) && chosen[d]),
                    decreases part.len() - i,
                {
                    let key = part[i];
                    proof {
                        self.lemma_valid();
                        assert(sits_at(rows(*parts), key, c as int, i as int));
                        assert(self@.alive(rows(*parts)[c as int][i as int]));
                        let at = choose|at: int| 0 <= at < self@.keys.len() && self@.keys[at] == key;
                        assert(self@.keys[at] < self@.products.len());
                    }
                    let ghost before = marks@;
                    marks.set(key, true);
                    proof {
                        assert forall|other: usize| other < marks.len() implies (
                        #[trigger] marks[other as int] <==> exists|d: int, j: int|
                            #[trigger] sits_at(rows(*parts), other, d, j) && (d < c || (d == c && j
                                < i + 1)) && chosen[d]) by {
                            if other == key {
                                assert(sits_at(rows(*parts), other, c as int, i as int));
                            } else {
                                assert(marks[other as int] == before[other as int]);
                                if marks[other as int] {
                                    let (d, j) = choose|d: int, j: int|
                                        #[trigger] sits_at(rows(*parts), other, d, j) && (d < c || (d
                                            == c && j < i)) && chosen[d];
                                    assert(sits_at(rows(*parts), other, d, j) && (d < c || (d == c
                                        && j < i + 1)) && chosen[d]);
                                }
                            }
                        }
                    }
                    i += 1;
                }
                proof {
                    assert forall|key: usize| key < marks.len() implies (#[trigger] marks[key as int]
                        <==> exists|d: int, j: int|
                        #[trigger] sits_at(rows(*parts), key, d, j) && d < c + 1 && chosen[d]) by {
                        if marks[key as int] {
                            let (d, j) = choose|d: int, j: int|
                                #[trigger] sits_at(rows(*parts), key, d, j) && (d < c || (d == c && j
                                    < i)) && chosen[d];
                            assert(sits_at(rows(*parts), key, d, j) && d < c + 1 && chosen[d]);
                        }
                        if exists|d: int, j: int|
                            #[trigger] sits_at(rows(*parts), key, d, j) && d < c + 1 && chosen[d] {
                            let (d, j) = choose|d: int, j: int|
                                #[trigger] sits_at(rows(*parts), key, d, j) && d < c + 1 && chosen[d];
                            assert(sits_at(rows(*parts), key, d, j) && (d < c || (d == c && j < i))
                                && chosen[d]);
                        }
                    }
                }
            } else {
                proof {
                    assert forall|key: usize| key < marks.len() implies (#[trigger] marks[key as int]
                        <==> exists|d: int, j: int|
                        #[trigger] sits_at(rows(*parts), key, d, j) && d < c + 1 && chosen[d]) by {
                        if marks[key as int] {
                            let (d, j) = choose|d: int, j: int|
                                #[trigger] sits_at(rows(*parts), key, d, j) && d < c && chosen[d];
                            assert(sits_at(rows(*parts), key, d, j) && d < c + 1 && chosen[d]);
                        }
                        if exists|d: int, j: int|
                            #[trigger] sits_at(rows(*parts), key, d, j) && d < c + 1 && chosen[d] {
                            let (d, j) = choose|d: int, j: int|
                                #[trigger] sits_at(rows(*parts), key, d, j) && d < c + 1 && chosen[d];
                            assert(sits_at(rows(*parts), key, d, j) && d < c && chosen[d]);
                        }
                    }
                }
            }
            c += 1;
        }
        proof {
            let want = members_of(rows(*parts), chosen@);
            assert forall|key: usize| marked(marks@).contains(key) <==> want.contains(key) by {
                if marked(marks@).contains(key) {
                    let (d, j) = choose|d: int, j: int|
                        #[trigger] sits_at(rows(*parts), key, d, j) && d < c && chosen[d];
                    assert(sits_at(rows(*parts), key, d, j) && 0 <= d < chosen.len() && chosen[d]);
                }
                if want.contains(key) {
                    let (d, j) = choose|d: int, j: int|
                        #[trigger] sits_at(rows(*parts), key, d, j) && 0 <= d < chosen.len()
                            && chosen[d];
                    self.lemma_valid();
                    assert(self@.alive(rows(*parts)[d][j]));
                    let at = choose|at: int| 0 <= at < self@.keys.len() && self@.keys[at] == key;
                    assert(self@.keys[at] < self@.products.len());
                    assert(sits_at(rows(*parts), key, d, j) && d < c && chosen[d]);
                }
            }
            assert(marked(marks@) =~= want);
        }
        marks
    }
}

} // verus!
