//! The co-purchase graph: products as nodes, weighted directed edges between
//! products that one user bought together.

use crate::store::{
    arc_total, arcs_after_removal, first_arc_to, moved_arc, has_arc_to, keys_after_removal,
    lists_after_removal, node_keys, out_lists, store_add_edge, store_add_node, store_clone,
    store_contains_edge, store_edge_count, store_first_weight, store_key, store_neighbors,
    store_new, store_node_count, store_out_edges, store_remove_node, store_update_edge, targets,
    Arc,
};
use crate::store::{
    covered, groups_by_reach, reaches, rows, sits_at, splits_nodes, store_components, tarjan_order,
};
use vstd::prelude::*;

verus! {

/// A product as the transaction records describe it. `price` keeps the
/// record's text for the normalised price; the graph never reads it.
#[derive(Debug)]
pub struct Product {
    pub id: String,
    pub category: String,
    pub price: String,
    pub name: String,
}

/// The text of a [`Product`].
pub struct ProductView {
    pub id: Seq<char>,
    pub category: Seq<char>,
    pub price: Seq<char>,
    pub name: Seq<char>,
}

impl View for Product {
    type V = ProductView;

    open spec fn view(&self) -> ProductView {
        ProductView {
            id: self.id@,
            category: self.category@,
            price: self.price@,
            name: self.name@,
        }
    }
}

impl Product {
    /// A copy with the same text in every field.
    pub fn duplicate(&self) -> (copy: Product)
        ensures
            copy@ == self@,
    {
        Product {
            id: self.id.clone(),
            category: self.category.clone(),
            price: self.price.clone(),
            name: self.name.clone(),
        }
    }
}

/// What a [`CoPurchaseGraph`] holds.
///
/// `products` has one place for every key that was ever given out; the place
/// holds the product as long as it is a node and nothing after its removal. A
/// key never changes. `keys` lists the keys of the nodes, by node index, and
/// `out[i]` lists the outgoing edges of node `i`, most recently added first,
/// each as the index of its target node and its weight. Removing a node moves
/// the last node into its index, so indices are only meaningful within one
/// value of the graph.
pub struct GraphView {
    pub products: Seq<Option<ProductView>>,
    pub keys: Seq<usize>,
    pub out: Seq<Seq<Arc>>,
}

impl GraphView {
    /// The invariant of every graph: keys are distinct, exactly the nodes
    /// have a product, no two nodes have the same product identifier, edges
    /// stay inside the graph, no edge is a self-loop, and every weight is at
    /// least 1.
    pub open spec fn valid(self) -> bool {
        &&& self.keys.len() == self.out.len()
        &&& self.keys.len() <= u32::MAX
        &&& forall|i: int|
            0 <= i < self.keys.len() ==> (#[trigger] self.keys[i]) < self.products.len()
                && self.products[self.keys[i] as int] is Some
        &&& forall|key: usize|
            key < self.products.len() && (#[trigger] self.products[key as int]) is Some
                ==> self.alive(key)
        &&& forall|i: int, j: int|
            0 <= i < self.keys.len() && 0 <= j < self.keys.len() && i != j ==> (#[trigger] self.keys[i])
                != (#[trigger] self.keys[j])
        &&& forall|i: int, j: int|
            0 <= i < self.keys.len() && 0 <= j < self.keys.len() && i != j ==> self.products[(
            #[trigger] self.keys[i]) as int]->0.id != self.products[(
            #[trigger] self.keys[j]) as int]->0.id
        &&& forall|i: int, j: int|
            0 <= i < self.out.len() && 0 <= j < self.out[i].len() ==> {
                &&& (#[trigger] self.out[i][j]).0 < self.keys.len()
                &&& self.out[i][j].0 != i
                &&& self.out[i][j].1 >= 1
            }
    }

    /// Whether the product with this key is a node of the graph.
    pub open spec fn alive(self, key: usize) -> bool {
        self.keys.contains(key)
    }

    /// Whether the node with this key has the product identifier `id`.
    pub open spec fn holds_id(self, key: usize, id: Seq<char>) -> bool {
        self.alive(key) && key < self.products.len() && self.products[key as int] is Some
            && self.products[key as int]->0.id == id
    }

    /// Whether some node has the product identifier `id`.
    pub open spec fn knows(self, id: Seq<char>) -> bool {
        exists|key: usize| #[trigger] self.holds_id(key, id)
    }

    /// The node index of a key that is alive.
    pub open spec fn index_of(self, key: usize) -> int {
        self.keys.index_of(key)
    }

    /// The outgoing edges of the node with this key, in walk order, each as
    /// the key of its target and its weight.
    pub open spec fn links(self, key: usize) -> Seq<Arc> {
        self.keyed(self.out[self.index_of(key)])
    }

    /// An edge list with every target index replaced by the key of that node.
    pub open spec fn keyed(self, list: Seq<Arc>) -> Seq<Arc> {
        Seq::new(list.len(), |j: int| (self.keys[list[j].0 as int], list[j].1))
    }

    /// Whether there is an edge from the node with key `from` to the node
    /// with key `to`.
    pub open spec fn linked(self, from: usize, to: usize) -> bool {
        self.alive(from) && self.alive(to) && has_arc_to(
            self.out[self.index_of(from)],
            self.index_of(to) as usize,
        )
    }

    /// The weight of the first edge from the node with key `from` to the node
    /// with key `to`, and zero where there is no such edge.
    pub open spec fn weight(self, from: usize, to: usize) -> nat {
        if self.linked(from, to) {
            let list = self.out[self.index_of(from)];
            list[first_arc_to(list, self.index_of(to) as usize)].1 as nat
        } else {
            0
        }
    }

    /// The strongly connected components, as lists of keys, in the order in
    /// which the decomposition lists them and their members.
    pub open spec fn components(self) -> Seq<Seq<usize>> {
        let found = tarjan_order(self.out);
        Seq::new(
            found.len(),
            |c: int| Seq::new(found[c].len(), |i: int| self.keys[found[c][i] as int]),
        )
    }

    /// Whether `parts` splits the nodes into non-empty groups: every member
    /// is a node, and every node sits at exactly one place.
    pub open spec fn split_into(self, parts: Seq<Seq<usize>>) -> bool {
        &&& forall|c: int| 0 <= c < parts.len() ==> (#[trigger] parts[c]).len() > 0
        &&& forall|c: int, i: int|
            0 <= c < parts.len() && 0 <= i < parts[c].len() ==> self.alive(#[trigger] parts[c][i])
        &&& forall|key: usize| self.alive(key) ==> #[trigger] covered(parts, key)
        &&& forall|key: usize, c: int, i: int, d: int, j: int|
            #[trigger] sits_at(parts, key, c, i) && #[trigger] sits_at(parts, key, d, j) ==> c == d
                && i == j
    }

    /// Whether the node with key `to` can be reached from the node with key
    /// `from` along edges.
    pub open spec fn connected(self, from: usize, to: usize) -> bool {
        self.alive(from) && self.alive(to) && reaches(
            self.out,
            self.index_of(from) as usize,
            self.index_of(to) as usize,
        )
    }

    /// Number of edges.
    pub open spec fn edge_total(self) -> nat {
        arc_total(self.out)
    }

    /// The graph with one more node, for a new product.
    pub open spec fn with_node(self, product: ProductView) -> GraphView {
        GraphView {
            products: self.products.push(Some(product)),
            keys: self.keys.push(self.products.len() as usize),
            out: self.out.push(Seq::empty()),
        }
    }

    /// The graph with one more edge between two nodes given by index; the new
    /// edge comes first among the edges of `a`.
    pub open spec fn with_arc(self, a: int, b: int, weight: u64) -> GraphView {
        GraphView { out: self.out.update(a, seq![(b as usize, weight)] + self.out[a]), ..self }
    }

    /// The graph with the weight of edge `j` of node `a` replaced.
    pub open spec fn with_weight(self, a: int, j: int, weight: u64) -> GraphView {
        GraphView { out: self.out.update(a, self.out[a].update(j, (self.out[a][j].0, weight))), ..self }
    }

    /// The graph with the first edge from node `a` to node `b` raised by 1.
    pub open spec fn raised(self, a: int, b: int) -> GraphView {
        let j = first_arc_to(self.out[a], b as usize);
        self.with_weight(a, j, (self.out[a][j].1 + 1) as u64)
    }

    /// The weight of the first edge from node `a` to node `b`.
    pub open spec fn first_weight(self, a: int, b: int) -> u64 {
        self.out[a][first_arc_to(self.out[a], b as usize)].1
    }

    /// The graph after one more co-purchase of the products `from` and `to`:
    /// nothing changes for one product taken twice; where an edge joins the
    /// two nodes, in either direction, it gains 1 (the edge from `from` to
    /// `to` where there is one in each direction); otherwise a new edge of
    /// weight 1 from `from` to `to` comes first among the edges of `from`.
    pub open spec fn co_purchased(self, from: usize, to: usize) -> GraphView {
        let a = self.index_of(from);
        let b = self.index_of(to);
        if from == to {
            self
        } else if has_arc_to(self.out[a], b as usize) {
            self.raised(a, b)
        } else if has_arc_to(self.out[b], a as usize) {
            self.raised(b, a)
        } else {
            self.with_arc(a, b, 1)
        }
    }

    /// The graph without the node at index `a`, as the store removes it; the
    /// place of its product is left empty.
    pub open spec fn without_index(self, a: int) -> GraphView {
        GraphView {
            products: self.products.update(self.keys[a] as int, None),
            keys: keys_after_removal(self.keys, a as usize),
            out: lists_after_removal(self.out, a as usize),
        }
    }
}

/// Why the graph refused a change.
#[derive(Debug, PartialEq, Eq, Structural, Clone, Copy)]
pub enum GraphError {
    /// A key that names no node of the graph.
    UnknownNode,
    /// An edge weight of zero.
    ZeroWeight,
    /// The graph already holds as many nodes as its indices can number.
    NodeLimit,
    /// The graph already holds as many edges as its indices can number.
    EdgeLimit,
    /// An edge weight that cannot grow any further.
    WeightLimit,
    /// A product identifier that a node of the graph already has.
    DuplicateProduct,
}

/// The text of a product, where there is one.
pub open spec fn shown(product: Option<Product>) -> Option<ProductView> {
    match product {
        Some(p) => Some(p@),
        None => None,
    }
}

/// The first edge to `b` is where an edge to `b` stands that no earlier edge
/// to `b` precedes.
pub proof fn lemma_first_arc_at(list: Seq<Arc>, b: usize, j: int)
    requires
        0 <= j < list.len(),
        list[j].0 == b,
        forall|i: int| 0 <= i < j ==> (#[trigger] list[i]).0 != b,
    ensures
        first_arc_to(list, b) == j,
    decreases list.len(),
{
    if j > 0 {
        let rest = list.drop_first();
        assert(list[0].0 != b);
        assert forall|i: int| 0 <= i < j - 1 implies (#[trigger] rest[i]).0 != b by {
            assert(rest[i] == list[i + 1]);
        }
        lemma_first_arc_at(rest, b, j - 1);
    }
}

/// A directed graph of products with co-purchase counts on its edges.
pub struct CoPurchaseGraph {
    store: petgraph::graph::Graph<usize, u64, petgraph::Directed, u32>,
    products: Vec<Option<Product>>,
    slots: Vec<Option<usize>>,
}

impl View for CoPurchaseGraph {
    type V = GraphView;

    closed spec fn view(&self) -> GraphView {
        GraphView {
            products: Seq::new(self.products.len() as nat, |k: int| shown(self.products[k])),
            keys: node_keys(self.store),
            out: out_lists(self.store),
        }
    }
}

impl CoPurchaseGraph {
    /// Whether the bookkeeping of this value is intact. Every constructor
    /// establishes it and every method keeps it.
    pub closed spec fn wf(&self) -> bool {
        &&& self@.valid()
        &&& self.slots.len() == self.products.len()
        &&& forall|i: int|
            0 <= i < self@.keys.len() ==> self.slots[(#[trigger] self@.keys[i]) as int] == Some(
                i as usize,
            )
        &&& forall|k: int|
            0 <= k < self.slots.len() ==> (match #[trigger] self.slots[k] {
                Some(ix) => ix < self@.keys.len() && self@.keys[ix as int] == k,
                None => true,
            })
    }

    /// A well-formed graph satisfies the invariant of its view.
    pub proof fn lemma_valid(&self)
        requires
            self.wf(),
        ensures
            self@.valid(),
    {
    }

    /// The empty graph.
    pub fn new() -> (g: CoPurchaseGraph)
        ensures
            g.wf(),
            g@.products.len() == 0,
            g@.keys.len() == 0,
            g@.out.len() == 0,
    {
        CoPurchaseGraph { store: store_new(), products: Vec::new(), slots: Vec::new() }
    }

    /// Number of nodes.
    pub fn node_count(&self) -> (n: usize)
        requires
            self.wf(),
        ensures
            n == self@.keys.len(),
    {
        store_node_count(&self.store)
    }

    /// Number of edges.
    pub fn edge_count(&self) -> (n: usize)
        requires
            self.wf(),
        ensures
            n == self@.edge_total(),
    {
        store_edge_count(&self.store)
    }

    /// Number of keys that were ever given out; every key lies below it.
    pub fn product_count(&self) -> (n: usize)
        requires
            self.wf(),
        ensures
            n == self@.products.len(),
    {
        self.products.len()
    }

    /// Whether the product with this key is a node of the graph.
    pub fn contains_node(&self, key: usize) -> (found: bool)
        requires
            self.wf(),
        ensures
            found == self@.alive(key),
    {
        match self.slot(key) {
            Some(_) => true,
            None => false,
        }
    }

    /// The key of the node that has the product identifier `id`, if there is
    /// one.
    pub fn find_product(&self, id: &String) -> (res: Option<usize>)
        requires
            self.wf(),
        ensures
            match res {
                Some(key) => self@.holds_id(key, id@),
                None => !self@.knows(id@),
            },
    {
        let mut key: usize = 0;
        while key < self.products.len()
            invariant
                self.wf(),
                key <= self.products.len(),
                forall|k: usize| k < key ==> !#[trigger] self@.holds_id(k, id@),
            decreases self.products.len() - key,
        {
            let found = match &self.products[key] {
                Some(product) => product.id == *id,
                None => false,
            };
            if found {
                proof {
                    assert(self@.products[key as int] is Some);
                    assert(self@.alive(key));
                }
                return Some(key);
            }
            key += 1;
        }
        proof {
            assert forall|k: usize| !#[trigger] self@.holds_id(k, id@) by {}
        }
        None
    }

    /// Adds a node for `product` and returns its key. A product whose
    /// identifier a node already has is refused, and so is any product when
    /// the graph is full.
    pub fn add_node(&mut self, product: Product) -> (res: Result<usize, GraphError>)
        requires
            old(self).wf(),
        ensures
            final(self).wf(),
            match res {
                Ok(key) => key == old(self)@.products.len() && final(self)@ == old(self)@.with_node(
                    product@,
                ),
                Err(e) => final(self)@ == old(self)@,
            },
            res is Err ==> res->Err_0 == add_node_failure(old(self)@, product@.id),
            res is Err <==> old(self)@.knows(product@.id) || old(self)@.keys.len() >= u32::MAX,
    {
        if self.find_product(&product.id).is_some() {
            return Err(GraphError::DuplicateProduct);
        }
        let n = store_node_count(&self.store);
        if n >= u32::MAX as usize {
            return Err(GraphError::NodeLimit);
        }
        let key = self.products.len();
        let ghost before = self@;
        let ghost text = product@;
        let ix = store_add_node(&mut self.store, key);
        self.products.push(Some(product));
        self.slots.push(Some(ix));
        proof {
            assert(self@.products =~= before.products.push(Some(text)));
            assert(self@ == before.with_node(text));
            lemma_with_node_valid(before, text);
        }
        Ok(key)
    }

    /// The decomposition of the store, by node index.
    pub(crate) fn found_components(&self) -> (found: Vec<Vec<usize>>)
        requires
            self.wf(),
        ensures
            rows(found) == tarjan_order(self@.out),
            splits_nodes(rows(found), self@.keys.len()),
            groups_by_reach(rows(found), self@.out),
    {
        store_components(&self.store)
    }

    /// The key of the node at index `ix`.
    pub(crate) fn key_at(&self, ix: usize) -> (key: usize)
        requires
            self.wf(),
            ix < self@.keys.len(),
        ensures
            key == self@.keys[ix as int],
    {
        store_key(&self.store, ix)
    }

    /// The targets of the outgoing edges of the node at index `ix`, by index.
    pub(crate) fn neighbor_indices(&self, ix: usize) -> (list: Vec<usize>)
        requires
            self.wf(),
            ix < self@.keys.len(),
        ensures
            list@ == targets(self@.out[ix as int]),
            list.len() <= u32::MAX,
            forall|j: int| 0 <= j < list.len() ==> (#[trigger] list[j]) < self@.keys.len(),
    {
        // The edge count bounds the length of every outgoing list.
        let _edges = store_edge_count(&self.store);
        let list = store_neighbors(&self.store, ix);
        proof {
            lemma_arc_total_covers(self@.out, ix as int);
            assert forall|j: int| 0 <= j < list.len() implies (#[trigger] list[j]) < self@.keys.len() by {
                assert(list[j] == self@.out[ix as int][j].0);
            }
        }
        list
    }

    /// Whether the node at index `a` has an edge to the node at index `b`.
    pub(crate) fn arc_exists(&self, a: usize, b: usize) -> (found: bool)
        requires
            self.wf(),
            a < self@.keys.len(),
            b < self@.keys.len(),
        ensures
            found == has_arc_to(self@.out[a as int], b),
    {
        store_contains_edge(&self.store, a, b)
    }

    /// The node index that holds `key`, if the key is alive.
    pub(crate) fn slot(&self, key: usize) -> (res: Option<usize>)
        requires
            self.wf(),
        ensures
            match res {
                Some(ix) => self@.alive(key) && ix == self@.index_of(key) && ix < self@.keys.len()
                    && self@.keys[ix as int] == key,
                None => !self@.alive(key),
            },
    {
        if key < self.slots.len() {
            match self.slots[key] {
                Some(ix) => {
                    assert(self@.keys[ix as int] == key);
                    proof {
                        let jx = self@.keys.index_of(key);
                        assert(0 <= jx < self@.keys.len() && self@.keys[jx] == key);
                    }
                    Some(ix)
                },
                None => {
                    assert(!self@.keys.contains(key)) by {
                        if self@.keys.contains(key) {
                            let i = choose|i: int| 0 <= i < self@.keys.len() && self@.keys[i] == key;
                            assert(self.slots[self@.keys[i] as int] == Some(i as usize));
                        }
                    }
                    None
                },
            }
        } else {
            None
        }
    }

    /// Adds an edge from `from` to `to`, beside any edge that already joins
    /// them. An edge from a node to itself is not added, and that is no error.
    pub fn add_edge(&mut self, from: usize, to: usize, weight: u64) -> (res: Result<
        (),
        GraphError,
    >)
        requires
            old(self).wf(),
        ensures
            final(self).wf(),
            match res {
                Ok(()) => final(self)@ == (if from == to {
                    old(self)@
                } else {
                    old(self)@.with_arc(old(self)@.index_of(from), old(self)@.index_of(to), weight)
                }),
                Err(e) => final(self)@ == old(self)@,
            },
            res == add_edge_outcome(old(self)@, from, to, weight),
    {
        let a = match self.slot(from) {
            Some(a) => a,
            None => { return Err(GraphError::UnknownNode); },
        };
        let b = match self.slot(to) {
            Some(b) => b,
            None => { return Err(GraphError::UnknownNode); },
        };
        if weight == 0 {
            return Err(GraphError::ZeroWeight);
        }
        if from == to {
            return Ok(());
        }
        if store_edge_count(&self.store) >= u32::MAX as usize {
            return Err(GraphError::EdgeLimit);
        }
        let ghost before = self@;
        store_add_edge(&mut self.store, a, b, weight);
        proof {
            assert(self@ == before.with_arc(a as int, b as int, weight));
            lemma_with_arc_valid(before, a as int, b as int, weight);
        }
        Ok(())
    }

    /// Counts one more co-purchase of the products `from` and `to`: the edge
    /// that joins the two nodes, in either direction, gains 1, or a new edge
    /// of weight 1 from `from` to `to` is added where none joins them. One
    /// product taken twice changes nothing.
    pub fn record_co_purchase(&mut self, from: usize, to: usize) -> (res: Result<(), GraphError>)
        requires
            old(self).wf(),
        ensures
            final(self).wf(),
            match res {
                Ok(()) => final(self)@ == old(self)@.co_purchased(from, to),
                Err(e) => final(self)@ == old(self)@,
            },
            res == co_purchase_outcome(old(self)@, from, to),
            res is Ok && from != to ==> final(self)@.between(from, to) == old(self)@.between(from, to)
                + 1,
    {
        proof {
            if from != to && co_purchase_outcome(self@, from, to) is Ok {
                self.lemma_valid();
                crate::laws::lemma_co_purchase_adds_one(self@, from, to, from, to);
                crate::laws::lemma_co_purchase_adds_one(self@, from, to, to, from);
            }
        }
        let a = match self.slot(from) {
            Some(a) => a,
            None => { return Err(GraphError::UnknownNode); },
        };
        let b = match self.slot(to) {
            Some(b) => b,
            None => { return Err(GraphError::UnknownNode); },
        };
        if from == to {
            return Ok(());
        }
        proof {
            self.lemma_valid();
        }
        match store_first_weight(&self.store, a, b) {
            Some(weight) => {
                assert(weight == self@.first_weight(a as int, b as int));
                self.raise(a, b, weight)
            },
            None => match store_first_weight(&self.store, b, a) {
                Some(weight) => {
                    assert(weight == self@.first_weight(b as int, a as int));
                    self.raise(b, a, weight)
                },
                None => {
                    if store_edge_count(&self.store) >= u32::MAX as usize {
                        return Err(GraphError::EdgeLimit);
                    }
                    let ghost before = self@;
                    store_add_edge(&mut self.store, a, b, 1);
                    proof {
                        assert(self@ == before.with_arc(a as int, b as int, 1));
                        lemma_with_arc_valid(before, a as int, b as int, 1);
                    }
                    Ok(())
                },
            },
        }
    }

    /// Raises the first edge from node `a` to node `b`, which has the weight
    /// `weight`, by 1.
    fn raise(&mut self, a: usize, b: usize, weight: u64) -> (res: Result<(), GraphError>)
        requires
            old(self).wf(),
            a < old(self)@.keys.len(),
            b < old(self)@.keys.len(),
            has_arc_to(old(self)@.out[a as int], b),
            weight == old(self)@.first_weight(a as int, b as int),
        ensures
            final(self).wf(),
            res == (if weight < u64::MAX {
                Ok::<(), GraphError>(())
            } else {
                Err::<(), GraphError>(GraphError::WeightLimit)
            }),
            res is Ok ==> final(self)@ == old(self)@.raised(a as int, b as int),
            res is Err ==> final(self)@ == old(self)@,
    {
        if weight == u64::MAX {
            return Err(GraphError::WeightLimit);
        }
        let ghost before = self@;
        store_update_edge(&mut self.store, a, b, weight + 1);
        proof {
            crate::laws::lemma_first_arc(before.out[a as int], b);
            let j = first_arc_to(before.out[a as int], b);
            assert(self@ == before.with_weight(a as int, j, (weight + 1) as u64));
            lemma_with_weight_valid(before, a as int, j, (weight + 1) as u64);
        }
        Ok(())
    }

    /// Removes the node with this key, and every edge from or to it. Answers
    /// whether there was such a node.
    pub fn remove_node(&mut self, key: usize) -> (removed: bool)
        requires
            old(self).wf(),
        ensures
            final(self).wf(),
            removed == old(self)@.alive(key),
            removed ==> final(self)@ == old(self)@.without_index(old(self)@.index_of(key)),
            !removed ==> final(self)@ == old(self)@,
            forall|k: usize| final(self)@.alive(k) <==> old(self)@.alive(k) && k != key,
            forall|x: usize, y: usize|
                #[trigger] final(self)@.linked(x, y) <==> old(self)@.linked(x, y) && x != key && y
                    != key,
            forall|x: usize, y: usize|
                x != key && y != key ==> #[trigger] final(self)@.weight(x, y) == old(self)@.weight(
                    x,
                    y,
                ),
    {
        let a = match self.slot(key) {
            Some(a) => a,
            None => { return false; },
        };
        proof {
            self.lemma_valid();
            assert forall|x: usize, y: usize|
                #[trigger] self@.without_index(a as int).linked(x, y) <==> self@.linked(x, y) && x
                    != key && y != key by {
                crate::removal::lemma_without_index_linked(self@, a as int, x, y);
            }
            assert forall|x: usize, y: usize| x != key && y != key implies #[trigger] self@.without_index(
                a as int,
            ).weight(x, y) == self@.weight(x, y) by {
                crate::removal::lemma_without_index_weight(self@, a as int, x, y);
            }
        }
        let ghost before = self@;
        let ghost old_slots = self.slots@;
        let last = store_node_count(&self.store) - 1;
        let moved = store_key(&self.store, last);
        store_remove_node(&mut self.store, a);
        self.products.set(key, None);
        self.slots.set(key, None);
        if a != last {
            self.slots.set(moved, Some(a));
        }
        proof {
            assert(self@.products =~= before.products.update(key as int, None));
            assert(self@ == before.without_index(a as int));
            lemma_without_index_valid(before, a as int);
            lemma_without_index_alive(before, a as int);
            assert forall|i: int| 0 <= i < self@.keys.len() implies self.slots[(
            #[trigger] self@.keys[i]) as int] == Some(i as usize) by {
                if i == a {
                    assert(self@.keys[i] == before.keys[last as int]);
                } else {
                    assert(self@.keys[i] == before.keys[i]);
                    assert(old_slots[before.keys[i] as int] == Some(i as usize));
                }
            }
            assert forall|k: int| 0 <= k < self.slots.len() implies (match #[trigger] self.slots[k] {
                Some(ix) => ix < self@.keys.len() && self@.keys[ix as int] == k,
                None => true,
            }) by {
                if k != key && k != moved {
                    assert(self.slots[k] == old_slots[k]);
                    match old_slots[k] {
                        Some(ix) => {
                            assert(before.keys[ix as int] == k);
                            assert(ix != a);
                            assert(ix != last);
                        },
                        None => {},
                    }
                }
            }
        }
        true
    }

    /// The keys of the nodes, in node order.
    pub fn nodes(&self) -> (keys: Vec<usize>)
        requires
            self.wf(),
        ensures
            keys@ == self@.keys,
    {
        let n = store_node_count(&self.store);
        let mut keys: Vec<usize> = Vec::new();
        let mut i: usize = 0;
        while i < n
            invariant
                i <= n,
                n == self@.keys.len(),
                keys@ == self@.keys.take(i as int),
            decreases n - i,
        {
            keys.push(store_key(&self.store, i));
            assert(keys@ =~= self@.keys.take(i + 1));
            i += 1;
        }
        assert(self@.keys.take(n as int) =~= self@.keys);
        keys
    }

    /// The outgoing edges of the node with this key, most recently added
    /// first, each as the key of its target and its weight; no edge for a key
    /// that names no node.
    pub fn links(&self, key: usize) -> (list: Vec<Arc>)
        requires
            self.wf(),
        ensures
            self@.alive(key) ==> list@ == self@.links(key),
            !self@.alive(key) ==> list@.len() == 0,
    {
        let a = match self.slot(key) {
            Some(a) => a,
            None => { return Vec::new(); },
        };
        let raw = store_out_edges(&self.store, a);
        let mut list: Vec<Arc> = Vec::new();
        let mut j: usize = 0;
        while j < raw.len()
            invariant
                j <= raw.len(),
                self.wf(),
                a < self@.keys.len(),
                raw@ == self@.out[a as int],
                list@ == self@.keyed(raw@).take(j as int),
            decreases raw.len() - j,
        {
            let arc = raw[j];
            assert(arc == self@.out[a as int][j as int]);
            let target = store_key(&self.store, arc.0);
            list.push((target, arc.1));
            assert(list@ =~= self@.keyed(raw@).take(j + 1));
            j += 1;
        }
        assert(self@.keyed(raw@).take(raw.len() as int) =~= self@.keyed(raw@));
        list
    }

    /// The keys of the nodes that the node with this key has an edge to, one
    /// per edge, most recently added edge first.
    pub fn neighbors(&self, key: usize) -> (list: Vec<usize>)
        requires
            self.wf(),
        ensures
            self@.alive(key) ==> list@ == targets(self@.links(key)),
            !self@.alive(key) ==> list@.len() == 0,
    {
        let a = match self.slot(key) {
            Some(a) => a,
            None => { return Vec::new(); },
        };
        let raw = store_neighbors(&self.store, a);
        let mut list: Vec<usize> = Vec::new();
        let mut j: usize = 0;
        while j < raw.len()
            invariant
                j <= raw.len(),
                self.wf(),
                a < self@.keys.len(),
                raw@ == targets(self@.out[a as int]),
                list@ == targets(self@.links(key)).take(j as int),
                self@.index_of(key) == a,
            decreases raw.len() - j,
        {
            let t = raw[j];
            assert(t == self@.out[a as int][j as int].0);
            list.push(store_key(&self.store, t));
            assert(list@ =~= targets(self@.links(key)).take(j + 1));
            j += 1;
        }
        assert(targets(self@.links(key)).take(raw.len() as int) =~= targets(self@.links(key)));
        list
    }

    /// Whether there is an edge from the node with key `from` to the node
    /// with key `to`.
    pub fn has_edge(&self, from: usize, to: usize) -> (found: bool)
        requires
            self.wf(),
        ensures
            found == self@.linked(from, to),
    {
        match (self.slot(from), self.slot(to)) {
            (Some(a), Some(b)) => store_contains_edge(&self.store, a, b),
            _ => false,
        }
    }

    /// The weight of the first edge from `from` to `to`, if there is one.
    pub fn edge_weight(&self, from: usize, to: usize) -> (weight: Option<u64>)
        requires
            self.wf(),
        ensures
            weight is Some <==> self@.linked(from, to),
            weight is Some ==> weight->0 == self@.weight(from, to),
    {
        match (self.slot(from), self.slot(to)) {
            (Some(a), Some(b)) => store_first_weight(&self.store, a, b),
            _ => None,
        }
    }

    /// The product of the node with this key; nothing for a key that names
    /// no node.
    pub fn product(&self, key: usize) -> (res: Option<&Product>)
        requires
            self.wf(),
        ensures
            res is Some <==> self@.alive(key),
            res is Some ==> Some(res->0@) == self@.products[key as int],
    {
        proof {
            self.lemma_valid();
            if self@.alive(key) {
                let i = choose|i: int| 0 <= i < self@.keys.len() && self@.keys[i] == key;
                assert(self@.keys[i] < self@.products.len());
            }
        }
        if key < self.products.len() {
            assert(self@.products[key as int] == shown(self.products[key as int]));
            match &self.products[key] {
                Some(product) => Some(product),
                None => None,
            }
        } else {
            None
        }
    }

    /// A copy that shares nothing with this graph.
    pub fn duplicate(&self) -> (copy: CoPurchaseGraph)
        requires
            self.wf(),
        ensures
            copy.wf(),
            copy@ == self@,
    {
        let mut products: Vec<Option<Product>> = Vec::new();
        let mut slots: Vec<Option<usize>> = Vec::new();
        let mut k: usize = 0;
        while k < self.products.len()
            invariant
                k <= self.products.len(),
                self.slots.len() == self.products.len(),
                products.len() == k,
                slots@ == self.slots@.take(k as int),
                forall|i: int| 0 <= i < k ==> shown(#[trigger] products[i]) == shown(self.products[i]),
            decreases self.products.len() - k,
        {
            let product = match &self.products[k] {
                Some(product) => Some(product.duplicate()),
                None => None,
            };
            products.push(product);
            slots.push(self.slots[k]);
            assert(slots@ =~= self.slots@.take(k + 1));
            k += 1;
        }
        assert(self.slots@.take(k as int) =~= self.slots@);
        let copy = CoPurchaseGraph { store: store_clone(&self.store), products, slots };
        assert(copy@.products =~= self@.products);
        copy
    }
}

/// What [`CoPurchaseGraph::add_edge`] answers: the first of the failures
/// listed here that applies, and success when none does.
pub open spec fn add_edge_outcome(g: GraphView, from: usize, to: usize, weight: u64) -> Result<
    (),
    GraphError,
> {
    if !g.alive(from) || !g.alive(to) {
        Err(GraphError::UnknownNode)
    } else if weight == 0 {
        Err(GraphError::ZeroWeight)
    } else if from != to && g.edge_total() >= u32::MAX {
        Err(GraphError::EdgeLimit)
    } else {
        Ok(())
    }
}

/// Whether `list` holds `key`.
pub(crate) fn holds_key(list: &Vec<usize>, key: usize) -> (found: bool)
    ensures
        found == list@.contains(key),
{
    let mut at: usize = 0;
    while at < list.len()
        invariant
            at <= list.len(),
            forall|i: int| 0 <= i < at ==> list@[i] != key,
        decreases list.len() - at,
    {
        if list[at] == key {
            return true;
        }
        at += 1;
    }
    false
}

/// Why [`CoPurchaseGraph::add_node`] refuses a product with this identifier,
/// where it does.
pub open spec fn add_node_failure(g: GraphView, id: Seq<char>) -> GraphError {
    if g.knows(id) {
        GraphError::DuplicateProduct
    } else {
        GraphError::NodeLimit
    }
}

/// What [`CoPurchaseGraph::record_co_purchase`] answers: the first of the
/// failures listed here that applies, and success when none does.
pub open spec fn co_purchase_outcome(g: GraphView, from: usize, to: usize) -> Result<
    (),
    GraphError,
> {
    let a = g.index_of(from);
    let b = g.index_of(to);
    if !g.alive(from) || !g.alive(to) {
        Err(GraphError::UnknownNode)
    } else if from == to {
        Ok(())
    } else if has_arc_to(g.out[a], b as usize) {
        if g.first_weight(a, b) == u64::MAX {
            Err(GraphError::WeightLimit)
        } else {
            Ok(())
        }
    } else if has_arc_to(g.out[b], a as usize) {
        if g.first_weight(b, a) == u64::MAX {
            Err(GraphError::WeightLimit)
        } else {
            Ok(())
        }
    } else if g.edge_total() >= u32::MAX {
        Err(GraphError::EdgeLimit)
    } else {
        Ok(())
    }
}

/// No node has more outgoing edges than the graph has edges.
pub proof fn lemma_arc_total_covers(out: Seq<Seq<Arc>>, a: int)
    requires
        0 <= a < out.len(),
    ensures
        out[a].len() <= arc_total(out),
    decreases out.len(),
{
    if a < out.len() - 1 {
        lemma_arc_total_covers(out.drop_last(), a);
        assert(out.drop_last()[a] == out[a]);
    }
}

/// Adding a node for a product whose identifier no node has keeps the
/// invariant.
pub proof fn lemma_with_node_valid(g: GraphView, product: ProductView)
    requires
        g.valid(),
        g.keys.len() < u32::MAX,
        g.products.len() <= usize::MAX,
        !g.knows(product.id),
    ensures
        g.with_node(product).valid(),
{
    let h = g.with_node(product);
    let fresh = g.products.len() as usize;
    assert(!g.alive(fresh)) by {
        if g.alive(fresh) {
            let i = choose|i: int| 0 <= i < g.keys.len() && g.keys[i] == fresh;
            assert(g.keys[i] < g.products.len());
        }
    }
    assert forall|i: int| 0 <= i < h.keys.len() implies (#[trigger] h.keys[i]) < h.products.len()
        && h.products[h.keys[i] as int] is Some by {
        if i < g.keys.len() {
            assert(h.keys[i] == g.keys[i]);
        }
    }
    assert forall|key: usize|
        key < h.products.len() && (#[trigger] h.products[key as int]) is Some implies h.alive(
        key,
    ) by {
        if key < g.products.len() {
            assert(g.products[key as int] is Some);
            let i = choose|i: int| 0 <= i < g.keys.len() && g.keys[i] == key;
            assert(h.keys[i] == key);
        } else {
            assert(h.keys[g.keys.len() as int] == key);
        }
    }
    assert forall|i: int, j: int|
        0 <= i < h.keys.len() && 0 <= j < h.keys.len() && i != j implies (#[trigger] h.keys[i])
        != (#[trigger] h.keys[j]) && h.products[h.keys[i] as int]->0.id != h.products[h.keys[j] as int]->0.id by {
        if i < g.keys.len() {
            assert(h.keys[i] == g.keys[i]);
            assert(g.alive(g.keys[i]));
            assert(!g.holds_id(g.keys[i], product.id));
        }
        if j < g.keys.len() {
            assert(h.keys[j] == g.keys[j]);
            assert(g.alive(g.keys[j]));
            assert(!g.holds_id(g.keys[j], product.id));
        }
    }
    assert forall|i: int, j: int| 0 <= i < h.out.len() && 0 <= j < h.out[i].len() implies {
        &&& (#[trigger] h.out[i][j]).0 < h.keys.len()
        &&& h.out[i][j].0 != i
        &&& h.out[i][j].1 >= 1
    } by {
        assert(h.out[i] == g.out[i]);
    }
}

/// Adding an edge between two different nodes keeps the invariant.
pub proof fn lemma_with_arc_valid(g: GraphView, a: int, b: int, weight: u64)
    requires
        g.valid(),
        0 <= a < g.keys.len(),
        0 <= b < g.keys.len(),
        a != b,
        weight >= 1,
    ensures
        g.with_arc(a, b, weight).valid(),
{
    let h = g.with_arc(a, b, weight);
    assert forall|i: int, j: int| 0 <= i < h.out.len() && 0 <= j < h.out[i].len() implies {
        &&& (#[trigger] h.out[i][j]).0 < h.keys.len()
        &&& h.out[i][j].0 != i
        &&& h.out[i][j].1 >= 1
    } by {
        if i == a {
            if j > 0 {
                assert(h.out[i][j] == g.out[i][j - 1]);
            }
        } else {
            assert(h.out[i][j] == g.out[i][j]);
        }
    }
}

/// Replacing the weight of an edge by a positive one keeps the invariant.
pub proof fn lemma_with_weight_valid(g: GraphView, a: int, j: int, weight: u64)
    requires
        g.valid(),
        0 <= a < g.keys.len(),
        0 <= j < g.out[a].len(),
        weight >= 1,
    ensures
        g.with_weight(a, j, weight).valid(),
{
    let h = g.with_weight(a, j, weight);
    assert forall|i: int, k: int| 0 <= i < h.out.len() && 0 <= k < h.out[i].len() implies {
        &&& (#[trigger] h.out[i][k]).0 < h.keys.len()
        &&& h.out[i][k].0 != i
        &&& h.out[i][k].1 >= 1
    } by {
        if i == a && k == j {
            assert(g.out[a][j].0 < g.keys.len());
        } else {
            assert(h.out[i][k] == g.out[i][k]);
        }
    }
}

/// Every edge that is left after a removal comes from an edge that did not
/// point to the removed node.
pub proof fn lemma_arcs_after_removal_source(list: Seq<Arc>, gone: usize, last: usize, j: int)
    requires
        0 <= j < arcs_after_removal(list, gone, last).len(),
    ensures
        exists|k: int|
            0 <= k < list.len() && (#[trigger] list[k]).0 != gone && arcs_after_removal(
                list,
                gone,
                last,
            )[j] == moved_arc(list[k], gone, last),
    decreases list.len(),
{
    let before = arcs_after_removal(list.drop_last(), gone, last);
    if list.len() > 0 {
        if j < before.len() {
            lemma_arcs_after_removal_source(list.drop_last(), gone, last, j);
            let k = choose|k: int|
                0 <= k < list.drop_last().len() && (#[trigger] list.drop_last()[k]).0 != gone
                    && before[j] == moved_arc(list.drop_last()[k], gone, last);
            assert(list[k] == list.drop_last()[k]);
        } else {
            assert(list[list.len() - 1] == list.last());
        }
    }
}

/// Removing a node keeps the invariant.
pub proof fn lemma_without_index_valid(g: GraphView, a: int)
    requires
        g.valid(),
        0 <= a < g.keys.len(),
    ensures
        g.without_index(a).valid(),
{
    let h = g.without_index(a);
    let last = g.keys.len() - 1;
    lemma_without_index_alive(g, a);
    assert forall|i: int| 0 <= i < h.keys.len() implies (#[trigger] h.keys[i]) < h.products.len()
        && h.products[h.keys[i] as int] is Some by {
        if i == a {
            assert(h.keys[i] == g.keys[last]);
        } else {
            assert(h.keys[i] == g.keys[i]);
        }
    }
    assert forall|key: usize|
        key < h.products.len() && (#[trigger] h.products[key as int]) is Some implies h.alive(
        key,
    ) by {
        assert(key != g.keys[a]);
        assert(g.products[key as int] is Some);
    }
    assert forall|i: int, j: int|
        0 <= i < h.keys.len() && 0 <= j < h.keys.len() && i != j implies (#[trigger] h.keys[i])
        != (#[trigger] h.keys[j]) && h.products[h.keys[i] as int]->0.id != h.products[h.keys[j] as int]->0.id by {
        let si = if i == a {
            last
        } else {
            i
        };
        let sj = if j == a {
            last
        } else {
            j
        };
        assert(h.keys[i] == g.keys[si] && h.keys[j] == g.keys[sj]);
    }
    assert forall|i: int, j: int| 0 <= i < h.out.len() && 0 <= j < h.out[i].len() implies {
        &&& (#[trigger] h.out[i][j]).0 < h.keys.len()
        &&& h.out[i][j].0 != i
        &&& h.out[i][j].1 >= 1
    } by {
        let src = if i == a {
            last
        } else {
            i
        };
        assert(h.out[i] == arcs_after_removal(g.out[src], a as usize, last as usize));
        lemma_arcs_after_removal_source(g.out[src], a as usize, last as usize, j);
        let k = choose|k: int|
            0 <= k < g.out[src].len() && (#[trigger] g.out[src][k]).0 != a as usize && h.out[i][j]
                == moved_arc(g.out[src][k], a as usize, last as usize);
        assert(g.out[src][k].0 < g.keys.len());
    }
}

/// After a node is removed, exactly the other keys are alive.
pub proof fn lemma_without_index_alive(g: GraphView, a: int)
    requires
        g.valid(),
        0 <= a < g.keys.len(),
    ensures
        forall|k: usize| g.without_index(a).alive(k) <==> g.alive(k) && k != g.keys[a],
{
    let h = g.without_index(a);
    let last = g.keys.len() - 1;
    assert forall|k: usize| h.alive(k) <==> g.alive(k) && k != g.keys[a] by {
        if h.alive(k) {
            let i = choose|i: int| 0 <= i < h.keys.len() && h.keys[i] == k;
            if i == a {
                assert(g.keys[last] == k);
            } else {
                assert(g.keys[i] == k);
            }
        }
        if g.alive(k) && k != g.keys[a] {
            let i = choose|i: int| 0 <= i < g.keys.len() && g.keys[i] == k;
            if i == last {
                assert(h.keys[a] == k);
            } else {
                assert(h.keys[i] == k);
            }
        }
    }
}

} // verus!
