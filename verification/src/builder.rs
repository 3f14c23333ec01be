//! The graph builder: from purchase records to the co-purchase graph.
//!
//! Every distinct product becomes a node, with the attributes of the record
//! that names it first. Every user's products are listed in the order of
//! their first purchase, each once, and for every user, in the order in which
//! the users first appear, every pair of that list counts as one co-purchase.
//! Two products are joined by one edge, whatever the order in which users
//! bought them, and its weight is the number of users who bought both.

use crate::graph::{
    co_purchase_outcome, holds_key, CoPurchaseGraph, GraphError, GraphView, Product, ProductView,
};
use crate::records::{first_fault, parse_records, record_of, Record, RecordError, RecordView};
use crate::tally::{buyers, lemma_joined_by_weight, lemma_ledger_reads, lemma_lists_weights, reads};
use vstd::prelude::*;

verus! {

/// Whether `at` is where `text` first stands in `texts`, or the length of
/// `texts` when it stands nowhere.
pub open spec fn is_position(texts: Seq<Seq<char>>, text: Seq<char>, at: int) -> bool {
    &&& 0 <= at <= texts.len()
    &&& forall|i: int| 0 <= i < at ==> (#[trigger] texts[i]) != text
    &&& at < texts.len() ==> texts[at] == text
}

/// Where `text` first stands in `texts`, or the length of `texts`.
pub open spec fn position(texts: Seq<Seq<char>>, text: Seq<char>) -> int {
    choose|at: int| is_position(texts, text, at)
}

/// There is one position only.
pub proof fn lemma_position(texts: Seq<Seq<char>>, text: Seq<char>, at: int)
    requires
        is_position(texts, text, at),
    ensures
        position(texts, text) == at,
{
    let other = position(texts, text);
    assert(is_position(texts, text, other));
    if other < at {
        assert(texts[other] != text);
    }
    if at < other {
        assert(texts[at] != text);
    }
}

/// The text of each string.
pub open spec fn texts_of(strings: Seq<String>) -> Seq<Seq<char>> {
    Seq::new(strings.len(), |k: int| strings[k]@)
}

/// The text of each record.
pub open spec fn views_of(records: Seq<Record>) -> Seq<RecordView> {
    Seq::new(records.len(), |k: int| records[k]@)
}

/// The product that a record describes.
pub open spec fn product_of(record: RecordView) -> ProductView {
    ProductView {
        id: record.product_id,
        category: record.category,
        price: record.price,
        name: record.name,
    }
}

/// What the builder knows after reading some records: the distinct products
/// in the order of their first record, the distinct users in the order of
/// their first record, and for each user the keys of the products bought, in
/// record order.
pub struct Ledger {
    pub catalog: Seq<ProductView>,
    pub users: Seq<Seq<char>>,
    pub lists: Seq<Seq<usize>>,
}

impl Ledger {
    /// The identifiers of the products, by key.
    pub open spec fn ids(self) -> Seq<Seq<char>> {
        Seq::new(self.catalog.len(), |k: int| self.catalog[k].id)
    }

    /// The ledger before any record.
    pub open spec fn blank() -> Ledger {
        Ledger { catalog: Seq::empty(), users: Seq::empty(), lists: Seq::empty() }
    }

    /// The ledger after one more record. A product that is already known
    /// keeps its attributes; the purchase is put last in its user's list,
    /// unless the list holds the product already.
    pub open spec fn entered(self, record: RecordView) -> Ledger {
        let key = position(self.ids(), record.product_id);
        let user = position(self.users, record.user_id);
        Ledger {
            catalog: if key == self.catalog.len() {
                self.catalog.push(product_of(record))
            } else {
                self.catalog
            },
            users: if user == self.users.len() {
                self.users.push(record.user_id)
            } else {
                self.users
            },
            lists: if user == self.users.len() {
                self.lists.push(seq![key as usize])
            } else if self.lists[user].contains(key as usize) {
                self.lists
            } else {
                self.lists.update(user, self.lists[user].push(key as usize))
            },
        }
    }
}

/// The ledger after all of `records`.
pub open spec fn ledger_of(records: Seq<RecordView>) -> Ledger
    decreases records.len(),
{
    if records.len() == 0 {
        Ledger::blank()
    } else {
        ledger_of(records.drop_last()).entered(records.last())
    }
}

/// The graph that holds the products of `catalog` as nodes, in key order, and
/// no edge.
pub open spec fn unlinked(catalog: Seq<ProductView>) -> GraphView {
    GraphView {
        products: Seq::new(catalog.len(), |k: int| Some(catalog[k])),
        keys: Seq::new(catalog.len(), |k: int| k as usize),
        out: Seq::new(catalog.len(), |k: int| Seq::empty()),
    }
}

/// The graph after one more co-purchase, or the reason why the graph cannot
/// take it.
pub open spec fn linked_pair(g: GraphView, from: usize, to: usize) -> Result<GraphView, GraphError> {
    match co_purchase_outcome(g, from, to) {
        Ok(()) => Ok(g.co_purchased(from, to)),
        Err(e) => Err(e),
    }
}

/// The graph after the co-purchases of purchase `i` of `list` with each later
/// purchase before position `upto`, in order; or the first failure.
pub open spec fn linked_row(g: GraphView, list: Seq<usize>, i: int, upto: int) -> Result<
    GraphView,
    GraphError,
>
    decreases upto - i,
{
    if upto <= i + 1 {
        Ok(g)
    } else {
        match linked_row(g, list, i, upto - 1) {
            Ok(h) => linked_pair(h, list[i], list[upto - 1]),
            Err(e) => Err(e),
        }
    }
}

/// The graph after the co-purchases of every purchase of `list` before
/// position `upto` with each purchase behind it; or the first failure.
pub open spec fn linked_list(g: GraphView, list: Seq<usize>, upto: int) -> Result<
    GraphView,
    GraphError,
>
    decreases upto,
{
    if upto <= 0 {
        Ok(g)
    } else {
        match linked_list(g, list, upto - 1) {
            Ok(h) => linked_row(h, list, upto - 1, list.len() as int),
            Err(e) => Err(e),
        }
    }
}

/// The graph after the co-purchases of the first `upto` lists, list by list;
/// or the first failure.
pub open spec fn linked_lists(g: GraphView, lists: Seq<Seq<usize>>, upto: int) -> Result<
    GraphView,
    GraphError,
>
    decreases upto,
{
    if upto <= 0 {
        Ok(g)
    } else {
        match linked_lists(g, lists, upto - 1) {
            Ok(h) => linked_list(h, lists[upto - 1], lists[upto - 1].len() as int),
            Err(e) => Err(e),
        }
    }
}

/// The graph that the builder makes of `records`, or the reason why the graph
/// cannot hold them.
pub open spec fn built(records: Seq<RecordView>) -> Result<GraphView, GraphError> {
    let ledger = ledger_of(records);
    if ledger.catalog.len() > u32::MAX {
        Err(GraphError::NodeLimit)
    } else {
        linked_lists(unlinked(ledger.catalog), ledger.lists, ledger.lists.len() as int)
    }
}

/// A failure in a row stays a failure of the whole row.
pub proof fn lemma_row_failure(g: GraphView, list: Seq<usize>, i: int, at: int, upto: int)
    requires
        at <= upto,
        linked_row(g, list, i, at) is Err,
    ensures
        linked_row(g, list, i, upto) == linked_row(g, list, i, at),
    decreases upto - at,
{
    if at < upto {
        lemma_row_failure(g, list, i, at, upto - 1);
    }
}

/// A failure in a list stays a failure of the whole list.
pub proof fn lemma_list_failure(g: GraphView, list: Seq<usize>, at: int, upto: int)
    requires
        at <= upto,
        linked_list(g, list, at) is Err,
    ensures
        linked_list(g, list, upto) == linked_list(g, list, at),
    decreases upto - at,
{
    if at < upto {
        lemma_list_failure(g, list, at, upto - 1);
    }
}

/// A failure in one list stays a failure of all the lists.
pub proof fn lemma_lists_failure(g: GraphView, lists: Seq<Seq<usize>>, at: int, upto: int)
    requires
        at <= upto,
        linked_lists(g, lists, at) is Err,
    ensures
        linked_lists(g, lists, upto) == linked_lists(g, lists, at),
    decreases upto - at,
{
    if at < upto {
        lemma_lists_failure(g, lists, at, upto - 1);
    }
}

/// More records never make the catalog shorter.
pub proof fn lemma_catalog_grows(records: Seq<RecordView>, n: int)
    requires
        0 <= n <= records.len(),
    ensures
        ledger_of(records.take(n)).catalog.len() <= ledger_of(records).catalog.len(),
    decreases records.len() - n,
{
    if n < records.len() {
        lemma_catalog_grows(records.drop_last(), n);
        assert(records.drop_last().take(n) =~= records.take(n));
    } else {
        assert(records.take(n) =~= records);
    }
}

/// Whether the graph counts the buyers of `lists`: it has at most one edge
/// between any two nodes, and the weight between two different products is
/// the number of lists that hold both, which is the number of users who
/// bought both.
pub open spec fn counts_buyers(g: GraphView, lists: Seq<Seq<usize>>) -> bool {
    &&& g.simple()
    &&& forall|x: usize, y: usize|
        x != y ==> #[trigger] g.between(x, y) == buyers(lists, lists.len() as int, x, y)
    &&& forall|x: usize, y: usize|
        x != y ==> ((#[trigger] g.linked(x, y) || g.linked(y, x)) <==> buyers(
            lists,
            lists.len() as int,
            x,
            y,
        ) > 0)
}

/// Why the lines of a table could not be made into a graph.
#[derive(Debug, Clone, Copy, PartialEq, Eq, Structural)]
pub enum ReadError {
    /// A line holds no record.
    Record(RecordError),
    /// The graph cannot hold what the records ask for.
    Graph(GraphError),
}

/// In the graph that holds a catalog and nothing else, the node with a
/// product identifier has the position of that identifier as its key.
pub proof fn lemma_catalog_position(catalog: Seq<ProductView>, id: Seq<char>)
    requires
        unlinked(catalog).valid(),
    ensures
        forall|key: usize|
            #[trigger] unlinked(catalog).holds_id(key, id) ==> key as int == position(
                (Ledger { catalog, users: Seq::empty(), lists: Seq::empty() }).ids(),
                id,
            ),
        !unlinked(catalog).knows(id) ==> position(
            (Ledger { catalog, users: Seq::empty(), lists: Seq::empty() }).ids(),
            id,
        ) == catalog.len(),
{
    let g = unlinked(catalog);
    let ids = (Ledger { catalog, users: Seq::empty(), lists: Seq::empty() }).ids();
    assert forall|key: usize| #[trigger] g.holds_id(key, id) implies key as int == position(
        ids,
        id,
    ) by {
        assert forall|i: int| 0 <= i < key implies (#[trigger] ids[i]) != id by {
            assert(g.keys[i] == i && g.keys[key as int] == key);
            assert(g.products[g.keys[i] as int]->0.id != g.products[g.keys[key as int] as int]->0.id);
        }
        lemma_position(ids, id, key as int);
    }
    if !g.knows(id) {
        assert forall|i: int| 0 <= i < ids.len() implies (#[trigger] ids[i]) != id by {
            assert(g.keys[i] == i);
            assert(g.alive(i as usize));
            assert(!g.holds_id(i as usize, id));
        }
        lemma_position(ids, id, ids.len() as int);
    }
}

/// Where `text` first stands in `texts`, or the length of `texts`.
fn find_text(texts: &Vec<String>, text: &String) -> (at: usize)
    ensures
        is_position(texts_of(texts@), text@, at as int),
        at as int == position(texts_of(texts@), text@),
{
    let mut at: usize = 0;
    while at < texts.len() && texts[at] != *text
        invariant
            at <= texts.len(),
            forall|i: int| 0 <= i < at ==> (#[trigger] texts_of(texts@)[i]) != text@,
        decreases texts.len() - at,
    {
        at += 1;
    }
    proof {
        lemma_position(texts_of(texts@), text@, at as int);
    }
    at
}

/// Counts the co-purchases of purchase `i` of `list` with every later one.
fn link_row(graph: &mut CoPurchaseGraph, list: &Vec<usize>, i: usize) -> (res: Result<(), GraphError>)
    requires
        old(graph).wf(),
        i < list.len(),
    ensures
        final(graph).wf(),
        match res {
            Ok(()) => linked_row(old(graph)@, list@, i as int, list.len() as int) == Ok::<
                GraphView,
                GraphError,
            >(final(graph)@),
            Err(e) => linked_row(old(graph)@, list@, i as int, list.len() as int) == Err::<
                GraphView,
                GraphError,
            >(e),
        },
{
    let ghost start = graph@;
    let mut j: usize = i + 1;
    while j < list.len()
        invariant
            graph.wf(),
            start == old(graph)@,
            i < j <= list.len(),
            linked_row(start, list@, i as int, j as int) == Ok::<GraphView, GraphError>(graph@),
        decreases list.len() - j,
    {
        match graph.record_co_purchase(list[i], list[j]) {
            Ok(()) => {},
            Err(e) => {
                proof {
                    assert(linked_row(start, list@, i as int, j + 1) == Err::<GraphView, GraphError>(
                        e,
                    ));
                    lemma_row_failure(start, list@, i as int, j + 1, list.len() as int);
                }
                return Err(e);
            },
        }
        j += 1;
    }
    Ok(())
}

/// Counts the co-purchases of every pair of purchases of `list`.
fn link_list(graph: &mut CoPurchaseGraph, list: &Vec<usize>) -> (res: Result<(), GraphError>)
    requires
        old(graph).wf(),
    ensures
        final(graph).wf(),
        match res {
            Ok(()) => linked_list(old(graph)@, list@, list.len() as int) == Ok::<
                GraphView,
                GraphError,
            >(final(graph)@),
            Err(e) => linked_list(old(graph)@, list@, list.len() as int) == Err::<
                GraphView,
                GraphError,
            >(e),
        },
{
    let ghost start = graph@;
    let mut i: usize = 0;
    while i < list.len()
        invariant
            graph.wf(),
            start == old(graph)@,
            i <= list.len(),
            linked_list(start, list@, i as int) == Ok::<GraphView, GraphError>(graph@),
        decreases list.len() - i,
    {
        match link_row(graph, list, i) {
            Ok(()) => {},
            Err(e) => {
                proof {
                    assert(linked_list(start, list@, i + 1) == Err::<GraphView, GraphError>(e));
                    lemma_list_failure(start, list@, i + 1, list.len() as int);
                }
                return Err(e);
            },
        }
        i += 1;
    }
    Ok(())
}

/// Builds the co-purchase graph of `records`.
///
/// The graph holds one node for each distinct product, keyed in the order of
/// first appearance and described by the first record that names it. Two
/// different products are joined by an edge exactly when some user bought
/// both, by one edge only, and its weight is the number of users who bought
/// both. The edge leads from the product that the first of those users bought
/// first to the other one. A product that a user bought twice counts once
/// for that user and makes no edge to itself.
pub fn build_graph(records: &Vec<Record>) -> (res: Result<CoPurchaseGraph, GraphError>)
    ensures
        match res {
            Ok(graph) => graph.wf() && built(views_of(records@)) == Ok::<GraphView, GraphError>(
                graph@,
            ),
            Err(e) => built(views_of(records@)) == Err::<GraphView, GraphError>(e),
        },
        res is Ok ==> counts_buyers(res->Ok_0@, ledger_of(views_of(records@)).lists),
        res is Ok ==> res->Ok_0@.keys == unlinked(ledger_of(views_of(records@)).catalog).keys
            && res->Ok_0@.products == unlinked(ledger_of(views_of(records@)).catalog).products,
        reads(ledger_of(views_of(records@)), views_of(records@)),
{
    proof {
        assert(views_of(records@).len() == records.len());
        lemma_ledger_reads(views_of(records@));
    }
    let ghost views = views_of(records@);
    let mut graph = CoPurchaseGraph::new();
    let mut users: Vec<String> = Vec::new();
    let mut lists: Vec<Vec<usize>> = Vec::new();
    let mut at: usize = 0;
    proof {
        assert(views.take(0) =~= Seq::<RecordView>::empty());
        assert(graph@.products =~= unlinked(Seq::empty()).products);
        assert(graph@.keys =~= unlinked(Seq::empty()).keys);
        assert(graph@.out =~= unlinked(Seq::empty()).out);
    }
    while at < records.len()
        invariant
            graph.wf(),
            views == views_of(records@),
            reads(ledger_of(views), views),
            at <= records.len(),
            graph@ == unlinked(ledger_of(views.take(at as int)).catalog),
            forall|u: int| 0 <= u < lists.len() ==> (#[trigger] lists[u])@.no_duplicates(),
            texts_of(users@) == ledger_of(views.take(at as int)).users,
            lists.len() == users.len(),
            lists.len() == ledger_of(views.take(at as int)).lists.len(),
            forall|u: int|
                0 <= u < lists.len() ==> (#[trigger] lists[u])@ == ledger_of(
                    views.take(at as int),
                ).lists[u],
        decreases records.len() - at,
    {
        let record = &records[at];
        let ghost ledger = ledger_of(views.take(at as int));
        let ghost next = ledger.entered(record@);
        proof {
            assert(views.take(at + 1).drop_last() =~= views.take(at as int));
            assert(views.take(at + 1).last() == record@);
            assert(ledger_of(views.take(at + 1)) == next);
            graph.lemma_valid();
            lemma_catalog_position(ledger.catalog, record@.product_id);
        }
        let key = match graph.find_product(&record.product_id) {
            Some(key) => key,
            None => {
                let product = Product {
                    id: record.product_id.clone(),
                    category: record.category.clone(),
                    price: record.price.clone(),
                    name: record.name.clone(),
                };
                assert(product@ == product_of(record@));
                match graph.add_node(product) {
                    Ok(added) => {
                        proof {
                            assert(graph@.products =~= unlinked(next.catalog).products);
                            assert(graph@.keys =~= unlinked(next.catalog).keys);
                            assert(graph@.out =~= unlinked(next.catalog).out);
                        }
                        added
                    },
                    Err(e) => {
                        proof {
                            lemma_catalog_grows(views, at + 1);
                        }
                        return Err(e);
                    },
                }
            },
        };
        assert(key as int == position(ledger.ids(), record@.product_id));
        let user = find_text(&users, &record.user_id);
        assert(users.len() == ledger.users.len()) by {
            assert(texts_of(users@).len() == users.len());
        }
        if user == users.len() {
            users.push(record.user_id.clone());
            let mut list: Vec<usize> = Vec::new();
            list.push(key);
            lists.push(list);
            proof {
                assert(texts_of(users@) =~= next.users);
                assert(lists[user as int]@ =~= seq![key]);
            }
        } else {
            if !holds_key(&lists[user], key) {
                let mut list = Vec::new();
                std::mem::swap(&mut list, &mut lists[user]);
                list.push(key);
                lists.set(user, list);
            }
            proof {
                assert(texts_of(users@) =~= next.users);
            }
        }
        at += 1;
    }
    let ghost ledger = ledger_of(views);
    proof {
        assert(views.take(at as int) =~= views);
        graph.lemma_valid();
    }
    let ghost start = graph@;
    proof {
        assert forall|v: int| 0 <= v < ledger.lists.len() implies (
        #[trigger] ledger.lists[v]).no_duplicates() by {
            assert(lists[v]@ == ledger.lists[v]);
        }
    }
    let mut u: usize = 0;
    while u < lists.len()
        invariant
            graph.wf(),
            u <= lists.len(),
            lists.len() == ledger.lists.len(),
            forall|v: int| 0 <= v < lists.len() ==> (#[trigger] lists[v])@ == ledger.lists[v],
            linked_lists(start, ledger.lists, u as int) == Ok::<GraphView, GraphError>(graph@),
            ledger == ledger_of(views_of(records@)),
            reads(ledger, views_of(records@)),
            start.valid(),
            forall|v: int| 0 <= v < ledger.lists.len() ==> (#[trigger] ledger.lists[v]).no_duplicates(),
            ledger.catalog.len() <= u32::MAX,
            start == unlinked(ledger.catalog),
        decreases lists.len() - u,
    {
        match link_list(&mut graph, &lists[u]) {
            Ok(()) => {},
            Err(e) => {
                proof {
                    assert(linked_lists(start, ledger.lists, u + 1) == Err::<GraphView, GraphError>(
                        e,
                    ));
                    lemma_lists_failure(start, ledger.lists, u + 1, ledger.lists.len() as int);
                }
                return Err(e);
            },
        }
        u += 1;
    }
    proof {
        let lists = ledger.lists;
        assert(start.simple());
        assert forall|x: usize, y: usize| x != y implies #[trigger] graph@.between(x, y) == buyers(
            lists,
            lists.len() as int,
            x,
            y,
        ) by {
            lemma_lists_weights(start, lists, lists.len() as int, x, y);
            assert(!start.linked(x, y) && !start.linked(y, x)) by {
                if start.alive(x) {
                    let a = start.index_of(x);
                    assert(0 <= a < start.keys.len() && start.keys[a] == x);
                }
                if start.alive(y) {
                    let a = start.index_of(y);
                    assert(0 <= a < start.keys.len() && start.keys[a] == y);
                }
            }
        }
        lemma_lists_weights(start, lists, lists.len() as int, 0, 1);
        assert forall|x: usize, y: usize| x != y implies ((#[trigger] graph@.linked(x, y)
            || graph@.linked(y, x)) <==> buyers(lists, lists.len() as int, x, y) > 0) by {
            lemma_joined_by_weight(graph@, x, y);
            assert(graph@.between(x, y) == buyers(lists, lists.len() as int, x, y));
        }
    }
    Ok(graph)
}

/// The records of the lines behind the header, line by line.
pub open spec fn records_in(lines: Seq<Seq<char>>) -> Seq<RecordView> {
    Seq::new(
        if lines.len() == 0 {
            0nat
        } else {
            (lines.len() - 1) as nat
        },
        |i: int| record_of(lines[i + 1])->0,
    )
}

/// Whether every line behind the header holds a record.
pub open spec fn all_records(lines: Seq<Seq<char>>) -> bool {
    forall|i: int| 1 <= i < lines.len() ==> record_of(#[trigger] lines[i]) is Some
}

/// Builds the co-purchase graph of a table of purchases, given as its lines.
/// The first line is the header; every other line holds the product, the
/// user, the category, the price and the name of one purchase, separated by
/// commas; the price has to be a number. The first line that holds no
/// record is reported; otherwise the graph is the one that [`build_graph`]
/// makes of the records.
pub fn read_data(lines: &Vec<String>) -> (res: Result<CoPurchaseGraph, ReadError>)
    ensures
        match res {
            Ok(graph) => graph.wf() && all_records(texts_of(lines@)) && built(
                records_in(texts_of(lines@)),
            ) == Ok::<GraphView, GraphError>(graph@) && counts_buyers(
                graph@,
                ledger_of(records_in(texts_of(lines@))).lists,
            ) && reads(ledger_of(records_in(texts_of(lines@))), records_in(texts_of(lines@))),
            Err(ReadError::Record(e)) => first_fault(texts_of(lines@), e),
            Err(ReadError::Graph(e)) => all_records(texts_of(lines@)) && built(
                records_in(texts_of(lines@)),
            ) == Err::<GraphView, GraphError>(e),
        },
{
    match parse_records(lines) {
        Err(e) => {
            assert(texts_of(lines@) =~= crate::records::line_texts(lines@));
            Err(ReadError::Record(e))
        },
        Ok(records) => {
            proof {
                let texts = texts_of(lines@);
                assert forall|i: int| 1 <= i < texts.len() implies record_of(
                    #[trigger] texts[i],
                ) is Some by {
                    assert(record_of(lines[(i - 1) + 1]@) == Some(records[i - 1]@));
                }
                assert(views_of(records@) =~= records_in(texts));
            }
            match build_graph(&records) {
                Ok(graph) => Ok(graph),
                Err(e) => Err(ReadError::Graph(e)),
            }
        },
    }
}

} // verus!
