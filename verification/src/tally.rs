//! What the weights of a built graph count: for two products, the users who
//! bought both.

use crate::builder::{
    ledger_of, lemma_position, linked_list, linked_lists, linked_pair, linked_row, position,
    is_position, Ledger,
};
use crate::records::RecordView;
use crate::graph::{co_purchase_outcome, GraphView};
use crate::laws::{lemma_co_purchase_adds_one, lemma_index_of, lemma_new_arc, lemma_raised};
use crate::store::{has_arc_to, targets};
use vstd::prelude::*;

verus! {

/// Whether `p` and `q` are `x` and `y`, in either order.
pub open spec fn is_pair(p: usize, q: usize, x: usize, y: usize) -> bool {
    (p == x && q == y) || (p == y && q == x)
}

/// Whether `x` and `y` are purchase `i` of `list` and a later purchase before
/// position `upto`.
pub open spec fn in_row(list: Seq<usize>, i: int, upto: int, x: usize, y: usize) -> bool {
    exists|j: int| i < j < upto && j < list.len() && is_pair(list[i], #[trigger] list[j], x, y)
}

/// Whether `x` and `y` are a purchase of `list` before position `upto` and a
/// later purchase of `list`.
pub open spec fn in_rows(list: Seq<usize>, upto: int, x: usize, y: usize) -> bool {
    exists|i: int| 0 <= i < upto && i < list.len() && #[trigger] in_row(list, i, list.len() as int, x, y)
}

/// Number of the first `upto` lists that hold both `x` and `y`: the users
/// who bought both products.
pub open spec fn buyers(lists: Seq<Seq<usize>>, upto: int, x: usize, y: usize) -> nat
    decreases upto,
{
    if upto <= 0 {
        0
    } else {
        buyers(lists, upto - 1, x, y) + (if lists[upto - 1].contains(x) && lists[upto - 1].contains(
            y,
        ) {
            1nat
        } else {
            0nat
        })
    }
}

/// One more co-purchase of two different products adds 1 to the weight
/// between them, and nothing to the weight between any other two.
pub proof fn lemma_co_purchase_between(g: GraphView, from: usize, to: usize, x: usize, y: usize)
    requires
        g.valid(),
        from != to,
        x != y,
        co_purchase_outcome(g, from, to) is Ok,
    ensures
        g.co_purchased(from, to).valid(),
        g.co_purchased(from, to).keys == g.keys,
        g.co_purchased(from, to).products == g.products,
        g.co_purchased(from, to).between(x, y) == g.between(x, y) + (if is_pair(from, to, x, y) {
            1nat
        } else {
            0nat
        }),
{
    lemma_co_purchase_adds_one(g, from, to, x, y);
    lemma_co_purchase_adds_one(g, from, to, y, x);
}

/// One more co-purchase of two different products leaves at most one edge
/// between any two nodes.
pub proof fn lemma_co_purchase_simple(g: GraphView, from: usize, to: usize)
    requires
        g.valid(),
        g.simple(),
        from != to,
        co_purchase_outcome(g, from, to) is Ok,
    ensures
        g.co_purchased(from, to).simple(),
{
    let h = g.co_purchased(from, to);
    let a = g.index_of(from);
    let b = g.index_of(to);
    assert(0 <= a < g.keys.len() && g.keys[a] == from);
    assert(0 <= b < g.keys.len() && g.keys[b] == to);
    lemma_co_purchase_adds_one(g, from, to, from, to);
    assert(h.out.len() == g.out.len());
    assert forall|i: int| 0 <= i < h.out.len() implies (#[trigger] targets(h.out[i])).no_duplicates() by {
        assert(targets(g.out[i]).no_duplicates());
        if has_arc_to(g.out[a], b as usize) {
            lemma_raised(g, a, b, i, 0);
        } else if has_arc_to(g.out[b], a as usize) {
            lemma_raised(g, b, a, i, 0);
        } else if i == a {
            let list = g.out[a];
            let after = h.out[a];
            assert forall|m: int, n: int|
                0 <= m < after.len() && 0 <= n < after.len() && m != n implies targets(after)[m]
                != targets(after)[n] by {
                if m > 0 && n > 0 {
                    assert(after[m] == list[m - 1] && after[n] == list[n - 1]);
                    assert(targets(list)[m - 1] != targets(list)[n - 1]);
                } else if m == 0 {
                    assert(after[n] == list[n - 1]);
                } else {
                    assert(after[m] == list[m - 1]);
                }
            }
        } else {
            assert(h.out[i] == g.out[i]);
        }
    }
    assert forall|i: int, j: int| 0 <= i < h.out.len() && 0 <= j < h.out.len() implies !(
    #[trigger] has_arc_to(h.out[i], j as usize) && #[trigger] has_arc_to(h.out[j], i as usize)) by {
        assert(!(has_arc_to(g.out[i], j as usize) && has_arc_to(g.out[j], i as usize)));
        if has_arc_to(g.out[a], b as usize) {
            lemma_raised(g, a, b, i, j as usize);
            lemma_raised(g, a, b, j, i as usize);
        } else if has_arc_to(g.out[b], a as usize) {
            lemma_raised(g, b, a, i, j as usize);
            lemma_raised(g, b, a, j, i as usize);
        } else {
            lemma_new_arc(g, a, b, 1, i, j as usize);
            lemma_new_arc(g, a, b, 1, j, i as usize);
        }
    }
}

/// The co-purchases of one purchase with the later ones add 1 to the weight
/// between that product and each of the later ones.
pub proof fn lemma_row_weights(g: GraphView, list: Seq<usize>, i: int, upto: int, x: usize, y: usize)
    requires
        g.valid(),
        g.simple(),
        list.no_duplicates(),
        0 <= i < list.len(),
        upto <= list.len(),
        x != y,
        linked_row(g, list, i, upto) is Ok,
    ensures
        linked_row(g, list, i, upto)->Ok_0.valid(),
        linked_row(g, list, i, upto)->Ok_0.simple(),
        linked_row(g, list, i, upto)->Ok_0.keys == g.keys,
        linked_row(g, list, i, upto)->Ok_0.products == g.products,
        linked_row(g, list, i, upto)->Ok_0.between(x, y) == g.between(x, y) + (if in_row(
            list,
            i,
            upto,
            x,
            y,
        ) {
            1nat
        } else {
            0nat
        }),
    decreases upto - i,
{
    if upto > i + 1 {
        let mid = linked_row(g, list, i, upto - 1)->Ok_0;
        lemma_row_weights(g, list, i, upto - 1, x, y);
        let p = list[i];
        let q = list[upto - 1];
        assert(p != q);
        assert(linked_pair(mid, p, q) is Ok);
        lemma_co_purchase_between(mid, p, q, x, y);
        lemma_co_purchase_simple(mid, p, q);
        if in_row(list, i, upto - 1, x, y) {
            let j = choose|j: int|
                i < j < upto - 1 && j < list.len() && is_pair(list[i], #[trigger] list[j], x, y);
            assert(is_pair(list[i], list[j], x, y));
            assert(in_row(list, i, upto, x, y));
            if is_pair(p, q, x, y) {
                assert(list[j] == list[upto - 1]);
            }
        }
        if is_pair(p, q, x, y) {
            assert(is_pair(list[i], list[upto - 1], x, y));
            assert(in_row(list, i, upto, x, y));
        }
        if in_row(list, i, upto, x, y) {
            let j = choose|j: int|
                i < j < upto && j < list.len() && is_pair(list[i], #[trigger] list[j], x, y);
            if j < upto - 1 {
                assert(in_row(list, i, upto - 1, x, y));
            }
        }
    } else {
        if in_row(list, i, upto, x, y) {
            let j = choose|j: int|
                i < j < upto && j < list.len() && is_pair(list[i], #[trigger] list[j], x, y);
        }
    }
}

/// The co-purchases of one list add 1 to the weight between every two of its
/// products.
pub proof fn lemma_list_weights(g: GraphView, list: Seq<usize>, upto: int, x: usize, y: usize)
    requires
        g.valid(),
        g.simple(),
        list.no_duplicates(),
        0 <= upto <= list.len(),
        x != y,
        linked_list(g, list, upto) is Ok,
    ensures
        linked_list(g, list, upto)->Ok_0.valid(),
        linked_list(g, list, upto)->Ok_0.simple(),
        linked_list(g, list, upto)->Ok_0.keys == g.keys,
        linked_list(g, list, upto)->Ok_0.products == g.products,
        linked_list(g, list, upto)->Ok_0.between(x, y) == g.between(x, y) + (if in_rows(
            list,
            upto,
            x,
            y,
        ) {
            1nat
        } else {
            0nat
        }),
    decreases upto,
{
    let n = list.len() as int;
    if upto > 0 {
        let mid = linked_list(g, list, upto - 1)->Ok_0;
        lemma_list_weights(g, list, upto - 1, x, y);
        lemma_row_weights(mid, list, upto - 1, n, x, y);
        if in_rows(list, upto - 1, x, y) {
            let i = choose|i: int|
                0 <= i < upto - 1 && i < list.len() && #[trigger] in_row(list, i, n, x, y);
            assert(in_row(list, i, n, x, y));
            assert(in_rows(list, upto, x, y));
            if in_row(list, upto - 1, n, x, y) {
                let j = choose|j: int|
                    i < j < n && j < list.len() && is_pair(list[i], #[trigger] list[j], x, y);
                let k = choose|k: int|
                    upto - 1 < k < n && k < list.len() && is_pair(
                        list[upto - 1],
                        #[trigger] list[k],
                        x,
                        y,
                    );
                assert(list[i] == list[upto - 1] || list[i] == list[k]);
                assert(list[j] == list[upto - 1] || list[j] == list[k]);
            }
        }
        if in_row(list, upto - 1, n, x, y) {
            assert(in_rows(list, upto, x, y));
        }
        if in_rows(list, upto, x, y) {
            let i = choose|i: int|
                0 <= i < upto && i < list.len() && #[trigger] in_row(list, i, n, x, y);
            if i < upto - 1 {
                assert(in_rows(list, upto - 1, x, y));
            }
        }
    } else {
        if in_rows(list, upto, x, y) {
            let i = choose|i: int|
                0 <= i < upto && i < list.len() && #[trigger] in_row(list, i, n, x, y);
        }
    }
}

/// Two different products are a purchase of a list and a later one exactly
/// when the list holds both.
pub proof fn lemma_rows_hold_both(list: Seq<usize>, x: usize, y: usize)
    requires
        x != y,
    ensures
        in_rows(list, list.len() as int, x, y) <==> list.contains(x) && list.contains(y),
{
    let n = list.len() as int;
    if in_rows(list, n, x, y) {
        let i = choose|i: int| 0 <= i < n && i < list.len() && #[trigger] in_row(list, i, n, x, y);
        let j = choose|j: int|
            i < j < n && j < list.len() && is_pair(list[i], #[trigger] list[j], x, y);
        assert(list.contains(list[i]) && list.contains(list[j]));
    }
    if list.contains(x) && list.contains(y) {
        let p = choose|p: int| 0 <= p < list.len() && list[p] == x;
        let q = choose|q: int| 0 <= q < list.len() && list[q] == y;
        if p < q {
            assert(is_pair(list[p], list[q], x, y));
            assert(in_row(list, p, n, x, y));
        } else {
            assert(is_pair(list[q], list[p], x, y));
            assert(in_row(list, q, n, x, y));
        }
    }
}

/// The co-purchases of the lists of all users make the weight between two
/// different products the number of users who bought both, and leave at most
/// one edge between any two nodes.
pub proof fn lemma_lists_weights(
    g: GraphView,
    lists: Seq<Seq<usize>>,
    upto: int,
    x: usize,
    y: usize,
)
    requires
        g.valid(),
        g.simple(),
        forall|u: int| 0 <= u < lists.len() ==> (#[trigger] lists[u]).no_duplicates(),
        0 <= upto <= lists.len(),
        x != y,
        linked_lists(g, lists, upto) is Ok,
    ensures
        linked_lists(g, lists, upto)->Ok_0.valid(),
        linked_lists(g, lists, upto)->Ok_0.simple(),
        linked_lists(g, lists, upto)->Ok_0.keys == g.keys,
        linked_lists(g, lists, upto)->Ok_0.products == g.products,
        linked_lists(g, lists, upto)->Ok_0.between(x, y) == g.between(x, y) + buyers(
            lists,
            upto,
            x,
            y,
        ),
    decreases upto,
{
    if upto > 0 {
        let mid = linked_lists(g, lists, upto - 1)->Ok_0;
        lemma_lists_weights(g, lists, upto - 1, x, y);
        let list = lists[upto - 1];
        lemma_list_weights(mid, list, list.len() as int, x, y);
        lemma_rows_hold_both(list, x, y);
    }
}

/// In a graph with at most one edge between any two nodes, two nodes are
/// joined exactly when the weight between them is not zero.
pub proof fn lemma_joined_by_weight(g: GraphView, x: usize, y: usize)
    requires
        g.valid(),
    ensures
        g.linked(x, y) || g.linked(y, x) <==> g.between(x, y) > 0,
{
    if g.linked(x, y) {
        let a = g.index_of(x);
        let b = g.index_of(y);
        assert(0 <= a < g.keys.len() && g.keys[a] == x);
        crate::laws::lemma_first_arc(g.out[a], b as usize);
        let j = crate::store::first_arc_to(g.out[a], b as usize);
        assert(g.out[a][j].1 >= 1);
    }
    if g.linked(y, x) {
        let a = g.index_of(y);
        let b = g.index_of(x);
        assert(0 <= a < g.keys.len() && g.keys[a] == y);
        crate::laws::lemma_first_arc(g.out[a], b as usize);
        let j = crate::store::first_arc_to(g.out[a], b as usize);
        assert(g.out[a][j].1 >= 1);
    }
}

/// Whether some record says that `user` bought `product`.
pub open spec fn bought(records: Seq<RecordView>, user: Seq<char>, product: Seq<char>) -> bool {
    exists|i: int|
        0 <= i < records.len() && (#[trigger] records[i]).user_id == user && records[i].product_id
            == product
}

/// Whether the ledger reads the records rightly: no user and no product
/// stands twice in it, every user and every product of a record stands in
/// it, and the list of a user holds exactly the products that some record
/// says the user bought.
pub open spec fn reads(ledger: Ledger, records: Seq<RecordView>) -> bool {
    &&& ledger.users.no_duplicates()
    &&& ledger.ids().no_duplicates()
    &&& ledger.lists.len() == ledger.users.len()
    &&& ledger.catalog.len() <= records.len()
    &&& forall|i: int|
        0 <= i < records.len() ==> ledger.users.contains((#[trigger] records[i]).user_id)
            && ledger.ids().contains(records[i].product_id)
    &&& forall|u: int, k: usize|
        0 <= u < ledger.users.len() ==> (#[trigger] ledger.lists[u].contains(k) <==> k
            < ledger.catalog.len() && bought(records, ledger.users[u], ledger.catalog[k as int].id))
}

/// The position of a text that stands in a list without repetition is its
/// place, and the position of a text that stands nowhere is the length.
pub proof fn lemma_position_of(texts: Seq<Seq<char>>, text: Seq<char>)
    requires
        texts.no_duplicates(),
    ensures
        0 <= position(texts, text) <= texts.len(),
        texts.contains(text) <==> position(texts, text) < texts.len(),
        position(texts, text) < texts.len() ==> texts[position(texts, text)] == text,
        forall|i: int| 0 <= i < texts.len() && texts[i] == text ==> position(texts, text) == i,
{
    if texts.contains(text) {
        let at = choose|at: int| 0 <= at < texts.len() && texts[at] == text;
        assert forall|i: int| 0 <= i < at implies (#[trigger] texts[i]) != text by {}
        lemma_position(texts, text, at);
    } else {
        assert forall|i: int| 0 <= i < texts.len() implies (#[trigger] texts[i]) != text by {
            if texts[i] == text {
                assert(texts.contains(text));
            }
        }
        lemma_position(texts, text, texts.len() as int);
    }
}

/// The ledger of a sequence of records reads them rightly.
pub proof fn lemma_ledger_reads(records: Seq<RecordView>)
    requires
        records.len() <= usize::MAX,
    ensures
        reads(ledger_of(records), records),
    decreases records.len(),
{
    if records.len() > 0 {
        let rest = records.drop_last();
        let r = records.last();
        let old = ledger_of(rest);
        let new = ledger_of(records);
        lemma_ledger_reads(rest);
        lemma_position_of(old.ids(), r.product_id);
        lemma_position_of(old.users, r.user_id);
        let key = position(old.ids(), r.product_id);
        let user = position(old.users, r.user_id);
        assert(new == old.entered(r));
        assert(key as usize == key);
        assert(old.ids().len() == old.catalog.len());
        assert(new.ids().len() == new.catalog.len());
        assert forall|k: int| 0 <= k < old.catalog.len() implies new.catalog[k] == old.catalog[k]
            && new.ids()[k] == old.ids()[k] by {}
        assert(new.ids()[key] == r.product_id) by {
            if key < old.catalog.len() {
                assert(old.ids()[key] == r.product_id);
            }
        }
        assert(new.users[user] == r.user_id);
        assert forall|u: int| 0 <= u < old.users.len() implies new.users[u] == old.users[u] by {}
        assert(new.users.no_duplicates()) by {
            assert forall|a: int, b: int|
                0 <= a < new.users.len() && 0 <= b < new.users.len() && a != b implies new.users[a]
                != new.users[b] by {
                if a < old.users.len() && b < old.users.len() {
                    assert(old.users[a] != old.users[b]);
                } else if a < old.users.len() {
                    assert(old.users[a] != r.user_id) by {
                        if old.users[a] == r.user_id {
                            assert(old.users.contains(r.user_id));
                        }
                    }
                } else if b < old.users.len() {
                    assert(old.users[b] != r.user_id) by {
                        if old.users[b] == r.user_id {
                            assert(old.users.contains(r.user_id));
                        }
                    }
                }
            }
        }
        assert(new.ids().no_duplicates()) by {
            assert forall|a: int, b: int|
                0 <= a < new.ids().len() && 0 <= b < new.ids().len() && a != b implies new.ids()[a]
                != new.ids()[b] by {
                if a < old.ids().len() && b < old.ids().len() {
                    assert(old.ids()[a] != old.ids()[b]);
                } else if a < old.ids().len() {
                    assert(old.ids()[a] != r.product_id) by {
                        if old.ids()[a] == r.product_id {
                            assert(old.ids().contains(r.product_id));
                        }
                    }
                } else if b < old.ids().len() {
                    assert(old.ids()[b] != r.product_id) by {
                        if old.ids()[b] == r.product_id {
                            assert(old.ids().contains(r.product_id));
                        }
                    }
                }
            }
        }
        assert forall|i: int| 0 <= i < records.len() implies new.users.contains(
            (#[trigger] records[i]).user_id,
        ) && new.ids().contains(records[i].product_id) by {
            if i < rest.len() {
                assert(records[i] == rest[i]);
                assert(old.users.contains(rest[i].user_id));
                assert(old.ids().contains(rest[i].product_id));
                let a = choose|a: int| 0 <= a < old.users.len() && old.users[a] == rest[i].user_id;
                assert(new.users[a] == rest[i].user_id);
                let b = choose|b: int| 0 <= b < old.ids().len() && old.ids()[b] == rest[i].product_id;
                assert(new.ids()[b] == rest[i].product_id);
            } else {
                assert(new.users[user] == r.user_id);
                assert(new.ids()[key] == r.product_id);
            }
        }
        assert forall|u: int, k: usize| 0 <= u < new.users.len() implies (
        #[trigger] new.lists[u].contains(k) <==> k < new.catalog.len() && bought(
            records,
            new.users[u],
            new.catalog[k as int].id,
        )) by {
            let held = new.lists[u].contains(k);
            let said = k < new.catalog.len() && bought(records, new.users[u], new.catalog[k as int].id);
            // what the earlier records say of this user and this product
            let before = u < old.users.len() && k < old.catalog.len() && bought(
                rest,
                old.users[u],
                old.catalog[k as int].id,
            );
            let now = u == user && k == key;
            assert(said <==> before || now) by {
                if said {
                    let i = choose|i: int|
                        0 <= i < records.len() && (#[trigger] records[i]).user_id == new.users[u]
                            && records[i].product_id == new.catalog[k as int].id;
                    if i < rest.len() {
                        assert(rest[i] == records[i]);
                        assert(old.users.contains(rest[i].user_id));
                        assert(old.ids().contains(rest[i].product_id));
                        let a = choose|a: int|
                            0 <= a < old.users.len() && old.users[a] == rest[i].user_id;
                        assert(new.users[a] == new.users[u]);
                        assert(a == u);
                        let b = choose|b: int|
                            0 <= b < old.ids().len() && old.ids()[b] == rest[i].product_id;
                        assert(new.ids()[b] == new.ids()[k as int]);
                        assert(b == k);
                        assert(before);
                    } else {
                        assert(new.users[u] == new.users[user]);
                        assert(new.ids()[k as int] == new.ids()[key]);
                        assert(now);
                    }
                }
                if before {
                    let i = choose|i: int|
                        0 <= i < rest.len() && (#[trigger] rest[i]).user_id == old.users[u]
                            && rest[i].product_id == old.catalog[k as int].id;
                    assert(records[i] == rest[i]);
                    assert(new.ids()[k as int] == old.ids()[k as int]);
                }
                if now {
                    assert(records[records.len() - 1] == r);
                    assert(new.ids()[k as int] == r.product_id);
                }
            }
            if u < old.users.len() {
                assert(old.lists[u].contains(k) <==> before);
                if u == user {
                    if old.lists[u].contains(key as usize) {
                        assert(new.lists[u] == old.lists[u]);
                    } else {
                        let grown = old.lists[u].push(key as usize);
                        assert(new.lists[u] == grown);
                        assert(grown[old.lists[u].len() as int] == key as usize);
                        if old.lists[u].contains(k) {
                            let m = choose|m: int| 0 <= m < old.lists[u].len() && old.lists[u][m] == k;
                            assert(grown[m] == k);
                        }
                        if grown.contains(k) && k != key {
                            let m = choose|m: int| 0 <= m < grown.len() && grown[m] == k;
                            assert(old.lists[u][m] == k);
                        }
                    }
                } else {
                    assert(new.lists[u] == old.lists[u]);
                }
            } else {
                assert(u == user);
                assert(new.lists[u] == seq![key as usize]);
                assert(seq![key as usize][0] == key as usize);
                assert(!before);
            }
        }
    } else {
        let blank = ledger_of(records);
        assert(blank.ids().len() == 0);
    }
}

} // verus!
