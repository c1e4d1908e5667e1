//! What holds of every table between operations, and across operations.
use vstd::prelude::*;
use vstd::multiset::Multiset;
use crate::layout::{LEAF_NODE_CELL_MAX_NUM, PAGE_MAX_NUM, PAGE_SIZE};
use crate::node::{LeafCell, Row, keys_ascending};
use crate::pager::{Pager, lemma_image_page_aligned, lemma_reopen};
use crate::table::{
    Cursor, Table, blocks_of, contains_key, entries, inserted, left_half, merged, placed,
    right_half, lemma_entries_ascending, lemma_leaf_page,
    lemma_same_nodes_all, root_of, rows_of, tree_wf,
};

verus! {

/// The file that teardown writes is a whole number of pages.
pub proof fn lemma_file_page_aligned(t: Table)
    requires
        t.wf(),
    ensures
        t.pager.image().len() % PAGE_SIZE as nat == 0,
{
    lemma_image_page_aligned(t.pager);
}

/// Between operations: page 0 is the root and the only node marked as root; no node holds more
/// cells than its kind has room for; every leaf's keys strictly ascend; each separator of an
/// internal root is the largest key under its child, and every key under the right child lies
/// above the last separator.
pub proof fn lemma_tree_invariants(t: Table)
    requires
        t.wf(),
    ensures
        ({
            let p = t.pager;
            let r = root_of(p);
            let n = r.internal_cells.len() as int;
            &&& p.node_at(0) is Some
            &&& r.is_root
            &&& r.within_capacity()
            &&& r.is_leaf() ==> keys_ascending(r.leaf_cells)
            &&& !r.is_leaf() ==> forall|s: int|
                0 <= s <= n ==> {
                    let c = #[trigger] p.node_at(r.child_at(s) as int);
                    &&& c is Some
                    &&& c.unwrap().is_leaf()
                    &&& !c.unwrap().is_root
                    &&& c.unwrap().within_capacity()
                    &&& keys_ascending(c.unwrap().leaf_cells)
                }
            &&& !r.is_leaf() ==> forall|s: int|
                0 <= s < n ==> (#[trigger] p.node_at(r.child_at(s) as int)).unwrap().max_key()
                    == r.internal_cells[s].key
            &&& !r.is_leaf() ==> forall|k: int|
                0 <= k < p.node_at(r.right_child as int).unwrap().leaf_cells.len() ==> #[trigger] p.node_at(
                    r.right_child as int,
                ).unwrap().leaf_cells[k].key > r.internal_cells[n - 1].key
        }),
        keys_ascending(entries(t.pager)),
{
    let p = t.pager;
    let r = root_of(p);
    let n = r.internal_cells.len() as int;
    lemma_entries_ascending(p);
    if !r.is_leaf() {
        let bs = blocks_of(p);
        assert forall|s: int| 0 <= s <= n implies {
            let c = #[trigger] p.node_at(r.child_at(s) as int);
            &&& c is Some
            &&& c.unwrap().is_leaf()
            &&& !c.unwrap().is_root
            &&& c.unwrap().within_capacity()
            &&& keys_ascending(c.unwrap().leaf_cells)
        } by {
            lemma_leaf_page(p, s);
        }
        assert forall|s: int| 0 <= s < n implies (#[trigger] p.node_at(
            r.child_at(s) as int,
        )).unwrap().max_key() == r.internal_cells[s].key by {
            lemma_leaf_page(p, s);
        }
        lemma_leaf_page(p, n);
        assert(r.child_at(n) == r.right_child);
    }
}

/// Inserting a record adds it to the records, whatever the position.
pub proof fn lemma_inserted_multiset(old: Seq<LeafCell>, new: Seq<LeafCell>, c: LeafCell)
    requires
        inserted(old, new, c),
    ensures
        new.to_multiset() == old.to_multiset().insert(c),
{
    broadcast use vstd::seq_lib::group_to_multiset_ensures;

    let k = choose|k: int| 0 <= k <= old.len() && new == old.insert(k, c);
    assert(new.remove(k) =~= old);
    assert(new[k] == c);
    assert(old.to_multiset() =~= new.to_multiset().remove(c));
    assert(new.contains(c));
    assert(new.to_multiset() =~= old.to_multiset().insert(c));
}

/// Records with strictly ascending keys are fixed by which records they are: the same records,
/// inserted in any order, are listed alike.
pub proof fn lemma_ascending_unique(a: Seq<LeafCell>, b: Seq<LeafCell>)
    requires
        keys_ascending(a),
        keys_ascending(b),
        a.to_multiset() == b.to_multiset(),
    ensures
        a == b,
    decreases a.len(),
{
    broadcast use vstd::seq_lib::group_to_multiset_ensures;

    assert(a.len() == a.to_multiset().len());
    assert(b.len() == b.to_multiset().len());
    if a.len() > 0 {
        let n = a.len() - 1;
        let x = a[n];
        let y = b[n];
        assert(a.contains(x));
        assert(a.to_multiset().count(x) > 0);
        assert(b.to_multiset().count(x) > 0);
        assert(b.contains(x));
        assert(b.contains(y));
        assert(b.to_multiset().count(y) > 0);
        assert(a.to_multiset().count(y) > 0);
        assert(a.contains(y));
        let i = choose|i: int| 0 <= i < b.len() && b[i] == x;
        let j = choose|j: int| 0 <= j < a.len() && a[j] == y;
        if i < n {
            assert(b[i].key < b[n].key);
        }
        if j < n {
            assert(a[j].key < a[n].key);
        }
        assert(x == y);
        assert(a.remove(n) =~= a.drop_last());
        assert(b.remove(n) =~= b.drop_last());
        lemma_ascending_unique(a.drop_last(), b.drop_last());
        assert(a =~= a.drop_last().push(x));
        assert(b =~= b.drop_last().push(y));
    }
}

/// `new` holds the records of `old` with the records `cs` inserted one after the other, each
/// at some position.
pub open spec fn inserted_all(old: Seq<LeafCell>, new: Seq<LeafCell>, cs: Seq<LeafCell>) -> bool
    decreases cs.len(),
{
    if cs.len() == 0 {
        new == old
    } else {
        exists|mid: Seq<LeafCell>| inserted_all(old, mid, cs.drop_last()) && inserted(mid, new, cs.last())
    }
}

/// Inserting records one after the other adds them all to the records.
pub proof fn lemma_inserted_all_multiset(old: Seq<LeafCell>, new: Seq<LeafCell>, cs: Seq<LeafCell>)
    requires
        inserted_all(old, new, cs),
    ensures
        new.to_multiset() == old.to_multiset().add(cs.to_multiset()),
    decreases cs.len(),
{
    broadcast use vstd::seq_lib::group_to_multiset_ensures;

    if cs.len() == 0 {
        assert(cs.to_multiset() =~= Multiset::empty());
        assert(old.to_multiset().add(cs.to_multiset()) =~= old.to_multiset());
    } else {
        let mid = choose|mid: Seq<LeafCell>|
            inserted_all(old, mid, cs.drop_last()) && inserted(mid, new, cs.last());
        lemma_inserted_all_multiset(old, mid, cs.drop_last());
        lemma_inserted_multiset(mid, new, cs.last());
        assert(cs =~= cs.drop_last().push(cs.last()));
        assert(cs.to_multiset() =~= cs.drop_last().to_multiset().insert(cs.last()));
        assert(new.to_multiset() =~= old.to_multiset().add(cs.to_multiset()));
    }
}

/// Whatever the order in which the same records are inserted into a table, the table ends up
/// listing them alike, ascending by key.
pub proof fn lemma_insertion_order(
    old: Seq<LeafCell>,
    cs1: Seq<LeafCell>,
    cs2: Seq<LeafCell>,
    new1: Seq<LeafCell>,
    new2: Seq<LeafCell>,
)
    requires
        inserted_all(old, new1, cs1),
        inserted_all(old, new2, cs2),
        cs1.to_multiset() == cs2.to_multiset(),
        keys_ascending(new1),
        keys_ascending(new2),
    ensures
        new1 == new2,
{
    lemma_inserted_all_multiset(old, new1, cs1);
    lemma_inserted_all_multiset(old, new2, cs2);
    lemma_ascending_unique(new1, new2);
}

/// Two tables that hold the same records list them in the same order, however the records
/// came in: ascending by key.
pub proof fn lemma_same_records_same_order(t1: Table, t2: Table)
    requires
        t1.wf(),
        t2.wf(),
        entries(t1.pager).to_multiset() == entries(t2.pager).to_multiset(),
    ensures
        entries(t1.pager) == entries(t2.pager),
        rows_of(entries(t1.pager)) == rows_of(entries(t2.pager)),
{
    lemma_entries_ascending(t1.pager);
    lemma_entries_ascending(t2.pager);
    lemma_ascending_unique(entries(t1.pager), entries(t2.pager));
}

/// A pager opened on the file that a table's teardown wrote holds the same tree and the same
/// records, so that the table opens on it again.
pub proof fn lemma_reopen_table(t: Table, q: Pager)
    requires
        t.wf(),
        q.wf(),
        q.file@ == t.pager.image(),
        q.n_pages == q.file_pages(),
        forall|i: int| 0 <= i < PAGE_MAX_NUM ==> !q.cached(i),
    ensures
        q.n_pages == t.pager.n_pages,
        tree_wf(q),
        entries(q) == entries(t.pager),
{
    let p = t.pager;
    lemma_reopen(p, q);
    assert forall|i: int| #[trigger] p.node_at(i) == q.node_at(i) by {
        if i >= p.n_pages || i < 0 {
            if 0 <= i < PAGE_MAX_NUM {
                assert(!p.cached(i));
            }
        }
    }
    lemma_same_nodes_all(p, q);
}

/// Once a record is inserted the table holds its key, so that inserting the same key again is
/// refused as a duplicate and leaves the records as they are.
pub proof fn lemma_insert_twice(p: Pager, q: Pager, c: LeafCell)
    requires
        inserted(entries(p), entries(q), c),
    ensures
        contains_key(q, c.key),
{
    let k = choose|k: int| 0 <= k <= entries(p).len() && entries(q) == entries(p).insert(k, c);
    assert(entries(q)[k] == c);
}

/// Every record sits under its row's id.
pub open spec fn keys_are_ids(cells: Seq<LeafCell>) -> bool {
    forall|i: int| 0 <= i < cells.len() ==> #[trigger] cells[i].key == cells[i].value.id
}

/// Rows strictly ascend by id.
pub open spec fn ids_ascending(rows: Seq<Row>) -> bool {
    forall|i: int, j: int| 0 <= i < j < rows.len() ==> rows[i].id < rows[j].id
}

/// Inserting records whose keys are their rows' ids keeps every key the id of its row.
pub proof fn lemma_keys_are_ids_kept(old: Seq<LeafCell>, new: Seq<LeafCell>, cs: Seq<LeafCell>)
    requires
        inserted_all(old, new, cs),
        keys_are_ids(old),
        keys_are_ids(cs),
    ensures
        keys_are_ids(new),
    decreases cs.len(),
{
    if cs.len() > 0 {
        let mid = choose|mid: Seq<LeafCell>|
            inserted_all(old, mid, cs.drop_last()) && inserted(mid, new, cs.last());
        assert(keys_are_ids(cs.drop_last())) by {
            assert forall|i: int| 0 <= i < cs.drop_last().len() implies #[trigger] cs.drop_last()[i].key
                == cs.drop_last()[i].value.id by {
                assert(cs.drop_last()[i] == cs[i]);
            }
        }
        lemma_keys_are_ids_kept(old, mid, cs.drop_last());
        let c = cs.last();
        assert(c == cs[cs.len() - 1]);
        let k = choose|k: int| 0 <= k <= mid.len() && new == mid.insert(k, c);
        assert forall|i: int| 0 <= i < new.len() implies #[trigger] new[i].key == new[i].value.id by {
            if i < k {
                assert(new[i] == mid[i]);
            } else if i > k {
                assert(new[i] == mid[i - 1]);
            }
        }
    }
}

/// Where every key is its row's id, the table's rows, as `select` lists them, ascend by id.
pub proof fn lemma_rows_sorted_by_id(t: Table)
    requires
        t.wf(),
        keys_are_ids(entries(t.pager)),
    ensures
        ids_ascending(rows_of(entries(t.pager))),
{
    lemma_entries_ascending(t.pager);
    let e = entries(t.pager);
    assert forall|i: int, j: int| 0 <= i < j < rows_of(e).len() implies rows_of(e)[i].id
        < rows_of(e)[j].id by {
        assert(e[i].key == e[i].value.id);
        assert(e[j].key == e[j].value.id);
    }
}

/// Rows inserted in any order into a table without records, then written out at teardown and
/// read back, are all there, each once, and `select` lists them ascending by id.
pub proof fn lemma_any_order_sorted_after_reopen(t: Table, cs: Seq<LeafCell>, q: Pager)
    requires
        t.wf(),
        inserted_all(Seq::empty(), entries(t.pager), cs),
        keys_are_ids(cs),
        q.wf(),
        q.file@ == t.pager.image(),
        q.n_pages == q.file_pages(),
        forall|i: int| 0 <= i < PAGE_MAX_NUM ==> !q.cached(i),
    ensures
        tree_wf(q),
        entries(q).to_multiset() == cs.to_multiset(),
        ids_ascending(rows_of(entries(q))),
{
    lemma_reopen_table(t, q);
    lemma_inserted_all_multiset(Seq::empty(), entries(t.pager), cs);
    assert(Seq::<LeafCell>::empty().to_multiset().add(cs.to_multiset()) =~= cs.to_multiset()) by {
        broadcast use vstd::seq_lib::group_to_multiset_ensures;

        assert(Seq::<LeafCell>::empty().to_multiset() =~= Multiset::empty());
    }
    lemma_keys_are_ids_kept(Seq::empty(), entries(t.pager), cs);
    lemma_rows_sorted_by_id(t);
}

/// An insert into a leaf root with room keeps the page count, and the root stays a leaf with one
/// more record: the first thirteen inserts into a fresh table leave it with one page.
pub proof fn lemma_insert_into_root_leaf(p: Pager, q: Pager, cur: Cursor, c: LeafCell)
    requires
        tree_wf(p),
        root_of(p).is_leaf(),
        root_of(p).leaf_cells.len() < LEAF_NODE_CELL_MAX_NUM,
        cur.positioned(p, c.key),
        placed(p, q, cur, c),
    ensures
        q.n_pages == p.n_pages,
        root_of(q).is_leaf(),
        root_of(q).is_root,
        root_of(q).leaf_cells.len() == root_of(p).leaf_cells.len() + 1,
{
    lemma_leaf_page(p, 0);
}

/// An insert into a table whose only page is a full leaf root, as a fresh table is after
/// thirteen inserts, splits the root: page 0 becomes an internal root with one separator, over
/// page 2 on the left and page 1 on the right, each a leaf of seven records, and the table has
/// three pages.
pub proof fn lemma_fourteenth_insert(p: Pager, q: Pager, cur: Cursor, c: LeafCell)
    requires
        tree_wf(p),
        p.n_pages == 1,
        root_of(p).is_leaf(),
        root_of(p).leaf_cells.len() == LEAF_NODE_CELL_MAX_NUM,
        cur.positioned(p, c.key),
        placed(p, q, cur, c),
    ensures
        q.n_pages == 3,
        q.node_at(0) is Some,
        !root_of(q).is_leaf(),
        root_of(q).is_root,
        root_of(q).internal_cells.len() == 1,
        root_of(q).internal_cells[0].child == 2,
        root_of(q).right_child == 1,
        q.node_at(1) is Some && q.node_at(1).unwrap().is_leaf(),
        q.node_at(2) is Some && q.node_at(2).unwrap().is_leaf(),
        q.node_at(1).unwrap().leaf_cells.len() == 7,
        q.node_at(2).unwrap().leaf_cells.len() == 7,
        q.node_at(2).unwrap().leaf_cells + q.node_at(1).unwrap().leaf_cells == merged(p, cur, c),
{
    crate::layout::lemma_layout();
    lemma_leaf_page(p, 0);
    let m = merged(p, cur, c);
    assert(left_half(m) + right_half(m) =~= m);
}

} // verus!
