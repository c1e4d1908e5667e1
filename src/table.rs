//! The table: a B+-tree of records over the pager, with page 0 as its root.
use vstd::prelude::*;
use crate::layout::{
    INTERNAL_NODE_CELL_MAX_NUM, LEAF_NODE_CELL_MAX_NUM, NOT_EXIST, PAGE_MAX_NUM, PAGE_SIZE,
    SPLIT_LEFT_LEAF_NODE_NUM, SPLIT_RIGHT_LEAF_NODE_NUM,
};
use crate::node::{
    DbError, InternalCell, LeafCell, Node, NodeBody, NodeKind, NodeView, Row, keys_ascending,
};
use crate::pager::Pager;
use crate::statement::{args_bytes, args_error, parse_insert_args, parsed_i64, row_holds};
use crate::tree::{blocks_ordered, concat, slot_ok};
use vstd::string::StringSliceAdditionalSpecFns;

verus! {

/// The root node.
pub open spec fn root_of(p: Pager) -> NodeView {
    p.node_at(0).unwrap()
}

/// Number of leaves: the root itself, or the root's children.
pub open spec fn n_blocks(p: Pager) -> int {
    if root_of(p).is_leaf() {
        1
    } else {
        root_of(p).internal_cells.len() + 1int
    }
}

/// Page of the leaf in `slot`: the root itself, or the root's child there.
pub open spec fn leaf_page(p: Pager, slot: int) -> int {
    if root_of(p).is_leaf() {
        0
    } else {
        root_of(p).child_at(slot) as int
    }
}

/// The separator keys of the root; none where the root is a leaf.
pub open spec fn seps_of(p: Pager) -> Seq<i64> {
    if root_of(p).is_leaf() {
        Seq::empty()
    } else {
        root_of(p).internal_cells.map_values(|c: InternalCell| c.key)
    }
}

/// The records of each leaf, from left to right.
pub open spec fn blocks_of(p: Pager) -> Seq<Seq<LeafCell>> {
    Seq::new(n_blocks(p) as nat, |t: int| p.node_at(leaf_page(p, t)).unwrap().leaf_cells)
}

/// All records of the table, leaf after leaf.
pub open spec fn entries(p: Pager) -> Seq<LeafCell> {
    concat(blocks_of(p))
}

/// Page `c` holds a leaf child of the root.
pub open spec fn leaf_child_ok(p: Pager, c: int) -> bool {
    &&& 1 <= c < PAGE_MAX_NUM
    &&& c < p.n_pages
    &&& p.node_at(c) is Some
    &&& p.node_at(c).unwrap().is_leaf()
    &&& p.node_at(c).unwrap().wf()
    &&& !p.node_at(c).unwrap().is_root
    &&& p.node_at(c).unwrap().parent == 0
}

/// The pages form a tree: page 0 is the root, a leaf with ascending keys or an internal node
/// over distinct leaves whose records agree with its separators.
pub open spec fn tree_wf(p: Pager) -> bool {
    &&& p.node_at(0) is Some
    &&& 0 < p.n_pages
    &&& root_of(p).wf()
    &&& root_of(p).is_root
    &&& root_of(p).parent == NOT_EXIST
    &&& root_of(p).is_leaf() ==> keys_ascending(root_of(p).leaf_cells)
    &&& !root_of(p).is_leaf() ==> {
        &&& root_of(p).internal_cells.len() >= 1
        &&& forall|t: int|
            0 <= t < n_blocks(p) ==> #[trigger] leaf_child_ok(p, root_of(p).child_at(t) as int)
        &&& forall|t1: int, t2: int|
            0 <= t1 < t2 < n_blocks(p) ==> root_of(p).child_at(t1) != root_of(p).child_at(t2)
        &&& blocks_ordered(seps_of(p), blocks_of(p))
    }
}

/// The pagers hold the same file, the same page count and the same node in every page; only
/// what the cache holds may differ.
pub open spec fn same_nodes(p: Pager, q: Pager) -> bool {
    &&& q.n_pages == p.n_pages
    &&& q.file == p.file
    &&& forall|i: int| 0 <= i < PAGE_MAX_NUM ==> #[trigger] q.node_at(i) == p.node_at(i)
}

/// Two well-formed pagers of one file with the same nodes and the same page count hold the
/// same tree.
pub proof fn lemma_same_nodes(p: Pager, q: Pager)
    requires
        p.wf(),
        q.wf(),
        p.file == q.file,
        p.n_pages == q.n_pages,
        forall|i: int| 0 <= i < PAGE_MAX_NUM ==> #[trigger] p.node_at(i) == q.node_at(i),
    ensures
        forall|i: int| #[trigger] q.node_at(i) == p.node_at(i),
        tree_wf(q) == tree_wf(p),
        root_of(q) == root_of(p),
        n_blocks(q) == n_blocks(p),
        seps_of(q) == seps_of(p),
        blocks_of(q) == blocks_of(p),
        entries(q) == entries(p),
        forall|t: int| #[trigger] leaf_page(q, t) == leaf_page(p, t),
{
    assert forall|i: int| #[trigger] q.node_at(i) == p.node_at(i) by {
        if !(0 <= i < PAGE_MAX_NUM) {
            assert(!p.cached(i) && !q.cached(i));
        }
    }
    lemma_same_nodes_all(p, q);
}

/// Two pagers with the same nodes and the same page count hold the same tree.
pub proof fn lemma_same_nodes_all(p: Pager, q: Pager)
    requires
        p.n_pages == q.n_pages,
        forall|i: int| #[trigger] p.node_at(i) == q.node_at(i),
    ensures
        forall|i: int| #[trigger] q.node_at(i) == p.node_at(i),
        tree_wf(q) == tree_wf(p),
        root_of(q) == root_of(p),
        n_blocks(q) == n_blocks(p),
        seps_of(q) == seps_of(p),
        blocks_of(q) == blocks_of(p),
        entries(q) == entries(p),
        forall|t: int| #[trigger] leaf_page(q, t) == leaf_page(p, t),
{
    assert(root_of(q) == root_of(p));
    assert(blocks_of(q) =~= blocks_of(p));
    if tree_wf(p) {
        if !root_of(p).is_leaf() {
            assert forall|t: int| 0 <= t < n_blocks(q) implies #[trigger] leaf_child_ok(
                q,
                root_of(q).child_at(t) as int,
            ) by {
                assert(leaf_child_ok(p, root_of(p).child_at(t) as int));
            }
        }
    }
    if tree_wf(q) {
        if !root_of(q).is_leaf() {
            assert forall|t: int| 0 <= t < n_blocks(p) implies #[trigger] leaf_child_ok(
                p,
                root_of(p).child_at(t) as int,
            ) by {
                assert(leaf_child_ok(q, root_of(q).child_at(t) as int));
            }
        }
    }
}

/// The leaf in `slot` is a leaf node whose records are the block of that slot.
pub proof fn lemma_leaf_page(p: Pager, t: int)
    requires
        tree_wf(p),
        0 <= t < n_blocks(p),
    ensures
        0 <= leaf_page(p, t) < PAGE_MAX_NUM,
        p.node_at(leaf_page(p, t)) is Some,
        p.node_at(leaf_page(p, t)).unwrap().is_leaf(),
        p.node_at(leaf_page(p, t)).unwrap().wf(),
        p.node_at(leaf_page(p, t)).unwrap().leaf_cells == blocks_of(p)[t],
        !root_of(p).is_leaf() ==> leaf_child_ok(p, leaf_page(p, t)),
{
    crate::layout::lemma_layout();
    if !root_of(p).is_leaf() {
        assert(leaf_child_ok(p, root_of(p).child_at(t) as int));
    }
}

/// A record inserted where its key is greater than those before and smaller than those after
/// keeps the keys strictly ascending.
pub proof fn lemma_insert_ascending(block: Seq<LeafCell>, pos: int, c: LeafCell)
    requires
        keys_ascending(block),
        0 <= pos <= block.len(),
        forall|k: int| 0 <= k < pos ==> #[trigger] block[k].key < c.key,
        pos < block.len() ==> c.key < block[pos].key,
    ensures
        keys_ascending(block.insert(pos, c)),
{
    let m = block.insert(pos, c);
    assert forall|i: int, j: int| 0 <= i < j < m.len() implies m[i].key < m[j].key by {
        if j < pos {
        } else if j == pos {
        } else if i < pos {
            assert(m[j] == block[j - 1]);
            assert(block[pos].key <= block[j - 1].key) by {
                if pos < j - 1 {
                    assert(block[pos].key < block[j - 1].key);
                }
            }
        } else if i == pos {
            assert(m[j] == block[j - 1]);
            if pos < j - 1 {
                assert(block[pos].key < block[j - 1].key);
            }
        } else {
            assert(m[i] == block[i - 1] && m[j] == block[j - 1]);
        }
    }
}

/// Facts that hold where a cursor stands at the place of a key that the table lacks.
proof fn lemma_absent_key(p: Pager, cur: Cursor, key: i64)
    requires
        tree_wf(p),
        cur.positioned(p, key),
        !cur.key_at(p, key),
    ensures
        cur.cell_index < blocks_of(p)[cur.slot as int].len() ==> key < blocks_of(
            p,
        )[cur.slot as int][cur.cell_index as int].key,
        cur.slot < seps_of(p).len() ==> key < seps_of(p)[cur.slot as int],
        root_of(p).is_leaf() ==> keys_ascending(blocks_of(p)[cur.slot as int]),
        !root_of(p).is_leaf() ==> blocks_ordered(seps_of(p), blocks_of(p)),
{
    let bs = blocks_of(p);
    let block = bs[cur.slot as int];
    if root_of(p).is_leaf() {
        assert(block == root_of(p).leaf_cells);
    } else if cur.slot < seps_of(p).len() {
        assert(block.len() > 0);
        assert(block.last().key == seps_of(p)[cur.slot as int]);
        if cur.cell_index < block.len() {
            if cur.cell_index < block.len() - 1 {
                assert(block[cur.cell_index as int].key < block.last().key);
            }
        }
    }
}

/// The records of the leaves before `slot`, then the first `cell` records of the leaf there.
pub open spec fn records_before(p: Pager, slot: int, cell: int) -> Seq<LeafCell> {
    concat(blocks_of(p).take(slot)) + blocks_of(p)[slot].take(cell)
}

/// The rows of records.
pub open spec fn rows_of(cells: Seq<LeafCell>) -> Seq<Row> {
    cells.map_values(|c: LeafCell| c.value)
}

/// The position among all records where a cursor stands.
pub open spec fn offset_of(p: Pager, cur: Cursor) -> int {
    records_before(p, cur.slot as int, cur.cell_index as int).len() as int
}

/// The records of a tree whose block `slot` became `mid`, where `mid` holds the old block
/// with `c` inserted at `pos`.
proof fn lemma_entries_insert(
    bs: Seq<Seq<LeafCell>>,
    slot: int,
    pos: int,
    c: LeafCell,
    mid: Seq<Seq<LeafCell>>,
)
    requires
        0 <= slot < bs.len(),
        0 <= pos <= bs[slot].len(),
        concat(mid) == bs[slot].insert(pos, c),
    ensures
        concat(bs.subrange(0, slot) + mid + bs.subrange(slot + 1, bs.len() as int)) == concat(
            bs,
        ).insert(concat(bs.take(slot)).len() + pos, c),
{
    crate::tree::lemma_concat_replace(bs, slot, mid);
    assert(bs.take(slot) =~= bs.subrange(0, slot));
    let a = concat(bs.subrange(0, slot));
    let b = concat(bs.subrange(slot + 1, bs.len() as int));
    assert(a + bs[slot].insert(pos, c) + b =~= (a + bs[slot] + b).insert(a.len() + pos, c));
}

/// Inserting a record into a leaf that has room keeps the tree and adds the record at the
/// cursor's position.
proof fn lemma_insert_no_split(p: Pager, q: Pager, cur: Cursor, c: LeafCell)
    requires
        tree_wf(p),
        cur.positioned(p, c.key),
        !cur.key_at(p, c.key),
        blocks_of(p)[cur.slot as int].len() < crate::layout::LEAF_NODE_CELL_MAX_NUM,
        q.n_pages == p.n_pages,
        forall|i: int|
            0 <= i < PAGE_MAX_NUM && i != cur.page_index ==> #[trigger] q.node_at(i) == p.node_at(
                i,
            ),
        q.node_at(cur.page_index as int) == Some(
            NodeView {
                leaf_cells: p.node_at(cur.page_index as int).unwrap().leaf_cells.insert(
                    cur.cell_index as int,
                    c,
                ),
                ..p.node_at(cur.page_index as int).unwrap()
            },
        ),
    ensures
        tree_wf(q),
        entries(q) == entries(p).insert(offset_of(p, cur), c),
{
    let slot = cur.slot as int;
    let pos = cur.cell_index as int;
    let pg = cur.page_index as int;
    let bs = blocks_of(p);
    let nb = bs[slot].insert(pos, c);
    lemma_leaf_page(p, slot);
    lemma_absent_key(p, cur, c.key);
    lemma_insert_ascending(bs[slot], pos, c);
    if root_of(p).is_leaf() {
        assert(pg == 0);
        assert(root_of(q).leaf_cells == nb);
        assert(blocks_of(q) =~= seq![nb]);
        assert(bs =~= seq![bs[0]]);
        crate::tree::lemma_concat_one(nb);
        lemma_entries_insert(bs, 0, pos, c, seq![nb]);
        assert(bs.subrange(0, 0) + seq![nb] + bs.subrange(1, 1) =~= seq![nb]);
        assert(bs.take(0) =~= Seq::<Seq<LeafCell>>::empty());
    } else {
        assert(pg != 0);
        assert(root_of(q) == root_of(p));
        let r = root_of(p);
        assert forall|t: int| 0 <= t < n_blocks(q) implies #[trigger] leaf_child_ok(
            q,
            r.child_at(t) as int,
        ) by {
            assert(leaf_child_ok(p, r.child_at(t) as int));
        }
        assert forall|t: int| 0 <= t < n_blocks(p) implies blocks_of(q)[t] == bs.update(
            slot,
            nb,
        )[t] by {
            assert(leaf_child_ok(p, r.child_at(t) as int));
            if t != slot {
                assert(r.child_at(t) != r.child_at(slot));
            }
        }
        assert(blocks_of(q) =~= bs.update(slot, nb));
        crate::tree::lemma_blocks_insert(seps_of(p), bs, slot, pos, c);
        crate::tree::lemma_concat_one(nb);
        lemma_entries_insert(bs, slot, pos, c, seq![nb]);
        assert(bs.subrange(0, slot) + seq![nb] + bs.subrange(slot + 1, bs.len() as int)
            =~= bs.update(slot, nb));
    }
}

/// A leaf child of the root holding `cells`.
pub open spec fn child_leaf(cells: Seq<LeafCell>) -> NodeView {
    NodeView {
        kind: NodeKind::Leaf,
        is_root: false,
        parent: 0,
        right_child: NOT_EXIST,
        leaf_cells: cells,
        internal_cells: Seq::empty(),
    }
}

/// The root after a leaf root split: one separator over the left half, the right half as the
/// right child.
pub open spec fn split_root(left_page: int, right_page: int, max_left: i64) -> NodeView {
    NodeView {
        kind: NodeKind::Internal,
        is_root: true,
        parent: NOT_EXIST,
        right_child: right_page as i32,
        leaf_cells: Seq::empty(),
        internal_cells: seq![InternalCell { child: left_page as i32, key: max_left }],
    }
}

/// The internal root after its child in `slot` split: the old page keeps the left half under
/// a new separator, and the new page takes the right half in the next slot.
pub open spec fn root_after_split(
    r: NodeView,
    slot: int,
    old_page: int,
    new_page: int,
    max_left: i64,
) -> NodeView {
    NodeView {
        internal_cells: r.internal_cells.insert(
            slot,
            InternalCell { child: old_page as i32, key: max_left },
        ),
        ..r
    }.with_child(slot + 1, new_page as i32)
}

/// The first `SPLIT_LEFT_LEAF_NODE_NUM` records: what stays on the left of a split.
pub open spec fn left_half(m: Seq<LeafCell>) -> Seq<LeafCell> {
    m.subrange(0, SPLIT_LEFT_LEAF_NODE_NUM as int)
}

/// The records after the first `SPLIT_LEFT_LEAF_NODE_NUM`: what goes right in a split.
pub open spec fn right_half(m: Seq<LeafCell>) -> Seq<LeafCell> {
    m.subrange(SPLIT_LEFT_LEAF_NODE_NUM as int, m.len() as int)
}

/// `left` and `right` are the halves of a full leaf with one more record inserted at `pos`.
pub open spec fn halves(
    block: Seq<LeafCell>,
    pos: int,
    c: LeafCell,
    left: Seq<LeafCell>,
    right: Seq<LeafCell>,
) -> bool {
    &&& block.len() == LEAF_NODE_CELL_MAX_NUM
    &&& 0 <= pos <= block.len()
    &&& left == left_half(block.insert(pos, c))
    &&& right == right_half(block.insert(pos, c))
}

proof fn lemma_halves(
    block: Seq<LeafCell>,
    pos: int,
    c: LeafCell,
    left: Seq<LeafCell>,
    right: Seq<LeafCell>,
)
    requires
        halves(block, pos, c, left, right),
    ensures
        left + right == block.insert(pos, c),
        left.len() == SPLIT_LEFT_LEAF_NODE_NUM,
        right.len() == SPLIT_RIGHT_LEAF_NODE_NUM,
        left.last() == block.insert(pos, c)[SPLIT_LEFT_LEAF_NODE_NUM - 1],
{
    crate::layout::lemma_layout();
    assert(left + right =~= block.insert(pos, c));
}

proof fn lemma_concat_two(left: Seq<LeafCell>, right: Seq<LeafCell>)
    ensures
        concat(seq![left, right]) == left + right,
{
    crate::tree::lemma_concat_append(seq![left], seq![right]);
    assert(seq![left] + seq![right] =~= seq![left, right]);
    crate::tree::lemma_concat_one(left);
    crate::tree::lemma_concat_one(right);
}

/// Splitting a full leaf root into two new leaves under a new internal root keeps the tree and
/// adds the record at the cursor's position.
proof fn lemma_root_split(
    p: Pager,
    q: Pager,
    cur: Cursor,
    c: LeafCell,
    left: Seq<LeafCell>,
    right: Seq<LeafCell>,
)
    requires
        tree_wf(p),
        cur.positioned(p, c.key),
        !cur.key_at(p, c.key),
        root_of(p).is_leaf(),
        halves(blocks_of(p)[0], cur.cell_index as int, c, left, right),
        p.n_pages + 1 < PAGE_MAX_NUM,
        q.n_pages == p.n_pages + 2,
        q.node_at(0) == Some(split_root(p.n_pages + 1, p.n_pages as int, left.last().key)),
        q.node_at(p.n_pages as int) == Some(child_leaf(right)),
        q.node_at(p.n_pages + 1) == Some(child_leaf(left)),
    ensures
        tree_wf(q),
        entries(q) == entries(p).insert(offset_of(p, cur), c),
{
    crate::layout::lemma_layout();
    let pos = cur.cell_index as int;
    let bs = blocks_of(p);
    lemma_halves(bs[0], pos, c, left, right);
    lemma_leaf_page(p, 0);
    lemma_absent_key(p, cur, c.key);
    lemma_insert_ascending(bs[0], pos, c);
    let r = root_of(q);
    assert(n_blocks(q) == 2);
    assert(r.child_at(0) == p.n_pages + 1);
    assert(r.child_at(1) == p.n_pages);
    assert(leaf_child_ok(q, r.child_at(0) as int));
    assert(leaf_child_ok(q, r.child_at(1) as int));
    assert(blocks_of(q) =~= seq![left, right]);
    assert(bs[0].len() > 0);
    assert(blocks_ordered(Seq::empty(), seq![bs[0]]));
    crate::tree::lemma_blocks_split(Seq::empty(), seq![bs[0]], 0, pos, c, left, right);
    assert(seq![bs[0]].subrange(0, 0) + seq![left, right] + seq![bs[0]].subrange(1, 1)
        =~= seq![left, right]);
    assert(Seq::<i64>::empty().insert(0, left.last().key) =~= seps_of(q));
    lemma_concat_two(left, right);
    assert(bs =~= seq![bs[0]]);
    lemma_entries_insert(bs, 0, pos, c, seq![left, right]);
    assert(bs.subrange(0, 0) + seq![left, right] + bs.subrange(1, 1) =~= seq![left, right]);
}

/// Splitting a full leaf under the internal root, with a new separator in the root, keeps the
/// tree and adds the record at the cursor's position.
proof fn lemma_leaf_split(
    p: Pager,
    q: Pager,
    cur: Cursor,
    c: LeafCell,
    left: Seq<LeafCell>,
    right: Seq<LeafCell>,
)
    requires
        tree_wf(p),
        cur.positioned(p, c.key),
        !cur.key_at(p, c.key),
        !root_of(p).is_leaf(),
        root_of(p).internal_cells.len() < crate::layout::INTERNAL_NODE_CELL_MAX_NUM,
        halves(blocks_of(p)[cur.slot as int], cur.cell_index as int, c, left, right),
        p.n_pages < PAGE_MAX_NUM,
        q.n_pages == p.n_pages + 1,
        forall|i: int|
            0 < i < PAGE_MAX_NUM && i != cur.page_index && i != p.n_pages ==> #[trigger] q.node_at(
                i,
            ) == p.node_at(i),
        q.node_at(0) == Some(
            root_after_split(
                root_of(p),
                cur.slot as int,
                cur.page_index as int,
                p.n_pages as int,
                left.last().key,
            ),
        ),
        q.node_at(cur.page_index as int) == Some(child_leaf(left)),
        q.node_at(p.n_pages as int) == Some(child_leaf(right)),
    ensures
        tree_wf(q),
        entries(q) == entries(p).insert(offset_of(p, cur), c),
{
    crate::layout::lemma_layout();
    let slot = cur.slot as int;
    let pos = cur.cell_index as int;
    let pg = cur.page_index as int;
    let np = p.n_pages as int;
    let bs = blocks_of(p);
    let r = root_of(p);
    let nr = root_of(q);
    let n = r.internal_cells.len() as int;
    lemma_halves(bs[slot], pos, c, left, right);
    lemma_leaf_page(p, slot);
    lemma_absent_key(p, cur, c.key);
    lemma_insert_ascending(bs[slot], pos, c);
    assert(n_blocks(q) == n_blocks(p) + 1);
    assert forall|t: int| 0 <= t <= n + 1 implies #[trigger] nr.child_at(t) == if t < slot {
        r.child_at(t)
    } else if t == slot {
        pg as i32
    } else if t == slot + 1 {
        np as i32
    } else {
        r.child_at(t - 1)
    } by {}
    assert forall|t: int| 0 <= t < n_blocks(p) implies r.child_at(t) < np && r.child_at(t) != 0
        && (t != slot ==> r.child_at(t) != pg) by {
        assert(leaf_child_ok(p, r.child_at(t) as int));
        if t != slot {
            assert(r.child_at(t) != r.child_at(slot));
        }
    }
    assert forall|t: int| 0 <= t < n_blocks(q) implies #[trigger] leaf_child_ok(
        q,
        nr.child_at(t) as int,
    ) by {
        if t < slot {
            assert(leaf_child_ok(p, r.child_at(t) as int));
        } else if t > slot + 1 {
            assert(leaf_child_ok(p, r.child_at(t - 1) as int));
        } else if t == slot {
            assert(leaf_child_ok(p, r.child_at(slot) as int));
        }
    }
    assert forall|t1: int, t2: int| 0 <= t1 < t2 < n_blocks(q) implies nr.child_at(t1)
        != nr.child_at(t2) by {
        if t1 < slot && t2 < slot {
        } else if t1 < slot && t2 > slot + 1 {
        } else if t1 > slot + 1 {
        }
    }
    let nbs = bs.subrange(0, slot) + seq![left, right] + bs.subrange(slot + 1, bs.len() as int);
    assert forall|t: int| 0 <= t < n_blocks(q) implies blocks_of(q)[t] == nbs[t] by {
        if t < slot {
            assert(q.node_at(r.child_at(t) as int) == p.node_at(r.child_at(t) as int));
        } else if t > slot + 1 {
            assert(q.node_at(r.child_at(t - 1) as int) == p.node_at(r.child_at(t - 1) as int));
        }
    }
    assert(blocks_of(q) =~= nbs);
    assert(seps_of(q) =~= seps_of(p).insert(slot, left.last().key));
    crate::tree::lemma_blocks_split(seps_of(p), bs, slot, pos, c, left, right);
    lemma_concat_two(left, right);
    lemma_entries_insert(bs, slot, pos, c, seq![left, right]);
}

/// The records of the cursor's leaf with `c` inserted at the cursor.
pub open spec fn merged(p: Pager, cur: Cursor, c: LeafCell) -> Seq<LeafCell> {
    blocks_of(p)[cur.slot as int].insert(cur.cell_index as int, c)
}

/// The pages after `c` was written at `cur`. A leaf with room takes the record at the cursor and
/// no other page changes. A full leaf root splits: the left half goes to a new page
/// `n_pages + 1`, the right half to a new page `n_pages`, and page 0 becomes an internal root
/// with one separator over them. A full leaf under the internal root keeps the left half, the
/// right half goes to a new page `n_pages`, and the root gets a separator for the left half with
/// the new page in the next slot.
pub open spec fn placed(p: Pager, q: Pager, cur: Cursor, c: LeafCell) -> bool {
    let m = merged(p, cur, c);
    let np = p.n_pages as int;
    let pg = cur.page_index as int;
    let max_left = m[SPLIT_LEFT_LEAF_NODE_NUM - 1].key;
    if blocks_of(p)[cur.slot as int].len() < LEAF_NODE_CELL_MAX_NUM {
        &&& q.n_pages == p.n_pages
        &&& q.node_at(pg) == Some(NodeView { leaf_cells: m, ..p.node_at(pg).unwrap() })
        &&& forall|i: int|
            0 <= i < PAGE_MAX_NUM && i != pg ==> #[trigger] q.node_at(i) == p.node_at(i)
    } else if root_of(p).is_leaf() {
        &&& q.n_pages == np + 2
        &&& q.node_at(0) == Some(split_root(np + 1, np, max_left))
        &&& q.node_at(np) == Some(child_leaf(right_half(m)))
        &&& q.node_at(np + 1) == Some(child_leaf(left_half(m)))
        &&& forall|i: int|
            0 < i < PAGE_MAX_NUM && i != np && i != np + 1 ==> #[trigger] q.node_at(i)
                == p.node_at(i)
    } else {
        &&& q.n_pages == np + 1
        &&& q.node_at(0) == Some(root_after_split(root_of(p), cur.slot as int, pg, np, max_left))
        &&& q.node_at(pg) == Some(child_leaf(left_half(m)))
        &&& q.node_at(np) == Some(child_leaf(right_half(m)))
        &&& forall|i: int|
            0 < i < PAGE_MAX_NUM && i != pg && i != np ==> #[trigger] q.node_at(i) == p.node_at(i)
    }
}

/// A pager whose slots outside `changed` are as in `p`, over the same file, has the same nodes
/// there.
proof fn lemma_slots_kept(p: Pager, q: Pager, changed: Set<int>)
    requires
        q.file == p.file,
        p.pages@.len() == PAGE_MAX_NUM,
        q.pages@.len() == PAGE_MAX_NUM,
        forall|i: int|
            0 <= i < PAGE_MAX_NUM && !changed.contains(i) ==> #[trigger] q.pages@[i] == p.pages@[i],
    ensures
        forall|i: int|
            0 <= i < PAGE_MAX_NUM && !changed.contains(i) ==> #[trigger] q.node_at(i) == p.node_at(
                i,
            ),
{
    assert forall|i: int| 0 <= i < PAGE_MAX_NUM && !changed.contains(i) implies #[trigger] q.node_at(
        i,
    ) == p.node_at(i) by {
        assert(q.pages@[i] == p.pages@[i]);
    }
}

/// A pager whose slots changed only by well-formed nodes put into pages that it knows stays
/// well formed.
proof fn lemma_pager_puts(p: Pager, q: Pager, changed: Set<int>)
    requires
        p.wf(),
        q.file == p.file,
        p.n_pages <= q.n_pages,
        q.pages@.len() == PAGE_MAX_NUM,
        forall|i: int|
            0 <= i < PAGE_MAX_NUM && !changed.contains(i) ==> #[trigger] q.pages@[i] == p.pages@[i],
        forall|i: int|
            #![trigger changed.contains(i)]
            changed.contains(i) ==> 0 <= i < q.n_pages && i < PAGE_MAX_NUM && q.cached(i)
                && q.pages@[i].unwrap()@.wf(),
    ensures
        q.wf(),
{
    assert forall|i: int| 0 <= i < PAGE_MAX_NUM implies {
        &&& (i >= q.n_pages ==> !q.cached(i))
        &&& (q.cached(i) ==> q.pages@[i].unwrap()@.wf())
    } by {
        if !changed.contains(i) {
            assert(q.pages@[i] == p.pages@[i]);
            assert(p.cached(i) == q.cached(i));
        }
    }
}

/// Some record of the table has `key`.
pub open spec fn contains_key(p: Pager, key: i64) -> bool {
    exists|i: int| 0 <= i < entries(p).len() && #[trigger] entries(p)[i].key == key
}

/// The leaf in `slot` has room for one more record, or its split has the pages and the root's
/// separators that it needs.
pub open spec fn room_at(p: Pager, slot: int) -> bool {
    ||| blocks_of(p)[slot].len() < LEAF_NODE_CELL_MAX_NUM
    ||| root_of(p).is_leaf() && p.n_pages + 1 < PAGE_MAX_NUM
    ||| !root_of(p).is_leaf() && p.n_pages < PAGE_MAX_NUM && root_of(p).internal_cells.len()
        < INTERNAL_NODE_CELL_MAX_NUM
}

/// There is room for a record with `key` in the leaf where it belongs.
pub open spec fn room_for(p: Pager, key: i64) -> bool {
    exists|s: int| slot_ok(seps_of(p), key, s) && room_at(p, s)
}

/// `new` is `old` with `c` inserted at some position.
pub open spec fn inserted(old: Seq<LeafCell>, new: Seq<LeafCell>, c: LeafCell) -> bool {
    exists|k: int| 0 <= k <= old.len() && new == old.insert(k, c)
}

/// The records of a well-formed tree have strictly ascending keys.
pub proof fn lemma_entries_ascending(p: Pager)
    requires
        tree_wf(p),
    ensures
        keys_ascending(entries(p)),
{
    if root_of(p).is_leaf() {
        lemma_leaf_page(p, 0);
        assert(blocks_of(p) =~= seq![blocks_of(p)[0]]);
        crate::tree::lemma_concat_one(blocks_of(p)[0]);
    } else {
        crate::tree::lemma_concat_ascending(seps_of(p), blocks_of(p));
    }
}

/// A cursor at the place of `key` stands at a record with that key just when the table has
/// one.
proof fn lemma_key_at_iff(p: Pager, cur: Cursor, key: i64)
    requires
        tree_wf(p),
        cur.positioned(p, key),
    ensures
        cur.key_at(p, key) <==> contains_key(p, key),
{
    let bs = blocks_of(p);
    let slot = cur.slot as int;
    lemma_leaf_page(p, slot);
    if cur.key_at(p, key) {
        crate::tree::lemma_concat_contains(bs, slot, cur.cell_index as int);
    }
    if contains_key(p, key) {
        let i = choose|i: int| 0 <= i < entries(p).len() && #[trigger] entries(p)[i].key == key;
        let (t, k) = crate::tree::lemma_concat_index(bs, i);
        if !root_of(p).is_leaf() {
            crate::tree::lemma_key_slot(seps_of(p), bs, t, k);
            crate::tree::lemma_slot_unique(seps_of(p), key, t, slot);
        }
        assert(t == slot);
        let block = bs[slot];
        assert(keys_ascending(block));
        assert(!(k < cur.cell_index));
        if k > cur.cell_index {
            assert(block[cur.cell_index as int].key < block[k].key);
        }
    }
}

/// A cursor's position lies within the records.
proof fn lemma_offset_bound(p: Pager, cur: Cursor)
    requires
        tree_wf(p),
        cur.at_leaf(p),
    ensures
        0 <= offset_of(p, cur) <= entries(p).len(),
{
    let bs = blocks_of(p);
    let slot = cur.slot as int;
    crate::tree::lemma_concat_replace(bs, slot, seq![bs[slot]]);
    assert(bs.take(slot) =~= bs.subrange(0, slot));
}

/// The page in `slot` of an internal root holds the block of that slot.
proof fn lemma_leaf_page_raw(p: Pager, t: int)
    requires
        !root_of(p).is_leaf(),
        0 <= t < n_blocks(p),
    ensures
        leaf_page(p, t) == root_of(p).child_at(t),
        blocks_of(p)[t] == p.node_at(root_of(p).child_at(t) as int).unwrap().leaf_cells,
{
}

/// One line of the tree dump; `indent` counts levels of two spaces.
#[derive(Clone, Copy, Debug, PartialEq, Eq, Structural)]
pub enum TreeLine {
    /// `- leaf (size N)`
    Leaf { indent: usize, size: usize },
    /// `- internal (size N)`
    Internal { indent: usize, size: usize },
    /// `- K`: a record's key in a leaf.
    Record { indent: usize, key: i64 },
    /// `- key K`: a separator of an internal node, after its child.
    Separator { indent: usize, key: i64 },
}

/// A leaf's dump: its header line, then one line per key one level deeper.
pub open spec fn leaf_lines(cells: Seq<LeafCell>, indent: usize) -> Seq<TreeLine> {
    seq![TreeLine::Leaf { indent, size: cells.len() as usize }] + cells.map_values(
        |c: LeafCell| TreeLine::Record { indent: (indent + 1) as usize, key: c.key },
    )
}

/// The dumps of the first `t` children of the internal root, each followed by its separator.
pub open spec fn children_lines(bs: Seq<Seq<LeafCell>>, seps: Seq<i64>, t: nat) -> Seq<TreeLine>
    decreases t,
{
    if t == 0 {
        Seq::empty()
    } else {
        children_lines(bs, seps, (t - 1) as nat) + leaf_lines(bs[t - 1], 1) + seq![
            TreeLine::Separator { indent: 1, key: seps[t - 1] },
        ]
    }
}

/// The dump of the tree from its root, in pre-order: a node's line, then for each separator its
/// child's dump and the separator, then the right child's dump.
pub open spec fn tree_lines(p: Pager) -> Seq<TreeLine> {
    let bs = blocks_of(p);
    if root_of(p).is_leaf() {
        leaf_lines(bs[0], 0)
    } else {
        let n = root_of(p).internal_cells.len();
        seq![TreeLine::Internal { indent: 0, size: n as usize }] + children_lines(
            bs,
            seps_of(p),
            n,
        ) + leaf_lines(bs[n as int], 1)
    }
}

fn push_leaf_lines(out: &mut Vec<TreeLine>, node: &Node, indent: usize)
    requires
        node@.is_leaf(),
        indent < 2,
    ensures
        final(out)@ == old(out)@ + leaf_lines(node@.leaf_cells, indent),
{
    let n = node.get_n_cells();
    out.push(TreeLine::Leaf { indent, size: n });
    let ghost start = out@;
    let mut i: usize = 0;
    while i < n
        invariant
            node@.is_leaf(),
            n == node@.leaf_cells.len(),
            indent < 2,
            i <= n,
            start == old(out)@.push(TreeLine::Leaf { indent, size: n }),
            out@ == start + node@.leaf_cells.take(i as int).map_values(
                |c: LeafCell| TreeLine::Record { indent: (indent + 1) as usize, key: c.key },
            ),
        decreases n - i,
    {
        let key = node.read_leaf_cell(i).unwrap().key;
        out.push(TreeLine::Record { indent: indent + 1, key });
        proof {
            let f = |c: LeafCell| TreeLine::Record { indent: (indent + 1) as usize, key: c.key };
            assert(node@.leaf_cells.take(i + 1).map_values(f) =~= node@.leaf_cells.take(
                i as int,
            ).map_values(f).push(f(node@.leaf_cells[i as int])));
        }
        i += 1;
    }
    proof {
        assert(node@.leaf_cells.take(i as int) =~= node@.leaf_cells);
        assert(out@ =~= old(out)@ + leaf_lines(node@.leaf_cells, indent));
    }
}

/// The root of a table without records: a leaf marked as root, without parent.
pub open spec fn empty_root() -> NodeView {
    NodeView {
        kind: NodeKind::Leaf,
        is_root: true,
        parent: NOT_EXIST,
        right_child: NOT_EXIST,
        leaf_cells: Seq::empty(),
        internal_cells: Seq::empty(),
    }
}

/// A table: the root's page index and the pager that holds the tree.
pub struct Table {
    pub root_node_index: usize,
    pub pager: Pager,
}

/// A position in the tree: record `cell_index` of the leaf in `page_index`, which is the
/// root's child in `slot` (or the root itself).
#[derive(Clone, Copy, Debug)]
pub struct Cursor {
    pub page_index: usize,
    pub cell_index: usize,
    pub end_of_table: bool,
    pub slot: usize,
}

impl Table {
    pub open spec fn wf(self) -> bool {
        &&& self.pager.wf()
        &&& tree_wf(self.pager)
        &&& self.root_node_index == 0
    }

    /// Opens the table on a pager fresh from its file. An empty file gets a leaf root in page 0;
    /// otherwise the pages must form a tree, else the file is corrupt.
    pub fn new(pager: Pager) -> (r: Result<Table, DbError>)
        requires
            pager.wf(),
            pager.n_pages == pager.file_pages(),
        ensures
            pager.n_pages == 0 ==> r is Ok,
            pager.n_pages > 0 ==> (r is Ok <==> tree_wf(pager)),
            r is Err ==> (r matches Err(DbError::CorruptNode)),
            r matches Ok(t) ==> {
                &&& t.wf()
                &&& t.pager.file == pager.file
                &&& pager.n_pages == 0 ==> {
                    &&& t.pager.n_pages == 1
                    &&& root_of(t.pager) == empty_root()
                    &&& forall|i: int| 1 <= i < PAGE_MAX_NUM ==> #[trigger] t.pager.node_at(i) is None
                    &&& entries(t.pager).len() == 0
                }
                &&& pager.n_pages > 0 ==> {
                    &&& t.pager.n_pages == pager.n_pages
                    &&& forall|i: int| #[trigger] t.pager.node_at(i) == pager.node_at(i)
                    &&& entries(t.pager) == entries(pager)
                }
            },
    {
        let root_node_index: usize = 0;
        let mut pager = pager;
        let ghost initial = pager;
        if pager.n_pages == 0 {
            let _ = pager.get_page(root_node_index);
            let mut root = pager.take_page(root_node_index);
            root.become_leaf_node();
            root.is_root = true;
            pager.put_page(root_node_index, root);
            let table = Table { root_node_index, pager };
            proof {
                lemma_pager_puts(initial, table.pager, set![0int]);
                assert(blocks_of(table.pager) =~= seq![Seq::<LeafCell>::empty()]);
                crate::tree::lemma_concat_one(Seq::<LeafCell>::empty());
            }
            return Ok(table);
        }
        if !Table::check_tree(&mut pager) {
            return Err(DbError::CorruptNode);
        }
        proof {
            lemma_same_nodes(initial, pager);
        }
        Ok(Table { root_node_index, pager })
    }

    /// Runs an insert statement: `args` are the id, the name and the description. Rejects
    /// malformed arguments first, then a key that the table has, then a row for which a split
    /// finds no room; the table is unchanged on every error.
    pub fn insert(&mut self, args: &[&str]) -> (r: Result<(), DbError>)
        requires
            old(self).wf(),
        ensures
            final(self).wf(),
            keys_ascending(entries(final(self).pager)),
            r is Err ==> same_nodes(old(self).pager, final(self).pager),
            r is Err ==> entries(final(self).pager) == entries(old(self).pager),
            match args_error(args_bytes(args@)) {
                Some(e) => r == Err::<(), DbError>(e),
                None => {
                    let id = parsed_i64(args@[0].spec_bytes()).unwrap();
                    &&& contains_key(old(self).pager, id) ==> r == Err::<(), DbError>(
                        DbError::DuplicateKey(id),
                    )
                    &&& !contains_key(old(self).pager, id) && !room_for(old(self).pager, id) ==> (r
                        matches Err(DbError::TableFull))
                    &&& !contains_key(old(self).pager, id) && room_for(old(self).pager, id) ==> r is Ok
                    &&& r is Ok ==> exists|c: LeafCell|
                        c.key == id && row_holds(
                            c.value,
                            id,
                            args@[1].spec_bytes(),
                            args@[2].spec_bytes(),
                        ) && inserted(entries(old(self).pager), entries(final(self).pager), c)
                            && exists|cur: Cursor|
                            cur.positioned(old(self).pager, id) && placed(
                                old(self).pager,
                                final(self).pager,
                                cur,
                                c,
                            )
                },
            },
    {
        let row = match parse_insert_args(args) {
            Ok(row) => row,
            Err(e) => {
                proof {
                    lemma_entries_ascending(self.pager);
                }
                return Err(e);
            },
        };
        let cell = LeafCell { key: row.id, value: row };
        self.insert_row(cell)
    }

    /// Teardown: the file as it is to be written back, every known page of it, each fetched or
    /// allocated page encoded from its node.
    pub fn close(&self) -> (r: Vec<u8>)
        requires
            self.wf(),
        ensures
            r@ == self.pager.image(),
            r@.len() == self.pager.n_pages * PAGE_SIZE,
            r@.len() % PAGE_SIZE as nat == 0,
    {
        self.pager.file_image()
    }

    /// Inserts a record under its key: fails with `DuplicateKey` where the table has the key,
    /// and with `TableFull` where its leaf must split and the split has no room; the table is
    /// then unchanged.
    pub fn insert_row(&mut self, cell: LeafCell) -> (r: Result<(), DbError>)
        requires
            old(self).wf(),
        ensures
            final(self).wf(),
            contains_key(old(self).pager, cell.key) ==> r == Err::<(), DbError>(
                DbError::DuplicateKey(cell.key),
            ),
            !contains_key(old(self).pager, cell.key) && !room_for(old(self).pager, cell.key) ==> (r
                matches Err(DbError::TableFull)),
            !contains_key(old(self).pager, cell.key) && room_for(old(self).pager, cell.key) ==> r is Ok,
            r is Err ==> same_nodes(old(self).pager, final(self).pager),
            r is Err ==> entries(final(self).pager) == entries(old(self).pager),
            r is Ok ==> inserted(entries(old(self).pager), entries(final(self).pager), cell),
            r is Ok ==> exists|cur: Cursor|
                cur.positioned(old(self).pager, cell.key) && placed(
                    old(self).pager,
                    final(self).pager,
                    cur,
                    cell,
                ),
            keys_ascending(entries(final(self).pager)),
    {
        let ghost initial = self.pager;
        let cursor = Cursor::from(self, cell.key);
        proof {
            lemma_key_at_iff(self.pager, cursor, cell.key);
        }
        let found = match cursor.read_leaf_cell(self) {
            Some(c) => c.key == cell.key,
            None => false,
        };
        if found {
            proof {
                lemma_entries_ascending(self.pager);
            }
            return Err(DbError::DuplicateKey(cell.key));
        }
        proof {
            let p = self.pager;
            if room_for(initial, cell.key) {
                let s = choose|s: int| slot_ok(seps_of(initial), cell.key, s) && room_at(initial, s);
                crate::tree::lemma_slot_unique(seps_of(initial), cell.key, s, cursor.slot as int);
            } else {
                assert(!(slot_ok(seps_of(initial), cell.key, cursor.slot as int) && room_at(
                    initial,
                    cursor.slot as int,
                )));
            }
        }
        let ghost loaded = self.pager;
        let r = cursor.write_leaf_cell(self, cell);
        proof {
            lemma_entries_ascending(self.pager);
            lemma_offset_bound(loaded, cursor);
            assert(same_nodes(initial, loaded));
            assert(cursor.positioned(initial, cell.key));
            if r is Ok {
                assert(entries(self.pager) == entries(initial).insert(offset_of(loaded, cursor), cell));
                assert(placed(initial, self.pager, cursor, cell));
            }
        }
        r
    }

    /// Every row of the table, in ascending key order.
    pub fn select(&mut self) -> (r: Vec<Row>)
        requires
            old(self).wf(),
        ensures
            final(self).wf(),
            same_nodes(old(self).pager, final(self).pager),
            entries(final(self).pager) == entries(old(self).pager),
            r@ == rows_of(entries(old(self).pager)),
    {
        let ghost initial = self.pager;
        let mut out: Vec<Row> = Vec::new();
        let mut cursor = Cursor::from_start(self);
        proof {
            assert(blocks_of(self.pager).take(0) =~= Seq::<Seq<LeafCell>>::empty());
            assert(blocks_of(self.pager)[0].take(0) =~= Seq::<LeafCell>::empty());
            assert(records_before(self.pager, 0, 0) =~= Seq::<LeafCell>::empty());
            assert(out@ =~= rows_of(records_before(self.pager, 0, 0)));
            if !root_of(self.pager).is_leaf() {
                lemma_entries_nonempty(self.pager);
            }
        }
        while !cursor.end_of_table
            invariant
                self.wf(),
                same_nodes(initial, self.pager),
                entries(self.pager) == entries(initial),
                blocks_of(self.pager) == blocks_of(initial),
                cursor.walking(self.pager),
                out@ == rows_of(
                    records_before(self.pager, cursor.slot as int, cursor.cell_index as int),
                ),
            decreases n_blocks(self.pager) - cursor.slot, blocks_of(
                self.pager,
            )[cursor.slot as int].len() - cursor.cell_index,
        {
            let c = cursor.read_leaf_cell(self).unwrap();
            out.push(c.value);
            let ghost before = records_before(self.pager, cursor.slot as int, cursor.cell_index as int);
            cursor.advance(self);
            proof {
                assert(rows_of(before.push(c)) =~= rows_of(before).push(c.value));
            }
        }
        proof {
            let bs = blocks_of(self.pager);
            let n = n_blocks(self.pager);
            assert(bs.take(n - 1) =~= bs.drop_last());
            assert(bs[n - 1].take(bs[n - 1].len() as int) =~= bs[n - 1]);
        }
        out
    }

    /// Whether the pages of a freshly opened pager form a tree. The pages it reads stay cached;
    /// no node changes.
    fn check_tree(pager: &mut Pager) -> (r: bool)
        requires
            old(pager).wf(),
            old(pager).n_pages == old(pager).file_pages(),
        ensures
            final(pager).wf(),
            final(pager).file == old(pager).file,
            final(pager).n_pages == old(pager).n_pages,
            forall|i: int|
                0 <= i < PAGE_MAX_NUM ==> #[trigger] final(pager).node_at(i) == old(pager).node_at(
                    i,
                ),
            r == tree_wf(*old(pager)),
    {
        let ghost initial = *pager;
        if pager.n_pages == 0 {
            return false;
        }
        if pager.get_page(0).is_err() {
            return false;
        }
        proof {
            lemma_same_nodes(initial, *pager);
        }
        let root = pager.page(0);
        if !root.is_root || root.parent != NOT_EXIST {
            return false;
        }
        if root.is_leaf() {
            return root.leaf_keys_ascending();
        }
        let ghost r0 = root@;
        let ghost seps = seps_of(*pager);
        let n = root.get_n_cells();
        if n == 0 {
            return false;
        }
        let mut i: usize = 1;
        while i < n
            invariant
                initial == *old(pager),
                initial.wf(),
                pager.wf(),
                pager.file == initial.file,
                pager.n_pages == initial.n_pages,
                forall|i: int| 0 <= i < PAGE_MAX_NUM ==> #[trigger] pager.node_at(i) == initial.node_at(i),
                root_of(*pager) == r0,
                r0 == root@,
                !r0.is_leaf(),
                seps == r0.internal_cells.map_values(|c: InternalCell| c.key),
                n == seps.len(),
                1 <= i <= n,
                forall|a: int, b: int| 0 <= a < b < i ==> seps[a] < seps[b],
            decreases n - i,
        {
            let k0 = root.read_internal_cell(i - 1).unwrap().key;
            let k1 = root.read_internal_cell(i).unwrap().key;
            if k0 >= k1 {
                proof {
                    assert(seps[i - 1] == k0 && seps[i as int] == k1);
                    lemma_same_nodes(initial, *pager);
                }
                return false;
            }
            proof {
                assert forall|a: int, b: int| 0 <= a < b < i + 1 implies seps[a] < seps[b] by {
                    if b == i && a < i - 1 {
                        assert(seps[a] < seps[i - 1]);
                    }
                }
            }
            i += 1;
        }
        let mut seen: Vec<bool> = Vec::new();
        let mut x: usize = 0;
        while x < PAGE_MAX_NUM
            invariant
                x <= PAGE_MAX_NUM,
                seen@.len() == x,
                forall|y: int| 0 <= y < x ==> !seen@[y],
            decreases PAGE_MAX_NUM - x,
        {
            seen.push(false);
            x += 1;
        }
        let ghost bs = blocks_of(*pager);
        let mut t: usize = 0;
        while t <= n
            invariant
                initial == *old(pager),
                initial.wf(),
                pager.wf(),
                pager.file == initial.file,
                pager.n_pages == initial.n_pages,
                pager.n_pages == pager.file_pages(),
                forall|i: int| 0 <= i < PAGE_MAX_NUM ==> #[trigger] pager.node_at(i) == initial.node_at(i),
                pager.cached(0),
                root_of(*pager) == r0,
                !r0.is_leaf(),
                r0.is_root,
                r0.parent == NOT_EXIST,
                r0.wf(),
                n >= 1,
                n == r0.internal_cells.len(),
                seps == seps_of(*pager),
                bs == blocks_of(*pager),
                forall|a: int, b: int| 0 <= a < b < n ==> seps[a] < seps[b],
                t <= n + 1,
                seen@.len() == PAGE_MAX_NUM,
                forall|y: int|
                    0 <= y < PAGE_MAX_NUM ==> (#[trigger] seen@[y] <==> exists|u: int|
                        0 <= u < t && r0.child_at(u) == y),
                forall|u: int| 0 <= u < t ==> #[trigger] leaf_child_ok(*pager, r0.child_at(u) as int),
                forall|u1: int, u2: int| 0 <= u1 < u2 < t ==> r0.child_at(u1) != r0.child_at(u2),
                forall|u: int| 0 <= u < t ==> #[trigger] bs[u].len() > 0 && keys_ascending(bs[u]),
                forall|u: int| 0 <= u < t && u < n ==> #[trigger] bs[u].last().key == seps[u],
                forall|u: int| 1 <= u < t ==> #[trigger] bs[u][0].key > seps[u - 1],
            decreases n + 1 - t,
        {
            let c = pager.page(0).child_page(t);
            if c < 1 || c >= PAGE_MAX_NUM as i32 || c as usize >= pager.n_pages {
                proof {
                    lemma_same_nodes(initial, *pager);
                    if tree_wf(*pager) {
                        assert(leaf_child_ok(*pager, r0.child_at(t as int) as int));
                    }
                }
                return false;
            }
            let cu = c as usize;
            if seen[cu] {
                proof {
                    lemma_same_nodes(initial, *pager);
                    assert(seen@[cu as int]);
                    let u = choose|u: int| 0 <= u < t && r0.child_at(u) == cu;
                    assert(r0.child_at(u) == r0.child_at(t as int));
                }
                return false;
            }
            seen.set(cu, true);
            let ghost pb = *pager;
            if pager.get_page(cu).is_err() {
                proof {
                    lemma_same_nodes(initial, *pager);
                    if tree_wf(*pager) {
                        assert(leaf_child_ok(*pager, r0.child_at(t as int) as int));
                    }
                }
                return false;
            }
            proof {
                lemma_same_nodes(pb, *pager);
                lemma_leaf_page_raw(*pager, t as int);
            }
            let node = pager.page(cu);
            if !node.is_leaf() || node.is_root || node.parent != 0 || node.get_n_cells() == 0 {
                proof {
                    lemma_same_nodes(initial, *pager);
                    if tree_wf(*pager) {
                        assert(leaf_child_ok(*pager, r0.child_at(t as int) as int));
                    }
                }
                return false;
            }
            if !node.leaf_keys_ascending() {
                proof {
                    lemma_same_nodes(initial, *pager);
                }
                return false;
            }
            if t < n && node.get_max_key() != pager.page(0).read_internal_cell(t).unwrap().key {
                proof {
                    lemma_same_nodes(initial, *pager);
                }
                return false;
            }
            if t > 0 && node.read_leaf_cell(0).unwrap().key <= pager.page(0).read_internal_cell(
                t - 1,
            ).unwrap().key {
                proof {
                    lemma_same_nodes(initial, *pager);
                }
                return false;
            }
            proof {
                assert forall|u: int| 0 <= u < t + 1 implies #[trigger] leaf_child_ok(
                    *pager,
                    r0.child_at(u) as int,
                ) by {
                    let c = r0.child_at(u) as int;
                    if u < t {
                        assert(leaf_child_ok(pb, c));
                        assert(pb.node_at(c) == pager.node_at(c));
                    } else {
                        assert(pager.cached(cu as int));
                    }
                }
                assert forall|y: int|
                    0 <= y < PAGE_MAX_NUM implies (#[trigger] seen@[y] <==> exists|u: int|
                    0 <= u < t + 1 && r0.child_at(u) == y) by {
                    if y == cu {
                        assert(r0.child_at(t as int) == y);
                    }
                    if seen@[y] && y != cu {
                        let u = choose|u: int| 0 <= u < t && r0.child_at(u) == y;
                    }
                }
                assert forall|u1: int, u2: int| 0 <= u1 < u2 < t + 1 implies r0.child_at(u1)
                    != r0.child_at(u2) by {
                    if u2 == t && r0.child_at(u1) == r0.child_at(u2) {
                        assert(seen@[cu as int]);
                    }
                }
            }
            t += 1;
        }
        proof {
            lemma_same_nodes(initial, *pager);
            assert(blocks_ordered(seps, bs)) by {
                assert forall|u: int, k: int|
                    1 <= u < bs.len() && 0 <= k < bs[u].len() implies #[trigger] bs[u][k].key
                    > seps[u - 1] by {
                    if k > 0 {
                        assert(bs[u][0].key < bs[u][k].key);
                    }
                }
            }
        }
        true
    }

    /// The dump of the tree from page 0.
    pub fn print_tree(&mut self) -> (r: Vec<TreeLine>)
        requires
            old(self).wf(),
        ensures
            final(self).wf(),
            same_nodes(old(self).pager, final(self).pager),
            root_of(final(self).pager) == root_of(old(self).pager),
            blocks_of(final(self).pager) == blocks_of(old(self).pager),
            seps_of(final(self).pager) == seps_of(old(self).pager),
            entries(final(self).pager) == entries(old(self).pager),
            r@ == tree_lines(old(self).pager),
    {
        let ghost initial = self.pager;
        let mut out: Vec<TreeLine> = Vec::new();
        proof {
            lemma_leaf_page(self.pager, 0);
        }
        self.load(0);
        if self.pager.page(0).is_leaf() {
            push_leaf_lines(&mut out, self.pager.page(0), 0);
            return out;
        }
        let n = self.pager.page(0).get_n_cells();
        out.push(TreeLine::Internal { indent: 0, size: n });
        let mut t: usize = 0;
        while t <= n
            invariant
                self.wf(),
                same_nodes(initial, self.pager),
                entries(self.pager) == entries(initial),
                blocks_of(self.pager) == blocks_of(initial),
                seps_of(self.pager) == seps_of(initial),
                root_of(self.pager) == root_of(initial),
                !root_of(initial).is_leaf(),
                n == root_of(initial).internal_cells.len(),
                t <= n + 1,
                t <= n ==> out@ == seq![TreeLine::Internal { indent: 0, size: n }] + children_lines(
                    blocks_of(initial),
                    seps_of(initial),
                    t as nat,
                ),
                t == n + 1 ==> out@ == tree_lines(initial),
            decreases n + 1 - t,
        {
            proof {
                lemma_leaf_page(self.pager, t as int);
                lemma_leaf_page(self.pager, 0);
            }
            self.load(0);
            let child = self.pager.page(0).get_child_index(t);
            self.load(child);
            push_leaf_lines(&mut out, self.pager.page(child), 1);
            if t < n {
                self.load(0);
                let key = self.pager.page(0).read_internal_cell(t).unwrap().key;
                out.push(TreeLine::Separator { indent: 1, key });
                proof {
                    assert(key == seps_of(initial)[t as int]);
                }
            }
            t += 1;
        }
        out
    }

    /// Fetches a page of the tree into the cache; the tree stays as it is.
    fn load(&mut self, page_index: usize)
        requires
            old(self).wf(),
            page_index < PAGE_MAX_NUM,
            old(self).pager.node_at(page_index as int) is Some,
        ensures
            final(self).wf(),
            final(self).pager.cached(page_index as int),
            forall|i: int|
                0 <= i < PAGE_MAX_NUM && #[trigger] old(self).pager.cached(i)
                    ==> final(self).pager.cached(i),
            same_nodes(old(self).pager, final(self).pager),
            root_of(final(self).pager) == root_of(old(self).pager),
            n_blocks(final(self).pager) == n_blocks(old(self).pager),
            seps_of(final(self).pager) == seps_of(old(self).pager),
            blocks_of(final(self).pager) == blocks_of(old(self).pager),
            entries(final(self).pager) == entries(old(self).pager),
            forall|t: int|
                0 <= t < n_blocks(old(self).pager) ==> #[trigger] leaf_page(final(self).pager, t)
                    == leaf_page(old(self).pager, t),
    {
        let r = self.pager.get_page(page_index);
        proof {
            if !old(self).pager.cached(page_index as int) {
                assert(page_index < old(self).pager.file_pages());
            }
            assert(r is Ok);
            lemma_same_nodes(old(self).pager, self.pager);
        }
    }
}

impl Cursor {
    /// The cursor is in a leaf of the tree: the root's child in `slot`, or the root itself.
    pub open spec fn in_leaf(self, p: Pager) -> bool {
        &&& 0 <= self.slot < n_blocks(p)
        &&& self.page_index == leaf_page(p, self.slot as int)
    }

    /// The cursor stands in a leaf of the tree, at one of its records or just past them.
    pub open spec fn at_leaf(self, p: Pager) -> bool {
        &&& self.in_leaf(p)
        &&& self.cell_index <= blocks_of(p)[self.slot as int].len()
    }

    /// Within its leaf, the cursor stands where `key` is, or where it would be inserted: at the
    /// first record whose key is not below it, which is past the end where there is none.
    pub open spec fn leaf_position(self, p: Pager, key: i64) -> bool {
        let block = blocks_of(p)[self.slot as int];
        &&& self.at_leaf(p)
        &&& forall|k: int| 0 <= k < self.cell_index ==> #[trigger] block[k].key < key
        &&& self.cell_index < block.len() ==> key <= block[self.cell_index as int].key
        &&& self.end_of_table == (self.cell_index == block.len())
    }

    /// The cursor stands where `key` is, or where it would be inserted: in the leaf that the
    /// separators send it to, at the first record whose key is not below it.
    pub open spec fn positioned(self, p: Pager, key: i64) -> bool {
        &&& self.leaf_position(p, key)
        &&& slot_ok(seps_of(p), key, self.slot as int)
    }

    /// Binary search for `key` in the leaf in `slot`: the cursor stands at the record with that
    /// key, or where it would be inserted.
    pub fn from_leaf_node(table: &mut Table, slot: usize, key: i64) -> (r: Cursor)
        requires
            old(table).wf(),
            slot < n_blocks(old(table).pager),
        ensures
            final(table).wf(),
            entries(final(table).pager) == entries(old(table).pager),
            blocks_of(final(table).pager) == blocks_of(old(table).pager),
            seps_of(final(table).pager) == seps_of(old(table).pager),
            root_of(final(table).pager) == root_of(old(table).pager),
            same_nodes(old(table).pager, final(table).pager),
            r.leaf_position(final(table).pager, key),
            r.slot == slot,
    {
        let ghost initial = table.pager;
        proof {
            lemma_leaf_page(table.pager, slot as int);
            lemma_leaf_page(table.pager, 0);
        }
        table.load(0);
        let page_index = if table.pager.page(0).is_leaf() {
            0
        } else {
            table.pager.page(0).get_child_index(slot)
        };
        proof {
            lemma_leaf_page(table.pager, 0);
        }
        table.load(page_index);
        let ghost block = blocks_of(table.pager)[slot as int];
        let node = table.pager.page(page_index);
        let n_cells = node.get_n_cells();
        let mut left: usize = 0;
        let mut right: usize = n_cells;
        while left != right
            invariant
                table.wf(),
                entries(table.pager) == entries(old(table).pager),
                blocks_of(table.pager) == blocks_of(old(table).pager),
                seps_of(table.pager) == seps_of(old(table).pager),
                root_of(table.pager) == root_of(old(table).pager),
                same_nodes(old(table).pager, table.pager),
                slot < n_blocks(table.pager),
                page_index == leaf_page(table.pager, slot as int),
                block == blocks_of(table.pager)[slot as int],
                node@.is_leaf(),
                node@.leaf_cells == block,
                n_cells == block.len(),
                keys_ascending(block),
                left <= right <= n_cells,
                forall|k: int| 0 <= k < left ==> #[trigger] block[k].key < key,
                forall|k: int| right <= k < n_cells ==> key < #[trigger] block[k].key,
            decreases right - left,
        {
            let mid = left + (right - left) / 2;
            let cell_key = node.read_leaf_cell(mid).unwrap().key;
            if key == cell_key {
                proof {
                    assert forall|k: int| 0 <= k < mid implies #[trigger] block[k].key < key by {
                        assert(block[k].key < block[mid as int].key);
                    }
                }
                return Cursor { page_index, cell_index: mid, end_of_table: false, slot };
            } else if key < cell_key {
                right = mid;
            } else {
                left = mid + 1;
            }
        }
        Cursor { page_index, cell_index: left, end_of_table: left == n_cells, slot }
    }

    /// Picks the child of the internal root that `key` belongs under, then searches that leaf.
    pub fn from_internal_node(table: &mut Table, key: i64) -> (r: Cursor)
        requires
            old(table).wf(),
            !root_of(old(table).pager).is_leaf(),
        ensures
            final(table).wf(),
            entries(final(table).pager) == entries(old(table).pager),
            blocks_of(final(table).pager) == blocks_of(old(table).pager),
            seps_of(final(table).pager) == seps_of(old(table).pager),
            root_of(final(table).pager) == root_of(old(table).pager),
            same_nodes(old(table).pager, final(table).pager),
            r.positioned(final(table).pager, key),
    {
        proof {
            lemma_leaf_page(table.pager, 0);
        }
        let page_index = table.root_node_index;
        table.load(page_index);
        let ghost seps = seps_of(table.pager);
        let node = table.pager.page(page_index);
        let n_cells = node.get_n_cells();
        let mut left: usize = 0;
        let mut right: usize = n_cells;
        while left != right
            invariant
                !node@.is_leaf(),
                seps == node@.internal_cells.map_values(|c: InternalCell| c.key),
                n_cells == seps.len(),
                forall|i: int, j: int| 0 <= i < j < seps.len() ==> seps[i] < seps[j],
                left <= right <= n_cells,
                forall|t: int| 0 <= t < left ==> #[trigger] seps[t] < key,
                forall|t: int| right <= t < n_cells ==> key <= #[trigger] seps[t],
            decreases right - left,
        {
            let mid = left + (right - left) / 2;
            let cell_key = node.read_internal_cell(mid).unwrap().key;
            assert(cell_key == seps[mid as int]);
            if key <= cell_key {
                right = mid;
            } else {
                left = mid + 1;
            }
        }
        Cursor::from_leaf_node(table, left, key)
    }

    /// A cursor at `key` in the table, or where it would be inserted.
    pub fn from(table: &mut Table, key: i64) -> (r: Cursor)
        requires
            old(table).wf(),
        ensures
            final(table).wf(),
            entries(final(table).pager) == entries(old(table).pager),
            blocks_of(final(table).pager) == blocks_of(old(table).pager),
            seps_of(final(table).pager) == seps_of(old(table).pager),
            root_of(final(table).pager) == root_of(old(table).pager),
            same_nodes(old(table).pager, final(table).pager),
            r.positioned(final(table).pager, key),
    {
        proof {
            lemma_leaf_page(table.pager, 0);
        }
        let root_index = table.root_node_index;
        table.load(root_index);
        if table.pager.page(root_index).is_leaf() {
            Cursor::from_leaf_node(table, 0, key)
        } else {
            Cursor::from_internal_node(table, key)
        }
    }

    /// The cursor stands at a record with `key`.
    pub open spec fn key_at(self, p: Pager, key: i64) -> bool {
        let block = blocks_of(p)[self.slot as int];
        self.cell_index < block.len() && block[self.cell_index as int].key == key
    }

    /// Inserts `cell` where the cursor stands. A full leaf splits in two; where it is the root,
    /// the root becomes an internal node over the two halves. Fails with `TableFull`, changing
    /// nothing, where a split needs a page beyond the pager's capacity or a separator beyond the
    /// root's.
    pub fn write_leaf_cell(&self, table: &mut Table, cell: LeafCell) -> (r: Result<(), DbError>)
        requires
            old(table).wf(),
            self.positioned(old(table).pager, cell.key),
            !self.key_at(old(table).pager, cell.key),
        ensures
            final(table).wf(),
            r is Ok <==> room_at(old(table).pager, self.slot as int),
            r is Err ==> r matches Err(DbError::TableFull),
            r is Err ==> same_nodes(old(table).pager, final(table).pager),
            r is Err ==> entries(final(table).pager) == entries(old(table).pager),
            r is Ok ==> placed(old(table).pager, final(table).pager, *self, cell),
            r is Ok ==> entries(final(table).pager) == entries(old(table).pager).insert(
                offset_of(old(table).pager, *self),
                cell,
            ),
    {
        let ghost initial = table.pager;
        proof {
            lemma_leaf_page(table.pager, self.slot as int);
            lemma_leaf_page(table.pager, 0);
        }
        table.load(0);
        table.load(self.page_index);
        let ghost loaded = table.pager;
        proof {
            lemma_leaf_page(loaded, self.slot as int);
            assert(offset_of(loaded, *self) == offset_of(initial, *self));
        }
        let n_cells = table.pager.page(self.page_index).get_n_cells();
        if n_cells < LEAF_NODE_CELL_MAX_NUM {
            let mut node = table.pager.take_page(self.page_index);
            node.insert_leaf_cell(self.cell_index, cell);
            table.pager.put_page(self.page_index, node);
            proof {
                lemma_insert_no_split(loaded, table.pager, *self, cell);
                lemma_pager_puts(loaded, table.pager, set![self.page_index as int]);
                lemma_slots_kept(loaded, table.pager, set![self.page_index as int]);
            }
            return Ok(());
        }
        let root_is_leaf = table.pager.page(0).is_leaf();
        let root_n_cells = table.pager.page(0).get_n_cells();
        let new_page_index = table.pager.get_new_page_index();
        if root_is_leaf {
            if new_page_index >= PAGE_MAX_NUM - 1 {
                return Err(DbError::TableFull);
            }
        } else if new_page_index >= PAGE_MAX_NUM || root_n_cells >= INTERNAL_NODE_CELL_MAX_NUM {
            return Err(DbError::TableFull);
        }
        proof {
            crate::layout::lemma_layout();
        }
        let root_index = table.root_node_index;
        if root_is_leaf {
            let right_page_index = new_page_index;
            let left_page_index = new_page_index + 1;
            let _ = table.pager.get_page(right_page_index);
            let _ = table.pager.get_page(left_page_index);
            let ghost allocated = table.pager;
            let mut left = table.pager.take_page(root_index);
            let right_cells = left.insert_and_split(self.cell_index, cell);
            left.is_root = false;
            left.parent = root_index as i32;
            let right = Node {
                is_root: false,
                parent: root_index as i32,
                body: NodeBody::Leaf { cells: right_cells },
            };
            let max_left = left.get_max_key();
            let mut root = Node::new_leaf();
            root.is_root = true;
            root.become_internal_node();
            root.set_child(0, right_page_index as i32);
            let separator = InternalCell { child: left_page_index as i32, key: max_left };
            root.insert_internal_cell(0, separator);
            table.pager.put_page(left_page_index, left);
            table.pager.put_page(right_page_index, right);
            table.pager.put_page(root_index, root);
            proof {
                let q = table.pager;
                let np = loaded.n_pages as int;
                let m = merged(loaded, *self, cell);
                assert(left@.leaf_cells =~= left_half(m));
                assert(right@.leaf_cells =~= right_half(m));
                assert(max_left == m[SPLIT_LEFT_LEAF_NODE_NUM - 1].key);
                assert(root@.internal_cells =~= seq![separator]);
                assert(q.node_at(0) == Some(split_root(np + 1, np, max_left)));
                assert(q.node_at(np) == Some(child_leaf(right@.leaf_cells)));
                assert(q.node_at(np + 1) == Some(child_leaf(left@.leaf_cells)));
                lemma_root_split(loaded, q, *self, cell, left@.leaf_cells, right@.leaf_cells);
                lemma_pager_puts(loaded, q, set![0int, np, np + 1]);
                lemma_slots_kept(loaded, allocated, set![np, np + 1]);
                lemma_slots_kept(allocated, q, set![0int, np, np + 1]);
            }
        } else {
            let _ = table.pager.get_page(new_page_index);
            let ghost allocated = table.pager;
            let mut left = table.pager.take_page(self.page_index);
            let right_cells = left.insert_and_split(self.cell_index, cell);
            let right = Node {
                is_root: false,
                parent: left.parent,
                body: NodeBody::Leaf { cells: right_cells },
            };
            let max_left = left.get_max_key();
            let mut root = table.pager.take_page(root_index);
            root.insert_internal_cell(
                self.slot,
                InternalCell { child: self.page_index as i32, key: max_left },
            );
            root.set_child(self.slot + 1, new_page_index as i32);
            table.pager.put_page(self.page_index, left);
            table.pager.put_page(new_page_index, right);
            table.pager.put_page(root_index, root);
            proof {
                let q = table.pager;
                let pg = self.page_index as int;
                let np = new_page_index as int;
                let m = merged(loaded, *self, cell);
                assert(left@.leaf_cells =~= left_half(m));
                assert(right@.leaf_cells =~= right_half(m));
                assert(max_left == m[SPLIT_LEFT_LEAF_NODE_NUM - 1].key);
                lemma_leaf_split(loaded, q, *self, cell, left@.leaf_cells, right@.leaf_cells);
                lemma_pager_puts(loaded, q, set![0int, pg, np]);
                lemma_slots_kept(loaded, allocated, set![np]);
                lemma_slots_kept(allocated, q, set![0int, pg, np]);
            }
        }
        Ok(())
    }

    /// The records before the cursor.
    pub open spec fn records_read(self, p: Pager) -> Seq<LeafCell> {
        records_before(p, self.slot as int, self.cell_index as int)
    }

    /// The cursor walks the records in order: it never rests past the end of a leaf but the
    /// last, and it is at the end of the table just when it is past that one.
    pub open spec fn walking(self, p: Pager) -> bool {
        let block = blocks_of(p)[self.slot as int];
        &&& self.at_leaf(p)
        &&& self.cell_index == block.len() ==> self.slot == n_blocks(p) - 1
        &&& self.end_of_table == (self.cell_index == block.len())
    }

    /// The record under the cursor, if it stands at one.
    pub fn read_leaf_cell(&self, table: &mut Table) -> (r: Option<LeafCell>)
        requires
            old(table).wf(),
            self.in_leaf(old(table).pager),
        ensures
            final(table).wf(),
            entries(final(table).pager) == entries(old(table).pager),
            blocks_of(final(table).pager) == blocks_of(old(table).pager),
            seps_of(final(table).pager) == seps_of(old(table).pager),
            root_of(final(table).pager) == root_of(old(table).pager),
            same_nodes(old(table).pager, final(table).pager),
            self.cell_index < blocks_of(old(table).pager)[self.slot as int].len() ==> r == Some(
                blocks_of(old(table).pager)[self.slot as int][self.cell_index as int],
            ),
            self.cell_index >= blocks_of(old(table).pager)[self.slot as int].len() ==> r is None,
    {
        proof {
            lemma_leaf_page(table.pager, self.slot as int);
        }
        table.load(self.page_index);
        match table.pager.page(self.page_index).read_leaf_cell(self.cell_index) {
            Some(c) => Some(*c),
            None => None,
        }
    }

    /// Moves to the next record: the next one of this leaf, else the first of the next leaf;
    /// past the last record the cursor is at the end of the table.
    pub fn advance(&mut self, table: &mut Table)
        requires
            old(table).wf(),
            old(self).walking(old(table).pager),
            !old(self).end_of_table,
        ensures
            final(table).wf(),
            entries(final(table).pager) == entries(old(table).pager),
            blocks_of(final(table).pager) == blocks_of(old(table).pager),
            root_of(final(table).pager) == root_of(old(table).pager),
            same_nodes(old(table).pager, final(table).pager),
            final(self).walking(final(table).pager),
            final(self).records_read(final(table).pager) == old(self).records_read(
                old(table).pager,
            ).push(blocks_of(old(table).pager)[old(self).slot as int][old(self).cell_index as int]),
            (final(self).slot == old(self).slot && final(self).cell_index == old(self).cell_index
                + 1) || final(self).slot == old(self).slot + 1,
    {
        let ghost p = table.pager;
        let ghost bs = blocks_of(p);
        let ghost slot0 = self.slot as int;
        let ghost cell0 = self.cell_index as int;
        proof {
            lemma_leaf_page(table.pager, self.slot as int);
            lemma_leaf_page(table.pager, 0);
        }
        table.load(self.page_index);
        let n_cells = table.pager.page(self.page_index).get_n_cells();
        self.cell_index += 1;
        proof {
            assert(bs[slot0].take(cell0 + 1) =~= bs[slot0].take(cell0).push(bs[slot0][cell0]));
        }
        if self.cell_index >= n_cells {
            table.load(0);
            let root = table.pager.page(0);
            if !root.is_leaf() && self.slot < root.get_n_cells() {
                self.slot += 1;
                proof {
                    lemma_leaf_page(table.pager, self.slot as int);
                    assert(bs.take(slot0 + 1).drop_last() =~= bs.take(slot0));
                    assert(bs[slot0].take(cell0 + 1) =~= bs[slot0]);
                    assert(bs[self.slot as int].take(0) =~= Seq::<LeafCell>::empty());
                }
                self.page_index = root.get_child_index(self.slot);
                self.cell_index = 0;
            } else {
                self.end_of_table = true;
            }
        }
    }

    /// A cursor at the first record of the table.
    pub fn from_start(table: &mut Table) -> (r: Cursor)
        requires
            old(table).wf(),
        ensures
            final(table).wf(),
            entries(final(table).pager) == entries(old(table).pager),
            blocks_of(final(table).pager) == blocks_of(old(table).pager),
            root_of(final(table).pager) == root_of(old(table).pager),
            same_nodes(old(table).pager, final(table).pager),
            r.at_leaf(final(table).pager),
            r.slot == 0 && r.cell_index == 0,
            r.end_of_table == (entries(old(table).pager).len() == 0),
            r.end_of_table == (r.cell_index == blocks_of(final(table).pager)[r.slot as int].len()),
    {
        let page_index = table.root_node_index;
        proof {
            lemma_leaf_page(table.pager, 0);
        }
        table.load(page_index);
        let root = table.pager.page(page_index);
        if root.is_leaf() {
            let end_of_table = root.get_n_cells() == 0;
            proof {
                crate::tree::lemma_concat_one(blocks_of(table.pager)[0]);
                assert(blocks_of(table.pager) =~= seq![blocks_of(table.pager)[0]]);
            }
            Cursor { page_index, cell_index: 0, end_of_table, slot: 0 }
        } else {
            proof {
                lemma_leaf_page(table.pager, 0);
                lemma_entries_nonempty(table.pager);
            }
            let child = root.get_child_index(0);
            Cursor { page_index: child, cell_index: 0, end_of_table: false, slot: 0 }
        }
    }
}

/// A tree whose root is internal holds records.
proof fn lemma_entries_nonempty(p: Pager)
    requires
        tree_wf(p),
        !root_of(p).is_leaf(),
    ensures
        entries(p).len() > 0,
        blocks_of(p)[0].len() > 0,
{
    let bs = blocks_of(p);
    assert(bs[0].len() > 0);
    crate::tree::lemma_concat_replace(bs, 0, seq![bs[0]]);
}

} // verus!
