//! The on-disk form of a node: one page, little-endian integers, zero padding.
use vstd::prelude::*;
use vstd::bytes::{
    spec_u32_from_le_bytes, spec_u32_to_le_bytes, spec_u64_from_le_bytes, spec_u64_to_le_bytes,
    u32_from_le_bytes, u32_to_le_bytes, u64_from_le_bytes, u64_to_le_bytes,
    lemma_auto_spec_u32_to_from_le_bytes, lemma_auto_spec_u64_to_from_le_bytes,
};
use vstd::slice::slice_subrange;
use crate::layout::{
    DESCRIPTION_MAX_SIZE, ID_SIZE, INTERNAL_NODE_CELL_MAX_NUM, INTERNAL_NODE_CELL_SIZE,
    INTERNAL_NODE_HEADER_SIZE, LEAF_NODE_CELL_KEY_SIZE, LEAF_NODE_CELL_MAX_NUM,
    LEAF_NODE_CELL_SIZE, NAME_MAX_SIZE, NODE_HEADER_SIZE, NOT_EXIST, PAGE_SIZE, lemma_layout,
};
use crate::node::{
    DbError, InternalCell, LeafCell, Node, NodeBody, NodeKind, NodeView, Row, kind_byte,
};

verus! {

pub open spec fn i64_bytes(x: i64) -> Seq<u8> {
    spec_u64_to_le_bytes(x as u64)
}

pub open spec fn i32_bytes(x: i32) -> Seq<u8> {
    spec_u32_to_le_bytes(x as u32)
}

pub open spec fn bytes_i64(b: Seq<u8>) -> i64 {
    spec_u64_from_le_bytes(b) as i64
}

pub open spec fn bytes_i32(b: Seq<u8>) -> i32 {
    spec_u32_from_le_bytes(b) as i32
}

/// A record on disk: key, id, name, description.
pub open spec fn leaf_cell_bytes(c: LeafCell) -> Seq<u8> {
    i64_bytes(c.key) + i64_bytes(c.value.id) + c.value.name@ + c.value.description@
}

/// A separator on disk: child, then key.
pub open spec fn internal_cell_bytes(c: InternalCell) -> Seq<u8> {
    i32_bytes(c.child) + i64_bytes(c.key)
}

pub open spec fn leaf_cells_bytes(cells: Seq<LeafCell>) -> Seq<u8>
    decreases cells.len(),
{
    if cells.len() == 0 {
        Seq::empty()
    } else {
        leaf_cells_bytes(cells.drop_last()) + leaf_cell_bytes(cells.last())
    }
}

pub open spec fn internal_cells_bytes(cells: Seq<InternalCell>) -> Seq<u8>
    decreases cells.len(),
{
    if cells.len() == 0 {
        Seq::empty()
    } else {
        internal_cells_bytes(cells.drop_last()) + internal_cell_bytes(cells.last())
    }
}

/// Kind, root flag, parent, number of cells.
pub open spec fn header_bytes(n: NodeView) -> Seq<u8> {
    seq![kind_byte(n.kind), if n.is_root { 1u8 } else { 0u8 }] + i32_bytes(n.parent)
        + spec_u32_to_le_bytes(n.n_cells() as u32)
}

/// The node without its padding: a leaf's records, or an internal node's right child and
/// separators, after the header.
pub open spec fn node_content_bytes(n: NodeView) -> Seq<u8> {
    if n.is_leaf() {
        header_bytes(n) + leaf_cells_bytes(n.leaf_cells)
    } else {
        header_bytes(n) + i32_bytes(n.right_child) + internal_cells_bytes(n.internal_cells)
    }
}

pub open spec fn zeros(len: nat) -> Seq<u8> {
    Seq::new(len, |i: int| 0u8)
}

/// The page that holds a node: its content, then zeros to the end of the page.
pub open spec fn node_bytes(n: NodeView) -> Seq<u8> {
    node_content_bytes(n) + zeros((PAGE_SIZE - node_content_bytes(n).len()) as nat)
}

/// `c` is what the bytes `b` of one record say.
pub open spec fn leaf_cell_decodes(b: Seq<u8>, c: LeafCell) -> bool {
    &&& c.key == bytes_i64(b.subrange(0, 8))
    &&& c.value.id == bytes_i64(b.subrange(8, 16))
    &&& c.value.name@ == b.subrange(16, 48)
    &&& c.value.description@ == b.subrange(48, 304)
}

pub open spec fn decode_leaf_cell(b: Seq<u8>) -> LeafCell {
    choose|c: LeafCell| leaf_cell_decodes(b, c)
}

pub open spec fn decode_internal_cell(b: Seq<u8>) -> InternalCell {
    InternalCell { child: bytes_i32(b.subrange(0, 4)), key: bytes_i64(b.subrange(4, 12)) }
}

pub open spec fn page_n_cells(p: Seq<u8>) -> int {
    spec_u32_from_le_bytes(p.subrange(6, 10)) as int
}

/// The node that a page holds: `None` for a kind byte other than 1 and 2, or for more cells
/// than the kind has room for.
pub open spec fn decode_node(p: Seq<u8>) -> Option<NodeView> {
    let n = page_n_cells(p);
    let is_root = p[1] != 0u8;
    let parent = bytes_i32(p.subrange(2, 6));
    if p[0] == 2u8 && n <= LEAF_NODE_CELL_MAX_NUM {
        Some(
            NodeView {
                kind: NodeKind::Leaf,
                is_root,
                parent,
                right_child: NOT_EXIST,
                leaf_cells: Seq::new(
                    n as nat,
                    |i: int| decode_leaf_cell(p.subrange(10 + 304 * i, 10 + 304 * i + 304)),
                ),
                internal_cells: Seq::empty(),
            },
        )
    } else if p[0] == 1u8 && n <= INTERNAL_NODE_CELL_MAX_NUM {
        Some(
            NodeView {
                kind: NodeKind::Internal,
                is_root,
                parent,
                right_child: bytes_i32(p.subrange(10, 14)),
                leaf_cells: Seq::empty(),
                internal_cells: Seq::new(
                    n as nat,
                    |i: int| decode_internal_cell(p.subrange(14 + 12 * i, 14 + 12 * i + 12)),
                ),
            },
        )
    } else {
        None
    }
}

proof fn lemma_int_bytes()
    ensures
        forall|x: i64| #[trigger] i64_bytes(x).len() == 8 && bytes_i64(i64_bytes(x)) == x,
        forall|x: i32| #[trigger] i32_bytes(x).len() == 4 && bytes_i32(i32_bytes(x)) == x,
        forall|x: u32|
            #[trigger] spec_u32_to_le_bytes(x).len() == 4 && spec_u32_from_le_bytes(
                spec_u32_to_le_bytes(x),
            ) == x,
{
    lemma_auto_spec_u64_to_from_le_bytes();
    lemma_auto_spec_u32_to_from_le_bytes();
    assert forall|x: i64| #[trigger] i64_bytes(x).len() == 8 && bytes_i64(i64_bytes(x)) == x by {
        assert((x as u64) as i64 == x) by (bit_vector);
    }
    assert forall|x: i32| #[trigger] i32_bytes(x).len() == 4 && bytes_i32(i32_bytes(x)) == x by {
        assert((x as u32) as i32 == x) by (bit_vector);
    }
}

proof fn lemma_leaf_cell_bytes(c: LeafCell)
    ensures
        leaf_cell_bytes(c).len() == LEAF_NODE_CELL_SIZE,
        decode_leaf_cell(leaf_cell_bytes(c)) == c,
{
    lemma_int_bytes();
    lemma_layout();
    let b = leaf_cell_bytes(c);
    assert(b.subrange(0, 8) =~= i64_bytes(c.key));
    assert(b.subrange(8, 16) =~= i64_bytes(c.value.id));
    assert(b.subrange(16, 48) =~= c.value.name@);
    assert(b.subrange(48, 304) =~= c.value.description@);
    assert(leaf_cell_decodes(b, c));
    let d = decode_leaf_cell(b);
    lemma_leaf_cell_decodes_unique(b, c, d);
}

proof fn lemma_leaf_cell_decodes_unique(b: Seq<u8>, c: LeafCell, d: LeafCell)
    requires
        leaf_cell_decodes(b, c),
        leaf_cell_decodes(b, d),
    ensures
        c == d,
{
    broadcast use vstd::array::axiom_array_ext_equal;

    assert(c.value.name =~= d.value.name);
    assert(c.value.description =~= d.value.description);
}

proof fn lemma_leaf_cells_bytes(cells: Seq<LeafCell>)
    ensures
        leaf_cells_bytes(cells).len() == LEAF_NODE_CELL_SIZE * cells.len(),
        forall|i: int|
            0 <= i < cells.len() ==> #[trigger] leaf_cells_bytes(cells).subrange(
                304 * i,
                304 * i + 304,
            ) == leaf_cell_bytes(cells[i]),
    decreases cells.len(),
{
    lemma_layout();
    if cells.len() > 0 {
        let init = cells.drop_last();
        lemma_leaf_cells_bytes(init);
        lemma_leaf_cell_bytes(cells.last());
        let whole = leaf_cells_bytes(cells);
        assert forall|i: int| 0 <= i < cells.len() implies #[trigger] whole.subrange(
            304 * i,
            304 * i + 304,
        ) == leaf_cell_bytes(cells[i]) by {
            if i < init.len() {
                assert(whole.subrange(304 * i, 304 * i + 304) =~= leaf_cells_bytes(
                    init,
                ).subrange(304 * i, 304 * i + 304));
            } else {
                assert(whole.subrange(304 * i, 304 * i + 304) =~= leaf_cell_bytes(cells.last()));
            }
        }
    }
}

proof fn lemma_internal_cells_bytes(cells: Seq<InternalCell>)
    ensures
        internal_cells_bytes(cells).len() == INTERNAL_NODE_CELL_SIZE * cells.len(),
        forall|i: int|
            0 <= i < cells.len() ==> #[trigger] internal_cells_bytes(cells).subrange(
                12 * i,
                12 * i + 12,
            ) == internal_cell_bytes(cells[i]),
    decreases cells.len(),
{
    lemma_layout();
    lemma_int_bytes();
    if cells.len() > 0 {
        let init = cells.drop_last();
        lemma_internal_cells_bytes(init);
        let whole = internal_cells_bytes(cells);
        assert forall|i: int| 0 <= i < cells.len() implies #[trigger] whole.subrange(
            12 * i,
            12 * i + 12,
        ) == internal_cell_bytes(cells[i]) by {
            if i < init.len() {
                assert(whole.subrange(12 * i, 12 * i + 12) =~= internal_cells_bytes(
                    init,
                ).subrange(12 * i, 12 * i + 12));
            } else {
                assert(whole.subrange(12 * i, 12 * i + 12) =~= internal_cell_bytes(
                    cells.last(),
                ));
            }
        }
    }
}

/// Length of a node's content and of its page.
pub proof fn lemma_node_bytes_len(n: NodeView)
    requires
        n.wf(),
    ensures
        node_content_bytes(n).len() <= PAGE_SIZE,
        node_bytes(n).len() == PAGE_SIZE,
        n.is_leaf() ==> node_content_bytes(n).len() == NODE_HEADER_SIZE + LEAF_NODE_CELL_SIZE
            * n.leaf_cells.len(),
        !n.is_leaf() ==> node_content_bytes(n).len() == INTERNAL_NODE_HEADER_SIZE
            + INTERNAL_NODE_CELL_SIZE * n.internal_cells.len(),
{
    lemma_layout();
    lemma_int_bytes();
    lemma_leaf_cells_bytes(n.leaf_cells);
    lemma_internal_cells_bytes(n.internal_cells);
}

/// Encoding a well-formed node and decoding the page gives the node back: the same header and
/// the same cells.
pub proof fn lemma_node_round_trip(n: NodeView)
    requires
        n.wf(),
    ensures
        node_bytes(n).len() == PAGE_SIZE,
        decode_node(node_bytes(n)) == Some(n),
{
    lemma_layout();
    lemma_int_bytes();
    lemma_node_bytes_len(n);
    lemma_leaf_cells_bytes(n.leaf_cells);
    lemma_internal_cells_bytes(n.internal_cells);
    let p = node_bytes(n);
    let h = header_bytes(n);
    assert(p.subrange(2, 6) =~= i32_bytes(n.parent));
    assert(p.subrange(6, 10) =~= spec_u32_to_le_bytes(n.n_cells() as u32));
    assert(page_n_cells(p) == n.n_cells());
    assert(p[0] == kind_byte(n.kind));
    assert(p[1] == (if n.is_root { 1u8 } else { 0u8 }));
    let d = decode_node(p).unwrap();
    assert(d.kind == n.kind);
    assert(d.is_root == n.is_root);
    assert(d.parent == n.parent);
    if n.is_leaf() {
        let cb = leaf_cells_bytes(n.leaf_cells);
        assert forall|i: int| 0 <= i < n.leaf_cells.len() implies #[trigger] d.leaf_cells[i]
            == n.leaf_cells[i] by {
            assert(p.subrange(10 + 304 * i, 10 + 304 * i + 304) =~= cb.subrange(
                304 * i,
                304 * i + 304,
            ));
            lemma_leaf_cell_bytes(n.leaf_cells[i]);
        }
        assert(d.leaf_cells =~= n.leaf_cells);
        assert(d.internal_cells =~= n.internal_cells);
    } else {
        let cb = internal_cells_bytes(n.internal_cells);
        assert(p.subrange(10, 14) =~= i32_bytes(n.right_child));
        assert forall|i: int| 0 <= i < n.internal_cells.len() implies #[trigger] d.internal_cells[i]
            == n.internal_cells[i] by {
            assert(p.subrange(14 + 12 * i, 14 + 12 * i + 12) =~= cb.subrange(12 * i, 12 * i + 12));
            let cib = internal_cell_bytes(n.internal_cells[i]);
            assert(cib.subrange(0, 4) =~= i32_bytes(n.internal_cells[i].child));
            assert(cib.subrange(4, 12) =~= i64_bytes(n.internal_cells[i].key));
        }
        assert(d.internal_cells =~= n.internal_cells);
        assert(d.leaf_cells =~= n.leaf_cells);
    }
    assert(d == n);
}

/// A node decoded from a page is well formed.
pub proof fn lemma_decoded_wf(p: Seq<u8>)
    requires
        decode_node(p) is Some,
    ensures
        decode_node(p).unwrap().wf(),
{
    lemma_layout();
}

fn push_bytes(out: &mut Vec<u8>, bytes: &[u8])
    ensures
        final(out)@ == old(out)@ + bytes@,
{
    let mut i: usize = 0;
    while i < bytes.len()
        invariant
            i <= bytes@.len(),
            out@ == old(out)@ + bytes@.subrange(0, i as int),
        decreases bytes@.len() - i,
    {
        out.push(bytes[i]);
        i += 1;
        assert(bytes@.subrange(0, i as int) =~= bytes@.subrange(0, i - 1).push(bytes@[i - 1]));
    }
    assert(bytes@.subrange(0, i as int) =~= bytes@);
}

fn push_i64(out: &mut Vec<u8>, x: i64)
    ensures
        final(out)@ == old(out)@ + i64_bytes(x),
{
    let mut b = u64_to_le_bytes(x as u64);
    out.append(&mut b);
}

fn push_i32(out: &mut Vec<u8>, x: i32)
    ensures
        final(out)@ == old(out)@ + i32_bytes(x),
{
    let mut b = u32_to_le_bytes(x as u32);
    out.append(&mut b);
}

fn push_leaf_cell(out: &mut Vec<u8>, c: &LeafCell)
    ensures
        final(out)@ == old(out)@ + leaf_cell_bytes(*c),
{
    push_i64(out, c.key);
    push_i64(out, c.value.id);
    push_bytes(out, c.value.name.as_slice());
    push_bytes(out, c.value.description.as_slice());
    assert(final(out)@ =~= old(out)@ + leaf_cell_bytes(*c));
}

fn push_internal_cell(out: &mut Vec<u8>, c: &InternalCell)
    ensures
        final(out)@ == old(out)@ + internal_cell_bytes(*c),
{
    push_i32(out, c.child);
    push_i64(out, c.key);
    assert(final(out)@ =~= old(out)@ + internal_cell_bytes(*c));
}

fn read_i64(page: &[u8], at: usize) -> (r: i64)
    requires
        at + 8 <= page@.len(),
    ensures
        r == bytes_i64(page@.subrange(at as int, at + 8)),
{
    let len = page.len();
    assert(at + 8 <= len);
    #[verifier::truncate]
    (u64_from_le_bytes(slice_subrange(page, at, at + 8)) as i64)
}

fn read_i32(page: &[u8], at: usize) -> (r: i32)
    requires
        at + 4 <= page@.len(),
    ensures
        r == bytes_i32(page@.subrange(at as int, at + 4)),
{
    let len = page.len();
    assert(at + 4 <= len);
    #[verifier::truncate]
    (u32_from_le_bytes(slice_subrange(page, at, at + 4)) as i32)
}

fn read_array<const N: usize>(page: &[u8], at: usize) -> (r: [u8; N])
    requires
        at + N <= page@.len(),
    ensures
        r@ == page@.subrange(at as int, at + N),
{
    let len = page.len();
    let mut a = [0u8; N];
    let mut i: usize = 0;
    while i < N
        invariant
            i <= N,
            at + N <= page@.len(),
            len == page@.len(),
            a@.len() == N,
            forall|j: int| 0 <= j < i ==> a@[j] == page@[at + j],
        decreases N - i,
    {
        a[i] = page[at + i];
        i += 1;
    }
    assert(a@ =~= page@.subrange(at as int, at + N));
    a
}

fn read_leaf_cell_at(page: &[u8], at: usize) -> (r: LeafCell)
    requires
        at + LEAF_NODE_CELL_SIZE <= page@.len(),
    ensures
        r == decode_leaf_cell(page@.subrange(at as int, at + LEAF_NODE_CELL_SIZE)),
{
    proof {
        lemma_layout();
    }
    let len = page.len();
    assert(at + LEAF_NODE_CELL_SIZE <= len);
    let b = Ghost(page@.subrange(at as int, at + LEAF_NODE_CELL_SIZE));
    let key = read_i64(page, at);
    let id = read_i64(page, at + LEAF_NODE_CELL_KEY_SIZE);
    let name: [u8; NAME_MAX_SIZE] = read_array(page, at + LEAF_NODE_CELL_KEY_SIZE + ID_SIZE);
    let description: [u8; DESCRIPTION_MAX_SIZE] = read_array(
        page,
        at + LEAF_NODE_CELL_KEY_SIZE + ID_SIZE + NAME_MAX_SIZE,
    );
    let c = LeafCell { key, value: Row { id, name, description } };
    proof {
        assert(b@.subrange(0, 8) =~= page@.subrange(at as int, at + 8));
        assert(b@.subrange(8, 16) =~= page@.subrange(at + 8, at + 16));
        assert(b@.subrange(16, 48) =~= page@.subrange(at + 16, at + 48));
        assert(b@.subrange(48, 304) =~= page@.subrange(at + 48, at + 304));
        assert(leaf_cell_decodes(b@, c));
        lemma_leaf_cell_decodes_unique(b@, c, decode_leaf_cell(b@));
    }
    c
}

impl Node {
    /// The page that holds this node: header, cells, then zeros to the page's end.
    pub fn encode(&self) -> (r: Vec<u8>)
        requires
            self@.wf(),
        ensures
            r@ == node_bytes(self@),
            r@.len() == PAGE_SIZE,
    {
        proof {
            lemma_layout();
            lemma_node_bytes_len(self@);
        }
        let v = Ghost(self@);
        let mut out: Vec<u8> = Vec::new();
        out.push(self.kind().to_u8());
        out.push(if self.is_root { 1u8 } else { 0u8 });
        push_i32(&mut out, self.parent);
        let n_cells = self.get_n_cells() as u32;
        let mut nb = u32_to_le_bytes(n_cells);
        out.append(&mut nb);
        assert(out@ =~= header_bytes(v@));
        match &self.body {
            NodeBody::Leaf { cells } => {
                let mut i: usize = 0;
                while i < cells.len()
                    invariant
                        v@.leaf_cells == cells@,
                        i <= cells@.len(),
                        out@ == header_bytes(v@) + leaf_cells_bytes(cells@.subrange(0, i as int)),
                    decreases cells@.len() - i,
                {
                    push_leaf_cell(&mut out, &cells[i]);
                    proof {
                        assert(cells@.subrange(0, i + 1).drop_last() =~= cells@.subrange(
                            0,
                            i as int,
                        ));
                    }
                    i += 1;
                }
                assert(cells@.subrange(0, i as int) =~= cells@);
            },
            NodeBody::Internal { right_child, cells } => {
                push_i32(&mut out, *right_child);
                let mut i: usize = 0;
                while i < cells.len()
                    invariant
                        v@.internal_cells == cells@,
                        v@.right_child == *right_child,
                        i <= cells@.len(),
                        out@ == header_bytes(v@) + i32_bytes(*right_child) + internal_cells_bytes(
                            cells@.subrange(0, i as int),
                        ),
                    decreases cells@.len() - i,
                {
                    push_internal_cell(&mut out, &cells[i]);
                    proof {
                        assert(cells@.subrange(0, i + 1).drop_last() =~= cells@.subrange(
                            0,
                            i as int,
                        ));
                    }
                    i += 1;
                }
                assert(cells@.subrange(0, i as int) =~= cells@);
            },
        }
        assert(out@ == node_content_bytes(v@));
        let content_len = out.len();
        while out.len() < PAGE_SIZE
            invariant
                content_len == node_content_bytes(v@).len(),
                content_len <= out@.len() <= PAGE_SIZE,
                out@ == node_content_bytes(v@) + zeros((out@.len() - content_len) as nat),
            decreases PAGE_SIZE - out@.len(),
        {
            out.push(0u8);
            assert(zeros((out@.len() - content_len) as nat) =~= zeros(
                (out@.len() - 1 - content_len) as nat,
            ).push(0u8));
        }
        out
    }

    /// Decodes the page that starts at `offset` of a file image. An image that ends before the
    /// page does is truncated: that is corruption too.
    pub fn read_at(image: &[u8], offset: usize) -> (r: Result<Node, DbError>)
        ensures
            offset + PAGE_SIZE > image@.len() ==> (r matches Err(DbError::CorruptNode)),
            offset + PAGE_SIZE <= image@.len() ==> match decode_node(
                image@.subrange(offset as int, offset + PAGE_SIZE),
            ) {
                Some(v) => r matches Ok(n) && n@ == v,
                None => r matches Err(DbError::CorruptNode),
            },
    {
        proof {
            lemma_layout();
        }
        let len = image.len();
        if offset > len || len - offset < PAGE_SIZE {
            return Err(DbError::CorruptNode);
        }
        let page = slice_subrange(image, offset, offset + PAGE_SIZE);
        assert(page@ == image@.subrange(offset as int, offset + PAGE_SIZE));
        let kind = NodeKind::from_u8(page[0])?;
        let is_root = page[1] != 0;
        let parent = read_i32(page, 2);
        let n_bytes = slice_subrange(page, 6, 10);
        let n = u32_from_le_bytes(n_bytes) as usize;
        assert(n == page_n_cells(page@));
        match kind {
            NodeKind::Leaf => {
                if n > LEAF_NODE_CELL_MAX_NUM {
                    return Err(DbError::CorruptNode);
                }
                let mut cells: Vec<LeafCell> = Vec::new();
                let mut i: usize = 0;
                while i < n
                    invariant
                        n <= LEAF_NODE_CELL_MAX_NUM,
                        page@.len() == PAGE_SIZE,
                        i <= n,
                        cells@.len() == i,
                        forall|j: int|
                            0 <= j < i ==> cells@[j] == decode_leaf_cell(
                                #[trigger] page@.subrange(10 + 304 * j, 10 + 304 * j + 304),
                            ),
                    decreases n - i,
                {
                    proof {
                        lemma_layout();
                    }
                    let c = read_leaf_cell_at(page, NODE_HEADER_SIZE + i * LEAF_NODE_CELL_SIZE);
                    cells.push(c);
                    i += 1;
                }
                let node = Node { is_root, parent, body: NodeBody::Leaf { cells } };
                assert(node@.leaf_cells =~= decode_node(page@).unwrap().leaf_cells);
                assert(node@.internal_cells =~= decode_node(page@).unwrap().internal_cells);
                Ok(node)
            },
            NodeKind::Internal => {
                if n > INTERNAL_NODE_CELL_MAX_NUM {
                    return Err(DbError::CorruptNode);
                }
                let right_child = read_i32(page, NODE_HEADER_SIZE);
                let mut cells: Vec<InternalCell> = Vec::new();
                let mut i: usize = 0;
                while i < n
                    invariant
                        n <= INTERNAL_NODE_CELL_MAX_NUM,
                        page@.len() == PAGE_SIZE,
                        i <= n,
                        cells@.len() == i,
                        forall|j: int|
                            0 <= j < i ==> cells@[j] == decode_internal_cell(
                                #[trigger] page@.subrange(14 + 12 * j, 14 + 12 * j + 12),
                            ),
                    decreases n - i,
                {
                    proof {
                        lemma_layout();
                    }
                    let at = INTERNAL_NODE_HEADER_SIZE + i * INTERNAL_NODE_CELL_SIZE;
                    let child = read_i32(page, at);
                    let key = read_i64(page, at + 4);
                    proof {
                        let b = page@.subrange(at as int, at + 12);
                        assert(b.subrange(0, 4) =~= page@.subrange(at as int, at + 4));
                        assert(b.subrange(4, 12) =~= page@.subrange(at + 4, at + 12));
                    }
                    cells.push(InternalCell { child, key });
                    i += 1;
                }
                let node = Node { is_root, parent, body: NodeBody::Internal { right_child, cells } };
                assert(node@.internal_cells =~= decode_node(page@).unwrap().internal_cells);
                assert(node@.leaf_cells =~= decode_node(page@).unwrap().leaf_cells);
                Ok(node)
            },
        }
    }
}

} // verus!
