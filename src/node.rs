//! Nodes of the B+-tree: one node per page, a leaf or an internal node.
use vstd::prelude::*;
use crate::layout::{
    DESCRIPTION_MAX_SIZE, INTERNAL_NODE_CELL_MAX_NUM, LEAF_NODE_CELL_MAX_NUM, NAME_MAX_SIZE,
    NOT_EXIST, SPLIT_LEFT_LEAF_NODE_NUM, SPLIT_RIGHT_LEAF_NODE_NUM, lemma_layout,
};

verus! {

/// One record of the table.
#[derive(Clone, Copy, Debug)]
pub struct Row {
    pub id: i64,
    /// UTF-8 bytes, padded with NUL.
    pub name: [u8; NAME_MAX_SIZE],
    /// UTF-8 bytes, padded with NUL.
    pub description: [u8; DESCRIPTION_MAX_SIZE],
}

/// A record of a leaf, under its key.
#[derive(Clone, Copy, Debug)]
pub struct LeafCell {
    pub key: i64,
    pub value: Row,
}

/// A separator of an internal node: `key` is the largest key under `child`.
#[derive(Clone, Copy, Debug)]
pub struct InternalCell {
    pub child: i32,
    pub key: i64,
}

#[derive(Clone, Copy, Debug, PartialEq, Eq, Structural)]
pub enum NodeKind {
    Internal,
    Leaf,
}

/// Errors of the storage engine and of the statements it runs.
#[derive(Clone, Copy, Debug, PartialEq, Eq, Structural)]
pub enum DbError {
    /// An insert statement without exactly an id, a name and a description.
    InsertSyntax,
    NotPositiveId,
    NameTooLong,
    DescriptionTooLong,
    /// The key is already in the table.
    DuplicateKey(i64),
    /// The page that the operation needs lies beyond the pager's capacity.
    TableFull,
    /// The file length is not a multiple of the page size.
    InvalidFile,
    /// A page does not hold a node, or the pages do not form a tree.
    CorruptNode,
}

/// What a node holds besides its header.
#[allow(inconsistent_fields)]
pub enum NodeBody {
    Leaf { cells: Vec<LeafCell> },
    Internal { right_child: i32, cells: Vec<InternalCell> },
}

pub struct Node {
    pub is_root: bool,
    /// Page index of the parent, or `NOT_EXIST` for the root.
    pub parent: i32,
    pub body: NodeBody,
}

/// The mathematical model of a node. A leaf has no separators and `NOT_EXIST` as right child.
pub struct NodeView {
    pub kind: NodeKind,
    pub is_root: bool,
    pub parent: i32,
    pub right_child: i32,
    pub leaf_cells: Seq<LeafCell>,
    pub internal_cells: Seq<InternalCell>,
}

impl NodeView {
    pub open spec fn is_leaf(self) -> bool {
        self.kind is Leaf
    }

    pub open spec fn n_cells(self) -> nat {
        if self.is_leaf() {
            self.leaf_cells.len()
        } else {
            self.internal_cells.len()
        }
    }

    /// A leaf has no separators and an internal node no records.
    pub open spec fn shaped(self) -> bool {
        if self.is_leaf() {
            self.internal_cells.len() == 0 && self.right_child == NOT_EXIST
        } else {
            self.leaf_cells.len() == 0
        }
    }

    /// The number of cells fits the node's kind.
    pub open spec fn within_capacity(self) -> bool {
        if self.is_leaf() {
            self.leaf_cells.len() <= LEAF_NODE_CELL_MAX_NUM
        } else {
            self.internal_cells.len() <= INTERNAL_NODE_CELL_MAX_NUM
        }
    }

    pub open spec fn wf(self) -> bool {
        self.shaped() && self.within_capacity()
    }

    /// Page index of the child in `slot`: a separator's child, or the right child after them.
    pub open spec fn child_at(self, slot: int) -> i32 {
        if slot < self.internal_cells.len() {
            self.internal_cells[slot].child
        } else {
            self.right_child
        }
    }

    /// The node with `child` as the child in `slot`: a separator's child, or the right child.
    pub open spec fn with_child(self, slot: int, child: i32) -> NodeView {
        if slot < self.internal_cells.len() {
            NodeView {
                internal_cells: self.internal_cells.update(
                    slot,
                    InternalCell { child, key: self.internal_cells[slot].key },
                ),
                ..self
            }
        } else {
            NodeView { right_child: child, ..self }
        }
    }

    /// Largest key of the node: its last cell's.
    pub open spec fn max_key(self) -> i64 {
        if self.is_leaf() {
            self.leaf_cells.last().key
        } else {
            self.internal_cells.last().key
        }
    }
}

/// Keys of a sequence of records, strictly ascending.
pub open spec fn keys_ascending(cells: Seq<LeafCell>) -> bool {
    forall|i: int, j: int| 0 <= i < j < cells.len() ==> cells[i].key < cells[j].key
}

/// Keys of a sequence of separators, strictly ascending.
pub open spec fn separators_ascending(cells: Seq<InternalCell>) -> bool {
    forall|i: int, j: int| 0 <= i < j < cells.len() ==> cells[i].key < cells[j].key
}

impl View for Node {
    type V = NodeView;

    open spec fn view(&self) -> NodeView {
        match self.body {
            NodeBody::Leaf { cells } => NodeView {
                kind: NodeKind::Leaf,
                is_root: self.is_root,
                parent: self.parent,
                right_child: NOT_EXIST,
                leaf_cells: cells@,
                internal_cells: Seq::empty(),
            },
            NodeBody::Internal { right_child, cells } => NodeView {
                kind: NodeKind::Internal,
                is_root: self.is_root,
                parent: self.parent,
                right_child,
                leaf_cells: Seq::empty(),
                internal_cells: cells@,
            },
        }
    }
}

impl NodeKind {
    /// Reads a kind byte: 1 is internal, 2 is leaf, anything else is corruption.
    pub fn from_u8(v: u8) -> (r: Result<NodeKind, DbError>)
        ensures
            v == 1 ==> r matches Ok(NodeKind::Internal),
            v == 2 ==> r matches Ok(NodeKind::Leaf),
            v != 1 && v != 2 ==> r matches Err(DbError::CorruptNode),
    {
        match v {
            1 => Ok(NodeKind::Internal),
            2 => Ok(NodeKind::Leaf),
            _ => Err(DbError::CorruptNode),
        }
    }

    /// The kind byte of the on-disk header.
    pub fn to_u8(&self) -> (r: u8)
        ensures
            r == kind_byte(*self),
    {
        match self {
            NodeKind::Internal => 1,
            NodeKind::Leaf => 2,
        }
    }
}

/// A leaf without records, parent or root flag.
pub open spec fn blank_leaf() -> NodeView {
    NodeView {
        kind: NodeKind::Leaf,
        is_root: false,
        parent: NOT_EXIST,
        right_child: NOT_EXIST,
        leaf_cells: Seq::empty(),
        internal_cells: Seq::empty(),
    }
}

pub open spec fn kind_byte(k: NodeKind) -> u8 {
    match k {
        NodeKind::Internal => 1u8,
        NodeKind::Leaf => 2u8,
    }
}

impl Node {
    /// A blank leaf: no cells, no parent, not the root.
    pub fn new_leaf() -> (r: Node)
        ensures
            r@ == blank_leaf(),
    {
        Node { is_root: false, parent: NOT_EXIST, body: NodeBody::Leaf { cells: Vec::new() } }
    }

    pub fn kind(&self) -> (r: NodeKind)
        ensures
            r == self@.kind,
    {
        match &self.body {
            NodeBody::Leaf { .. } => NodeKind::Leaf,
            NodeBody::Internal { .. } => NodeKind::Internal,
        }
    }

    pub fn is_leaf(&self) -> (r: bool)
        ensures
            r == self@.is_leaf(),
    {
        match &self.body {
            NodeBody::Leaf { .. } => true,
            NodeBody::Internal { .. } => false,
        }
    }

    /// Turns the node into an empty leaf; its root flag and parent stay.
    pub fn become_leaf_node(&mut self)
        ensures
            final(self)@ == (NodeView {
                kind: NodeKind::Leaf,
                leaf_cells: Seq::empty(),
                internal_cells: Seq::empty(),
                right_child: NOT_EXIST,
                ..old(self)@
            }),
    {
        self.body = NodeBody::Leaf { cells: Vec::new() };
    }

    /// Turns the node into an internal node without separators and with no right child yet;
    /// its root flag and parent stay.
    pub fn become_internal_node(&mut self)
        ensures
            final(self)@ == (NodeView {
                kind: NodeKind::Internal,
                leaf_cells: Seq::empty(),
                internal_cells: Seq::empty(),
                right_child: NOT_EXIST,
                ..old(self)@
            }),
    {
        self.body = NodeBody::Internal { right_child: NOT_EXIST, cells: Vec::new() };
    }

    /// The records of a leaf, to change in place.
    pub fn get_mut_leaf_cells(&mut self) -> (r: &mut Vec<LeafCell>)
        requires
            old(self)@.is_leaf(),
        ensures
            r@ == old(self)@.leaf_cells,
            final(self)@ == (NodeView { leaf_cells: final(r)@, ..old(self)@ }),
    {
        match &mut self.body {
            NodeBody::Leaf { cells } => cells,
            NodeBody::Internal { .. } => unreached(),
        }
    }

    /// The separators of an internal node, to change in place.
    pub fn get_mut_internal_cells(&mut self) -> (r: &mut Vec<InternalCell>)
        requires
            !old(self)@.is_leaf(),
        ensures
            r@ == old(self)@.internal_cells,
            final(self)@ == (NodeView { internal_cells: final(r)@, ..old(self)@ }),
    {
        match &mut self.body {
            NodeBody::Internal { cells, .. } => cells,
            NodeBody::Leaf { .. } => unreached(),
        }
    }

    /// The record in `cell_index`, if the node is a leaf that has one there.
    pub fn read_leaf_cell(&self, cell_index: usize) -> (r: Option<&LeafCell>)
        ensures
            self@.is_leaf() && cell_index < self@.leaf_cells.len() ==> r == Some(
                &self@.leaf_cells[cell_index as int],
            ),
            !(self@.is_leaf() && cell_index < self@.leaf_cells.len()) ==> r is None,
    {
        match &self.body {
            NodeBody::Leaf { cells } => {
                if cell_index < cells.len() {
                    Some(&cells[cell_index])
                } else {
                    None
                }
            },
            NodeBody::Internal { .. } => None,
        }
    }

    /// The separator in `cell_index`, if the node is internal and has one there.
    pub fn read_internal_cell(&self, cell_index: usize) -> (r: Option<&InternalCell>)
        ensures
            !self@.is_leaf() && cell_index < self@.internal_cells.len() ==> r == Some(
                &self@.internal_cells[cell_index as int],
            ),
            !(!self@.is_leaf() && cell_index < self@.internal_cells.len()) ==> r is None,
    {
        match &self.body {
            NodeBody::Internal { cells, .. } => {
                if cell_index < cells.len() {
                    Some(&cells[cell_index])
                } else {
                    None
                }
            },
            NodeBody::Leaf { .. } => None,
        }
    }

    /// Places `cell` in `cell_index` of a leaf without shifting: it replaces the record there,
    /// or becomes the last one where `cell_index` is the number of records.
    pub fn put_leaf_cell(&mut self, cell_index: usize, cell: LeafCell)
        requires
            old(self)@.is_leaf(),
            cell_index <= old(self)@.leaf_cells.len(),
        ensures
            cell_index < old(self)@.leaf_cells.len() ==> final(self)@ == (NodeView {
                leaf_cells: old(self)@.leaf_cells.update(cell_index as int, cell),
                ..old(self)@
            }),
            cell_index == old(self)@.leaf_cells.len() ==> final(self)@ == (NodeView {
                leaf_cells: old(self)@.leaf_cells.push(cell),
                ..old(self)@
            }),
    {
        let cells = self.get_mut_leaf_cells();
        if cell_index < cells.len() {
            cells.set(cell_index, cell);
        } else {
            cells.push(cell);
        }
    }

    /// Inserts `cell` in `cell_index` of a leaf that has room, shifting the records from there on
    /// one place to the right.
    pub fn insert_leaf_cell(&mut self, cell_index: usize, cell: LeafCell)
        requires
            old(self)@.is_leaf(),
            cell_index <= old(self)@.leaf_cells.len(),
            old(self)@.leaf_cells.len() < LEAF_NODE_CELL_MAX_NUM,
        ensures
            final(self)@ == (NodeView {
                leaf_cells: old(self)@.leaf_cells.insert(cell_index as int, cell),
                ..old(self)@
            }),
    {
        let cells = self.get_mut_leaf_cells();
        cells.insert(cell_index, cell);
    }

    /// Inserts `cell` in `cell_index` of a full leaf and moves the upper half of the records out:
    /// the leaf keeps the first `SPLIT_LEFT_LEAF_NODE_NUM` records, the result holds the rest.
    pub fn insert_and_split(&mut self, cell_index: usize, cell: LeafCell) -> (r: Vec<LeafCell>)
        requires
            old(self)@.is_leaf(),
            old(self)@.leaf_cells.len() == LEAF_NODE_CELL_MAX_NUM,
            cell_index <= old(self)@.leaf_cells.len(),
        ensures
            final(self)@ == (NodeView { leaf_cells: final(self)@.leaf_cells, ..old(self)@ }),
            final(self)@.leaf_cells + r@ == old(self)@.leaf_cells.insert(cell_index as int, cell),
            final(self)@.leaf_cells.len() == SPLIT_LEFT_LEAF_NODE_NUM,
            r@.len() == SPLIT_RIGHT_LEAF_NODE_NUM,
    {
        proof {
            lemma_layout();
        }
        let cells = self.get_mut_leaf_cells();
        cells.insert(cell_index, cell);
        let right = cells.split_off(SPLIT_LEFT_LEAF_NODE_NUM);
        proof {
            assert(cells@ + right@ =~= old(self)@.leaf_cells.insert(cell_index as int, cell));
        }
        right
    }

    /// Inserts a separator in `cell_index` of an internal node that has room.
    pub fn insert_internal_cell(&mut self, cell_index: usize, cell: InternalCell)
        requires
            !old(self)@.is_leaf(),
            cell_index <= old(self)@.internal_cells.len(),
            old(self)@.internal_cells.len() < INTERNAL_NODE_CELL_MAX_NUM,
        ensures
            final(self)@ == (NodeView {
                internal_cells: old(self)@.internal_cells.insert(cell_index as int, cell),
                ..old(self)@
            }),
    {
        let cells = self.get_mut_internal_cells();
        cells.insert(cell_index, cell);
    }

    /// Points the child in `slot` of an internal node at page `child`; separator keys stay.
    pub fn set_child(&mut self, slot: usize, child: i32)
        requires
            !old(self)@.is_leaf(),
            slot <= old(self)@.internal_cells.len(),
        ensures
            final(self)@ == old(self)@.with_child(slot as int, child),
    {
        match &mut self.body {
            NodeBody::Internal { right_child, cells } => {
                if slot < cells.len() {
                    let key = cells[slot].key;
                    cells.set(slot, InternalCell { child, key });
                } else {
                    *right_child = child;
                }
            },
            NodeBody::Leaf { .. } => {},
        }
    }

    /// The page index stored for the child in `slot` of an internal node.
    pub fn child_page(&self, slot: usize) -> (r: i32)
        requires
            !self@.is_leaf(),
            slot <= self@.internal_cells.len(),
        ensures
            r == self@.child_at(slot as int),
    {
        match &self.body {
            NodeBody::Internal { right_child, cells } => {
                if slot < cells.len() {
                    cells[slot].child
                } else {
                    *right_child
                }
            },
            NodeBody::Leaf { .. } => unreached(),
        }
    }

    /// Whether the keys of a leaf strictly ascend.
    pub fn leaf_keys_ascending(&self) -> (r: bool)
        requires
            self@.is_leaf(),
        ensures
            r == keys_ascending(self@.leaf_cells),
    {
        match &self.body {
            NodeBody::Leaf { cells } => {
                let mut i: usize = 1;
                if cells.len() == 0 {
                    return true;
                }
                while i < cells.len()
                    invariant
                        self@.leaf_cells == cells@,
                        1 <= i <= cells@.len(),
                        keys_ascending(cells@.take(i as int)),
                    decreases cells@.len() - i,
                {
                    if cells[i - 1].key >= cells[i].key {
                        assert(!(cells@[i - 1].key < cells@[i as int].key));
                        return false;
                    }
                    proof {
                        let t = cells@.take(i + 1);
                        assert forall|a: int, b: int| 0 <= a < b < t.len() implies t[a].key
                            < t[b].key by {
                            if b == i && a < i - 1 {
                                assert(cells@.take(i as int)[a].key < cells@.take(
                                    i as int,
                                )[i - 1].key);
                            }
                        }
                    }
                    i += 1;
                }
                assert(cells@.take(i as int) =~= cells@);
                true
            },
            NodeBody::Internal { .. } => unreached(),
        }
    }

    /// The key of the last cell: the largest key of a leaf, the largest separator of an
    /// internal node.
    pub fn get_max_key(&self) -> (r: i64)
        requires
            self@.n_cells() > 0,
        ensures
            r == self@.max_key(),
    {
        match &self.body {
            NodeBody::Leaf { cells } => cells[cells.len() - 1].key,
            NodeBody::Internal { cells, .. } => cells[cells.len() - 1].key,
        }
    }

    /// Page index of the child of an internal node in `slot`; the slot after the last separator
    /// is the right child's.
    pub fn get_child_index(&self, slot: usize) -> (r: usize)
        requires
            !self@.is_leaf(),
            slot <= self@.internal_cells.len(),
            self@.child_at(slot as int) >= 0,
        ensures
            r == self@.child_at(slot as int),
    {
        match &self.body {
            NodeBody::Internal { right_child, cells } => {
                if slot < cells.len() {
                    cells[slot].child as usize
                } else {
                    *right_child as usize
                }
            },
            NodeBody::Leaf { .. } => unreached(),
        }
    }

    pub fn get_n_cells(&self) -> (r: usize)
        ensures
            r == self@.n_cells(),
    {
        match &self.body {
            NodeBody::Leaf { cells } => cells.len(),
            NodeBody::Internal { cells, .. } => cells.len(),
        }
    }
}

} // verus!
