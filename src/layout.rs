//! Sizes of the on-disk format. Every capacity is derived from the field sizes.
use vstd::prelude::*;

verus! {

/// Size of one page of the database file, and of one node.
pub const PAGE_SIZE: usize = 4096;

/// The pager holds at most this many pages; it bounds the size of a table.
pub const PAGE_MAX_NUM: usize = 64;

/// Page index stored where a node has no parent.
pub const NOT_EXIST: i32 = -1;

pub const ID_SIZE: usize = 8;
pub const NAME_MAX_SIZE: usize = 32;
pub const DESCRIPTION_MAX_SIZE: usize = 256;
pub const ROW_SIZE: usize = ID_SIZE + NAME_MAX_SIZE + DESCRIPTION_MAX_SIZE;

pub const NODE_KIND_SIZE: usize = 1;
pub const NODE_IS_ROOT_SIZE: usize = 1;
pub const NODE_PARENT_SIZE: usize = 4;
pub const NODE_N_CELLS_SIZE: usize = 4;
pub const NODE_HEADER_SIZE: usize = NODE_KIND_SIZE + NODE_IS_ROOT_SIZE + NODE_PARENT_SIZE
    + NODE_N_CELLS_SIZE;

pub const LEAF_NODE_HEADER_SIZE: usize = NODE_HEADER_SIZE;
pub const LEAF_NODE_SPACE_FOR_CELLS: usize = PAGE_SIZE - LEAF_NODE_HEADER_SIZE;
pub const LEAF_NODE_CELL_KEY_SIZE: usize = 8;
pub const LEAF_NODE_CELL_SIZE: usize = LEAF_NODE_CELL_KEY_SIZE + ROW_SIZE;
pub const LEAF_NODE_CELL_MAX_NUM: usize = LEAF_NODE_SPACE_FOR_CELLS / LEAF_NODE_CELL_SIZE;

pub const INTERNAL_NODE_RIGHT_CHILD_SIZE: usize = 4;
pub const INTERNAL_NODE_HEADER_SIZE: usize = NODE_HEADER_SIZE + INTERNAL_NODE_RIGHT_CHILD_SIZE;
pub const INTERNAL_NODE_SPACE_FOR_CELLS: usize = PAGE_SIZE - INTERNAL_NODE_HEADER_SIZE;
pub const INTERNAL_NODE_CELL_KEY_SIZE: usize = 8;
pub const INTERNAL_NODE_CELL_CHILD_SIZE: usize = 4;
pub const INTERNAL_NODE_CELL_SIZE: usize = INTERNAL_NODE_CELL_KEY_SIZE
    + INTERNAL_NODE_CELL_CHILD_SIZE;
pub const INTERNAL_NODE_CELL_MAX_NUM: usize = INTERNAL_NODE_SPACE_FOR_CELLS
    / INTERNAL_NODE_CELL_SIZE;

/// Cells that go to the new right sibling when a full leaf takes one more cell.
pub const SPLIT_RIGHT_LEAF_NODE_NUM: usize = (LEAF_NODE_CELL_MAX_NUM + 1) / 2;
/// Cells that stay in the old leaf when it splits.
pub const SPLIT_LEFT_LEAF_NODE_NUM: usize = (LEAF_NODE_CELL_MAX_NUM + 1)
    - SPLIT_RIGHT_LEAF_NODE_NUM;

/// The derived sizes, as the format fixes them.
pub proof fn lemma_layout()
    ensures
        ROW_SIZE == 296,
        NODE_HEADER_SIZE == 10,
        LEAF_NODE_CELL_SIZE == 304,
        LEAF_NODE_CELL_MAX_NUM == 13,
        INTERNAL_NODE_HEADER_SIZE == 14,
        INTERNAL_NODE_CELL_SIZE == 12,
        INTERNAL_NODE_CELL_MAX_NUM == 340,
        SPLIT_LEFT_LEAF_NODE_NUM == 7,
        SPLIT_RIGHT_LEAF_NODE_NUM == 7,
{
}

} // verus!
