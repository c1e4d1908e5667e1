use rqlite::layout::{NOT_EXIST, PAGE_SIZE};
use rqlite::node::{DbError, InternalCell, LeafCell, Node, NodeBody, NodeKind, Row};

fn cell(key: i64) -> LeafCell {
    let mut name = [0u8; 32];
    name[0] = b'a' + (key % 26) as u8;
    let mut description = [0u8; 256];
    description[255] = 9;
    LeafCell { key, value: Row { id: key, name, description } }
}

fn keys(node: &Node) -> Vec<i64> {
    match &node.body {
        NodeBody::Leaf { cells } => cells.iter().map(|c| c.key).collect(),
        NodeBody::Internal { cells, .. } => cells.iter().map(|c| c.key).collect(),
    }
}

#[test]
fn node_kind_bytes() {
    assert_eq!(NodeKind::Internal.to_u8(), 1);
    assert_eq!(NodeKind::Leaf.to_u8(), 2);
    assert_eq!(NodeKind::from_u8(1), Ok(NodeKind::Internal));
    assert_eq!(NodeKind::from_u8(2), Ok(NodeKind::Leaf));
    assert_eq!(NodeKind::from_u8(0), Err(DbError::CorruptNode));
    assert_eq!(NodeKind::from_u8(3), Err(DbError::CorruptNode));
}

#[test]
fn leaf_cell_insert_and_put() {
    let mut node = Node::new_leaf();
    assert_eq!(node.kind(), NodeKind::Leaf);
    node.insert_leaf_cell(0, cell(5));
    node.insert_leaf_cell(0, cell(1));
    node.insert_leaf_cell(1, cell(3));
    assert_eq!(keys(&node), vec![1, 3, 5]);
    assert_eq!(node.get_n_cells(), 3);
    assert_eq!(node.get_max_key(), 5);
    node.put_leaf_cell(1, cell(4));
    node.put_leaf_cell(3, cell(9));
    assert_eq!(keys(&node), vec![1, 4, 5, 9]);
    assert_eq!(node.read_leaf_cell(1).unwrap().key, 4);
    assert!(node.read_leaf_cell(4).is_none());
    assert!(node.read_internal_cell(0).is_none());
}

#[test]
fn insert_and_split_halves() {
    let mut node = Node::new_leaf();
    for k in 0..13 {
        node.insert_leaf_cell(k as usize, cell(2 * k));
    }
    let right = node.insert_and_split(3, cell(5));
    assert_eq!(keys(&node), vec![0, 2, 4, 5, 6, 8, 10]);
    assert_eq!(right.iter().map(|c| c.key).collect::<Vec<_>>(), vec![12, 14, 16, 18, 20, 22, 24]);
}

#[test]
fn internal_node_children() {
    let mut node = Node::new_leaf();
    node.is_root = true;
    node.become_internal_node();
    assert_eq!(node.kind(), NodeKind::Internal);
    assert_eq!(node.get_n_cells(), 0);
    assert!(node.is_root);
    node.set_child(0, 4);
    node.insert_internal_cell(0, InternalCell { child: 2, key: 10 });
    node.insert_internal_cell(1, InternalCell { child: 3, key: 20 });
    assert_eq!(node.get_child_index(0), 2);
    assert_eq!(node.get_child_index(1), 3);
    assert_eq!(node.get_child_index(2), 4);
    assert_eq!(node.get_max_key(), 20);
    node.set_child(1, 7);
    assert_eq!(node.get_child_index(1), 7);
    assert_eq!(node.read_internal_cell(1).unwrap().key, 20);
    node.become_leaf_node();
    assert_eq!(node.get_n_cells(), 0);
    assert!(node.is_leaf());
}

#[test]
fn mutable_cell_access() {
    let mut node = Node::new_leaf();
    node.get_mut_leaf_cells().push(cell(8));
    assert_eq!(keys(&node), vec![8]);
    node.become_internal_node();
    node.get_mut_internal_cells().push(InternalCell { child: 1, key: 3 });
    assert_eq!(keys(&node), vec![3]);
}

#[test]
fn leaf_round_trip() {
    let mut node = Node::new_leaf();
    node.parent = 0;
    for k in [3, 9, 27] {
        node.insert_leaf_cell(node.get_n_cells(), cell(k));
    }
    let page = node.encode();
    assert_eq!(page.len(), PAGE_SIZE);
    assert_eq!(page[0], 2);
    assert_eq!(page[1], 0);
    assert_eq!(&page[2..6], &0i32.to_le_bytes());
    assert_eq!(&page[6..10], &3u32.to_le_bytes());
    assert_eq!(&page[10..18], &3i64.to_le_bytes());
    assert!(page[10 + 3 * 304..].iter().all(|b| *b == 0));
    let back = Node::read_at(&page, 0).unwrap();
    assert_eq!(back.parent, 0);
    assert!(!back.is_root);
    assert_eq!(keys(&back), vec![3, 9, 27]);
    let c = back.read_leaf_cell(2).unwrap();
    assert_eq!(c.value.id, 27);
    assert_eq!(c.value.name, cell(27).value.name);
    assert_eq!(c.value.description[255], 9);
}

#[test]
fn internal_round_trip_at_offset() {
    let mut node = Node::new_leaf();
    node.is_root = true;
    node.become_internal_node();
    node.set_child(0, 5);
    node.insert_internal_cell(0, InternalCell { child: 6, key: -4 });
    let mut image = vec![0xffu8; PAGE_SIZE];
    image.extend(node.encode());
    assert_eq!(image[PAGE_SIZE], 1);
    assert_eq!(image[PAGE_SIZE + 1], 1);
    assert_eq!(&image[PAGE_SIZE + 2..PAGE_SIZE + 6], &NOT_EXIST.to_le_bytes());
    assert_eq!(&image[PAGE_SIZE + 10..PAGE_SIZE + 14], &5i32.to_le_bytes());
    assert_eq!(&image[PAGE_SIZE + 14..PAGE_SIZE + 18], &6i32.to_le_bytes());
    assert_eq!(&image[PAGE_SIZE + 18..PAGE_SIZE + 26], &(-4i64).to_le_bytes());
    let back = Node::read_at(&image, PAGE_SIZE).unwrap();
    assert!(back.is_root);
    assert_eq!(back.parent, NOT_EXIST);
    assert_eq!(back.get_child_index(0), 6);
    assert_eq!(back.get_child_index(1), 5);
    assert_eq!(keys(&back), vec![-4]);
}

#[test]
fn decode_refuses_bad_pages() {
    let mut page = vec![0u8; PAGE_SIZE];
    assert!(matches!(Node::read_at(&page, 0), Err(DbError::CorruptNode)));
    page[0] = 2;
    page[6..10].copy_from_slice(&14u32.to_le_bytes());
    assert!(matches!(Node::read_at(&page, 0), Err(DbError::CorruptNode)));
    page[6..10].copy_from_slice(&13u32.to_le_bytes());
    assert_eq!(Node::read_at(&page, 0).unwrap().get_n_cells(), 13);
    page[0] = 1;
    page[6..10].copy_from_slice(&341u32.to_le_bytes());
    assert!(matches!(Node::read_at(&page, 0), Err(DbError::CorruptNode)));
}

#[test]
fn decode_refuses_truncated_image() {
    let mut page = Node::new_leaf().encode();
    assert!(Node::read_at(&page, 0).is_ok());
    page.truncate(PAGE_SIZE - 1);
    assert!(matches!(Node::read_at(&page, 0), Err(DbError::CorruptNode)));
    page[0] = 7;
    assert!(matches!(Node::read_at(&page, 0), Err(DbError::CorruptNode)));
    assert!(matches!(Node::read_at(&[], 0), Err(DbError::CorruptNode)));
    let image = vec![0u8; 2 * PAGE_SIZE];
    assert!(matches!(Node::read_at(&image, PAGE_SIZE + 1), Err(DbError::CorruptNode)));
    assert!(matches!(Node::read_at(&image, usize::MAX), Err(DbError::CorruptNode)));
}
