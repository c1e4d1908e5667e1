use rqlite::layout::{
    LEAF_NODE_CELL_MAX_NUM, NODE_HEADER_SIZE, PAGE_MAX_NUM, PAGE_SIZE, ROW_SIZE,
    SPLIT_LEFT_LEAF_NODE_NUM, SPLIT_RIGHT_LEAF_NODE_NUM,
};
use rqlite::node::{DbError, Row};
use rqlite::pager::Pager;
use rqlite::table::{Table, TreeLine};

fn open(file: Vec<u8>) -> Table {
    Table::new(Pager::new(file).unwrap()).unwrap()
}

fn text(field: &[u8]) -> String {
    let end = field.iter().position(|b| *b == 0).unwrap_or(field.len());
    String::from_utf8(field[..end].to_vec()).unwrap()
}

fn triple(row: &Row) -> (i64, String, String) {
    (row.id, text(&row.name), text(&row.description))
}

fn ids(table: &mut Table) -> Vec<i64> {
    table.select().iter().map(|r| r.id).collect()
}

fn insert_id(table: &mut Table, id: i64) -> Result<(), DbError> {
    let id = id.to_string();
    table.insert(&[id.as_str(), "n", "d"])
}

#[test]
fn layout_constants() {
    assert_eq!(ROW_SIZE, 296);
    assert_eq!(NODE_HEADER_SIZE, 10);
    assert_eq!(LEAF_NODE_CELL_MAX_NUM, 13);
    assert_eq!(SPLIT_LEFT_LEAF_NODE_NUM, 7);
    assert_eq!(SPLIT_RIGHT_LEAF_NODE_NUM, 7);
}

#[test]
fn empty_select() {
    let mut t = open(Vec::new());
    assert!(t.select().is_empty());
}

#[test]
fn insert_then_select() {
    let mut t = open(Vec::new());
    assert_eq!(t.insert(&["5", "alice", "hello"]), Ok(()));
    assert_eq!(t.insert(&["2", "bob", "world"]), Ok(()));
    let rows: Vec<_> = t.select().iter().map(triple).collect();
    assert_eq!(
        rows,
        vec![
            (2, "bob".to_string(), "world".to_string()),
            (5, "alice".to_string(), "hello".to_string()),
        ]
    );
}

#[test]
fn row_fields_are_nul_padded() {
    let mut t = open(Vec::new());
    t.insert(&["1", "ab", "c"]).unwrap();
    let row = t.select()[0];
    assert_eq!(&row.name[..3], &[b'a', b'b', 0]);
    assert!(row.name[2..].iter().all(|b| *b == 0));
    assert_eq!(row.description[0], b'c');
    assert!(row.description[1..].iter().all(|b| *b == 0));
}

#[test]
fn duplicate_rejection() {
    let mut t = open(Vec::new());
    assert_eq!(t.insert(&["7", "a", "b"]), Ok(()));
    assert_eq!(t.insert(&["7", "c", "d"]), Err(DbError::DuplicateKey(7)));
    let rows: Vec<_> = t.select().iter().map(triple).collect();
    assert_eq!(rows, vec![(7, "a".to_string(), "b".to_string())]);
}

#[test]
fn duplicate_in_second_leaf() {
    let mut t = open(Vec::new());
    for id in 1..=20 {
        insert_id(&mut t, id).unwrap();
    }
    assert_eq!(insert_id(&mut t, 18), Err(DbError::DuplicateKey(18)));
    assert_eq!(insert_id(&mut t, 3), Err(DbError::DuplicateKey(3)));
    assert_eq!(ids(&mut t), (1..=20).collect::<Vec<_>>());
}

#[test]
fn id_must_be_positive() {
    let mut t = open(Vec::new());
    assert_eq!(t.insert(&["0", "a", "b"]), Err(DbError::NotPositiveId));
    assert_eq!(t.insert(&["-1", "a", "b"]), Err(DbError::NotPositiveId));
    assert!(t.select().is_empty());
}

#[test]
fn insert_syntax_errors() {
    let mut t = open(Vec::new());
    assert_eq!(t.insert(&["abc", "alice", "x"]), Err(DbError::InsertSyntax));
    assert_eq!(t.insert(&["1", "alice"]), Err(DbError::InsertSyntax));
    assert_eq!(t.insert(&["1", "alice", "x", "y"]), Err(DbError::InsertSyntax));
    assert_eq!(t.insert(&[]), Err(DbError::InsertSyntax));
    assert_eq!(
        t.insert(&["9223372036854775808", "a", "b"]),
        Err(DbError::InsertSyntax)
    );
    assert_eq!(t.insert(&["", "a", "b"]), Err(DbError::InsertSyntax));
    assert_eq!(t.insert(&["+", "a", "b"]), Err(DbError::InsertSyntax));
    assert!(t.select().is_empty());
}

#[test]
fn id_parses_sign_and_largest_value() {
    let mut t = open(Vec::new());
    assert_eq!(t.insert(&["+12", "a", "b"]), Ok(()));
    assert_eq!(t.insert(&["9223372036854775807", "a", "b"]), Ok(()));
    assert_eq!(ids(&mut t), vec![12, i64::MAX]);
}

#[test]
fn field_length_boundaries() {
    let mut t = open(Vec::new());
    let name32 = "n".repeat(32);
    let name33 = "n".repeat(33);
    let desc256 = "d".repeat(256);
    let desc257 = "d".repeat(257);
    assert_eq!(t.insert(&["1", &name32, &desc256]), Ok(()));
    assert_eq!(t.insert(&["2", &name33, "x"]), Err(DbError::NameTooLong));
    assert_eq!(t.insert(&["3", "x", &desc257]), Err(DbError::DescriptionTooLong));
    let rows: Vec<_> = t.select().iter().map(triple).collect();
    assert_eq!(rows, vec![(1, name32, desc256)]);
}

#[test]
fn validation_not_persisted() {
    let mut t = open(Vec::new());
    let long_name = "x".repeat(33);
    assert_eq!(t.insert(&["abc", "alice", "x"]), Err(DbError::InsertSyntax));
    assert_eq!(t.insert(&["3", &long_name, "x"]), Err(DbError::NameTooLong));
    let image = t.close();
    let mut reopened = open(image);
    assert!(reopened.select().is_empty());
}

#[test]
fn root_split_on_fourteenth_row() {
    let mut t = open(Vec::new());
    for id in 1..=13 {
        insert_id(&mut t, id).unwrap();
    }
    assert!(t.pager.page(0).is_leaf());
    insert_id(&mut t, 14).unwrap();
    let root = t.pager.page(0);
    assert!(!root.is_leaf());
    assert!(root.is_root);
    assert_eq!(root.get_n_cells(), 1);
    assert_eq!(t.pager.page(1).get_n_cells(), 7);
    assert_eq!(t.pager.page(2).get_n_cells(), 7);
    assert!(!t.pager.page(1).is_root && !t.pager.page(2).is_root);
    assert_eq!(t.pager.page(1).parent, 0);
    assert_eq!(t.pager.page(2).parent, 0);
    let mut expected = vec![
        TreeLine::Internal { indent: 0, size: 1 },
        TreeLine::Leaf { indent: 1, size: 7 },
    ];
    for key in 1..=7 {
        expected.push(TreeLine::Record { indent: 2, key });
    }
    expected.push(TreeLine::Separator { indent: 1, key: 7 });
    expected.push(TreeLine::Leaf { indent: 1, size: 7 });
    for key in 8..=14 {
        expected.push(TreeLine::Record { indent: 2, key });
    }
    assert_eq!(t.print_tree(), expected);
    assert_eq!(ids(&mut t), (1..=14).collect::<Vec<_>>());
}

#[test]
fn root_split_descending_order() {
    let mut t = open(Vec::new());
    for id in (1..=14).rev() {
        insert_id(&mut t, id).unwrap();
    }
    assert_eq!(t.pager.page(1).get_n_cells() + t.pager.page(2).get_n_cells(), 14);
    assert_eq!(ids(&mut t), (1..=14).collect::<Vec<_>>());
}

#[test]
fn leaf_tree_dump() {
    let mut t = open(Vec::new());
    insert_id(&mut t, 4).unwrap();
    insert_id(&mut t, 2).unwrap();
    assert_eq!(
        t.print_tree(),
        vec![
            TreeLine::Leaf { indent: 0, size: 2 },
            TreeLine::Record { indent: 1, key: 2 },
            TreeLine::Record { indent: 1, key: 4 },
        ]
    );
}

#[test]
fn splits_below_internal_root() {
    let mut t = open(Vec::new());
    let mut expected = Vec::new();
    for i in 0..200i64 {
        let id = (i * 37) % 200 + 1;
        insert_id(&mut t, id).unwrap();
        expected.push(id);
    }
    expected.sort();
    assert_eq!(ids(&mut t), expected);
}

#[test]
fn persistence() {
    let mut t = open(Vec::new());
    t.insert(&["3", "c", "z"]).unwrap();
    t.insert(&["1", "a", "x"]).unwrap();
    t.insert(&["2", "b", "y"]).unwrap();
    let image = t.close();
    let mut reopened = open(image);
    let rows: Vec<_> = reopened.select().iter().map(triple).collect();
    assert_eq!(
        rows,
        vec![
            (1, "a".to_string(), "x".to_string()),
            (2, "b".to_string(), "y".to_string()),
            (3, "c".to_string(), "z".to_string()),
        ]
    );
}

#[test]
fn insertion_order_does_not_matter_after_reopen() {
    let ascending: Vec<i64> = (1..=40).collect();
    let mut scrambled: Vec<i64> = (0..40).map(|i| (i * 17) % 40 + 1).collect();
    scrambled.dedup();
    assert_eq!(scrambled.len(), 40);
    let mut selects = Vec::new();
    for order in [ascending.clone(), ascending.iter().rev().cloned().collect(), scrambled] {
        let mut t = open(Vec::new());
        for id in order {
            insert_id(&mut t, id).unwrap();
        }
        let mut reopened = open(t.close());
        selects.push(ids(&mut reopened));
    }
    assert_eq!(selects[0], ascending);
    assert_eq!(selects[1], ascending);
    assert_eq!(selects[2], ascending);
}

#[test]
fn reopen_continues_inserting() {
    let mut t = open(Vec::new());
    for id in 1..=20 {
        insert_id(&mut t, id).unwrap();
    }
    let mut t = open(t.close());
    for id in 21..=30 {
        insert_id(&mut t, id).unwrap();
    }
    assert_eq!(insert_id(&mut t, 5), Err(DbError::DuplicateKey(5)));
    let mut t = open(t.close());
    assert_eq!(ids(&mut t), (1..=30).collect::<Vec<_>>());
}

#[test]
fn file_is_page_aligned() {
    let mut t = open(Vec::new());
    assert_eq!(t.close().len(), PAGE_SIZE);
    for id in 1..=14 {
        insert_id(&mut t, id).unwrap();
    }
    let image = t.close();
    assert_eq!(image.len() % PAGE_SIZE, 0);
    assert_eq!(image.len(), 3 * PAGE_SIZE);
}

#[test]
fn table_reaches_max_size() {
    let mut t = open(Vec::new());
    let mut id = 1i64;
    let err = loop {
        match insert_id(&mut t, id) {
            Ok(()) => id += 1,
            Err(e) => break e,
        }
    };
    assert_eq!(err, DbError::TableFull);
    assert_eq!(t.pager.n_pages, PAGE_MAX_NUM);
    let before = ids(&mut t);
    assert_eq!(before, (1..id).collect::<Vec<_>>());
    assert_eq!(insert_id(&mut t, id), Err(DbError::TableFull));
    assert_eq!(ids(&mut t), before);
}

#[test]
fn misaligned_file_is_invalid() {
    assert!(matches!(Pager::new(vec![0u8; 100]), Err(DbError::InvalidFile)));
    assert!(matches!(Pager::new(vec![0u8; PAGE_SIZE + 1]), Err(DbError::InvalidFile)));
    assert!(Pager::new(vec![0u8; 2 * PAGE_SIZE]).is_ok());
}

#[test]
fn corrupt_file_is_refused() {
    let mut page = vec![0u8; PAGE_SIZE];
    page[0] = 7;
    assert!(matches!(Table::new(Pager::new(page).unwrap()), Err(DbError::CorruptNode)));
    // A leaf that is not marked as the root is no tree.
    let mut page = vec![0u8; PAGE_SIZE];
    page[0] = 2;
    page[2..6].copy_from_slice(&(-1i32).to_le_bytes());
    assert!(matches!(Table::new(Pager::new(page.clone()).unwrap()), Err(DbError::CorruptNode)));
    page[1] = 1;
    assert!(Table::new(Pager::new(page).unwrap()).is_ok());
}

#[test]
fn unsorted_leaf_is_refused() {
    let mut t = open(Vec::new());
    insert_id(&mut t, 1).unwrap();
    insert_id(&mut t, 2).unwrap();
    let mut image = t.close();
    // Swap the keys of the two records.
    let first = 10;
    let second = 10 + 304;
    image[first] = 2;
    image[second] = 1;
    assert!(matches!(Table::new(Pager::new(image).unwrap()), Err(DbError::CorruptNode)));
}
