use rqlite::node::DbError;
use rqlite::pager::Pager;
use rqlite::table::{Cursor, Table};

fn table_with(ids: &[i64]) -> Table {
    let mut t = Table::new(Pager::new(Vec::new()).unwrap()).unwrap();
    for id in ids {
        let id = id.to_string();
        t.insert(&[id.as_str(), "n", "d"]).unwrap();
    }
    t
}

#[test]
fn cursor_descends_to_the_key() {
    let ids: Vec<i64> = (1..=14).map(|i| i * 10).collect();
    let mut t = table_with(&ids);
    let c = Cursor::from(&mut t, 90);
    assert_eq!(c.page_index, 1);
    assert_eq!(c.cell_index, 1);
    assert!(!c.end_of_table);
    assert_eq!(c.read_leaf_cell(&mut t).unwrap().key, 90);
    let c = Cursor::from(&mut t, 65);
    assert_eq!(c.page_index, 2);
    assert_eq!(c.cell_index, 6);
    assert!(!c.end_of_table);
    let c = Cursor::from(&mut t, 500);
    assert_eq!(c.page_index, 1);
    assert_eq!(c.cell_index, 7);
    assert!(c.end_of_table);
    assert!(c.read_leaf_cell(&mut t).is_none());
}

#[test]
fn cursor_walks_across_leaves() {
    let ids: Vec<i64> = (1..=20).collect();
    let mut t = table_with(&ids);
    let mut c = Cursor::from_start(&mut t);
    let mut seen = Vec::new();
    while !c.end_of_table {
        seen.push(c.read_leaf_cell(&mut t).unwrap().key);
        c.advance(&mut t);
    }
    assert_eq!(seen, ids);
}

#[test]
fn cursor_on_empty_table() {
    let mut t = table_with(&[]);
    let c = Cursor::from_start(&mut t);
    assert!(c.end_of_table);
    let c = Cursor::from(&mut t, 3);
    assert_eq!(c.cell_index, 0);
    assert!(c.end_of_table);
}

#[test]
fn write_at_cursor() {
    let mut t = table_with(&[1, 3]);
    let c = Cursor::from(&mut t, 2);
    let row = t.select()[0];
    let cell = rqlite::node::LeafCell { key: 2, value: rqlite::node::Row { id: 2, ..row } };
    assert_eq!(c.write_leaf_cell(&mut t, cell), Ok(()));
    assert_eq!(t.select().iter().map(|r| r.id).collect::<Vec<_>>(), vec![1, 2, 3]);
    assert_eq!(t.insert_row(cell), Err(DbError::DuplicateKey(2)));
}

#[test]
fn read_past_the_leaf_is_none() {
    let mut t = table_with(&[1, 2, 3]);
    let mut c = Cursor::from_start(&mut t);
    c.cell_index = 10;
    assert!(c.read_leaf_cell(&mut t).is_none());
}

#[test]
fn leaf_search_without_separators() {
    let ids: Vec<i64> = (1..=14).map(|i| i * 10).collect();
    let mut t = table_with(&ids);
    // The left leaf holds 10..=70; a key beyond them lands past its end.
    let c = Cursor::from_leaf_node(&mut t, 0, 1000);
    assert_eq!(c.page_index, 2);
    assert_eq!(c.cell_index, 7);
    assert!(c.end_of_table);
    let c = Cursor::from_leaf_node(&mut t, 1, 5);
    assert_eq!(c.page_index, 1);
    assert_eq!(c.cell_index, 0);
}
