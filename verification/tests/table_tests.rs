use minidb::cursor::Cursor;
use minidb::errors::DbError;
use minidb::row::Row;
use minidb::table::Table;

fn open_fresh() -> Table {
    Table::open_db_connection(Vec::new()).unwrap()
}

fn insert_row(table: &mut Table, id: u32, user_name: &str, email: &str) -> Result<(), DbError> {
    let row = Row::new(id, user_name.to_string(), email.to_string());
    let cursor = Cursor::table_find(table, id as usize);
    cursor.insert(table, &row)
}

fn all_ids(table: &mut Table) -> Vec<u32> {
    table
        .select_all()
        .iter()
        .map(|bytes| Row::deserialize(bytes).unwrap().get_id())
        .collect()
}

#[test]
fn test_table() {
    let mut table = open_fresh();
    let row = Row::new(1, "test".to_string(), "test".to_string());
    table.insert(0, 0, &row).unwrap();
    table.flush().unwrap();

    let image = table.file_bytes().clone();
    let mut table = Table::open_db_connection(image).unwrap();
    let row = Row::deserialize(&table.select(0, 0)).unwrap();
    assert_eq!(row.get_id(), 1);
    assert_eq!(row.get_user_name(), "test");
    assert_eq!(row.get_email(), "test");
}

#[test]
fn test_insert_multiple_rows() {
    let mut table = open_fresh();
    let row = Row::new(1, "test".to_string(), "test".to_string());
    table.insert(0, 0, &row).unwrap();
    let row = Row::new(2, "test".to_string(), "test".to_string());
    table.insert(0, 1, &row).unwrap();
    let row = Row::new(3, "test".to_string(), "test".to_string());
    table.insert(0, 2, &row).unwrap();
    table.flush().unwrap();

    let image = table.file_bytes().clone();
    let mut table = Table::open_db_connection(image).unwrap();
    let row = Row::deserialize(&table.select(0, 0)).unwrap();
    assert_eq!(row.get_id(), 1);
    assert_eq!(row.get_user_name(), "test");
    assert_eq!(row.get_email(), "test");
    let row = Row::deserialize(&table.select(0, 1)).unwrap();
    assert_eq!(row.get_id(), 2);
    assert_eq!(row.get_user_name(), "test");
    assert_eq!(row.get_email(), "test");
    let row = Row::deserialize(&table.select(0, 2)).unwrap();
    assert_eq!(row.get_id(), 3);
    assert_eq!(row.get_user_name(), "test");
    assert_eq!(row.get_email(), "test");
}

#[test]
fn test_basic_insert_select() {
    let mut table = open_fresh();
    insert_row(&mut table, 1, "user1", "email1").unwrap();
    insert_row(&mut table, 2, "user2", "email2").unwrap();
    let rows = table.select_all();
    assert_eq!(rows.len(), 2);
    let first = Row::deserialize(&rows[0]).unwrap();
    let second = Row::deserialize(&rows[1]).unwrap();
    assert_eq!(first.get_id(), 1);
    assert_eq!(first.get_user_name(), "user1");
    assert_eq!(second.get_id(), 2);
    assert_eq!(second.get_email(), "email2");
}

#[test]
fn test_split_boundary() {
    // the fourth insert overflows the root leaf and promotes the root.
    let mut table = open_fresh();
    for id in 1..=4u32 {
        insert_row(&mut table, id, "user", "email").unwrap();
    }
    assert_eq!(all_ids(&mut table), vec![1, 2, 3, 4]);
    assert_eq!(table.get_pager().get_page_count(), 3);
    let root = table.get_pager().get_node(0).unwrap();
    assert!(root.is_parent_node());
    assert_eq!(root.get_key_count(), 1);
}

#[test]
fn test_out_of_order_insert() {
    let mut table = open_fresh();
    for id in [3u32, 1, 2] {
        insert_row(&mut table, id, "user", "email").unwrap();
    }
    assert_eq!(all_ids(&mut table), vec![1, 2, 3]);
}

#[test]
fn test_duplicate_key() {
    let mut table = open_fresh();
    insert_row(&mut table, 1, "a", "a").unwrap();
    let err = insert_row(&mut table, 1, "b", "b").unwrap_err();
    assert_eq!(err, DbError::DuplicateKey);
    let rows = table.select_all();
    assert_eq!(rows.len(), 1);
    let row = Row::deserialize(&rows[0]).unwrap();
    assert_eq!(row.get_user_name(), "a");
}

#[test]
fn test_persistence_across_reopen() {
    // after a flush, the image alone reopens to the same rows.
    let mut table = open_fresh();
    for id in [5u32, 2, 9, 7] {
        insert_row(&mut table, id, "user", "email").unwrap();
    }
    table.flush().unwrap();
    let image = table.file_bytes().clone();
    assert_eq!(image.len(), 3 * 4096);
    let mut reopened = Table::open_db_connection(image).unwrap();
    assert_eq!(all_ids(&mut reopened), vec![2, 5, 7, 9]);
}

#[test]
fn test_sorted_after_every_insert() {
    let mut table = open_fresh();
    for id in [4u32, 6, 1, 5, 3, 2] {
        insert_row(&mut table, id, "user", "email").unwrap();
        let ids = all_ids(&mut table);
        let mut sorted = ids.clone();
        sorted.sort();
        assert_eq!(ids, sorted);
    }
    assert_eq!(all_ids(&mut table), vec![1, 2, 3, 4, 5, 6]);
}

#[test]
fn test_internal_split_capacity() {
    // ascending inserts fill the parent's routing keys; the split that
    // would need a fourth key is refused cleanly.
    let mut table = open_fresh();
    for id in 1..=6u32 {
        insert_row(&mut table, id, "user", "email").unwrap();
    }
    let err = insert_row(&mut table, 7, "user", "email").unwrap_err();
    assert_eq!(err, DbError::CapacityExceeded);
    // the table is unchanged and still ordered.
    assert_eq!(all_ids(&mut table), vec![1, 2, 3, 4, 5, 6]);
}

#[test]
fn test_keyed_child_split() {
    // fill the leftmost (keyed) leaf of a two-leaf tree and split it.
    let mut table = open_fresh();
    for id in [10u32, 20, 30, 40, 5, 7] {
        insert_row(&mut table, id, "user", "email").unwrap();
    }
    insert_row(&mut table, 6, "user", "email").unwrap();
    assert_eq!(all_ids(&mut table), vec![5, 6, 7, 10, 20, 30, 40]);
    let root = table.get_pager().get_node(0).unwrap();
    assert!(root.is_parent_node());
    assert_eq!(root.get_key_count(), 2);
    // a flush and reopen preserve the three-leaf tree.
    table.flush().unwrap();
    let mut reopened = Table::open_db_connection(table.file_bytes().clone()).unwrap();
    assert_eq!(all_ids(&mut reopened), vec![5, 6, 7, 10, 20, 30, 40]);
}

#[test]
fn test_row_too_large_leaves_table_unchanged() {
    let mut table = open_fresh();
    insert_row(&mut table, 1, "ok", "ok").unwrap();
    let err = insert_row(&mut table, 2, &"x".repeat(40), "ok").unwrap_err();
    assert_eq!(err, DbError::RowTooLarge);
    assert_eq!(all_ids(&mut table), vec![1]);
}

#[test]
fn test_open_counts_file_pages() {
    // the pager alone counts the file's pages and caches nothing.
    let mut pager = minidb::pager::Pager::new(Vec::new()).unwrap();
    assert_eq!(pager.get_page_count(), 0);
    assert!(pager.get_node(0).is_none());
    // the first touch of page 0 materializes the fresh root leaf.
    let root = pager.get_node_mut(0);
    assert!(root.is_root);
    assert_eq!(root.get_cell_count(), 0);
    assert_eq!(pager.get_page_count(), 1);
    // opening a table performs that touch itself.
    let table = open_fresh();
    assert_eq!(table.get_pager().get_page_count(), 1);
    assert!(table.get_pager().get_node(0).is_some());
}

fn open_err(image: Vec<u8>) -> DbError {
    match Table::open_db_connection(image) {
        Ok(_) => panic!("a corrupt image was accepted"),
        Err(e) => e,
    }
}

#[test]
fn test_open_rejects_corrupt_image() {
    // a misaligned image is refused.
    assert_eq!(open_err(vec![0u8; 100]), DbError::CorruptPage);
    // a whole page of an unknown node type is refused.
    let mut page = vec![0u8; 4096];
    page[0] = 9;
    assert_eq!(open_err(page), DbError::CorruptPage);
    // an oversized file is refused.
    assert_eq!(open_err(vec![0u8; 101 * 4096]), DbError::CapacityExceeded);
}
