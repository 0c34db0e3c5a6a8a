use minidb::cursor::Cursor;
use minidb::row::Row;
use minidb::table::Table;

#[test]
fn test_cursor() {
    let mut table = Table::open_db_connection(Vec::new()).unwrap();
    let row = Row::new(1, "test".to_string(), "test".to_string());
    table.insert(0, 0, &row).unwrap();
    table.flush().unwrap();

    let mut cursor = Cursor::table_start(&mut table);
    assert_eq!(cursor.get_page_num(), 0);
    assert_eq!(cursor.is_end_of_table(), false);
    cursor.advance(&mut table);
    assert_eq!(cursor.is_end_of_table(), true);

    let mut cursor = Cursor::table_end(&mut table);
    assert_eq!(cursor.get_page_num(), 0);
    assert_eq!(cursor.is_end_of_table(), true);
    cursor.advance(&mut table);
    assert_eq!(cursor.is_end_of_table(), true);
}

#[test]
fn test_find_positions() {
    let mut table = Table::open_db_connection(Vec::new()).unwrap();
    for (cell, id) in [2u32, 4, 6].iter().enumerate() {
        let row = Row::new(*id, "u".to_string(), "e".to_string());
        table.insert(0, cell, &row).unwrap();
    }
    // a present key lands on its cell.
    let cursor = Cursor::table_find(&mut table, 4);
    assert_eq!(cursor.get_page_num(), 0);
    assert_eq!(cursor.get_cell_num(), 1);
    assert_eq!(cursor.is_end_of_table(), false);
    // an absent key lands on its insertion position.
    let cursor = Cursor::table_find(&mut table, 5);
    assert_eq!(cursor.get_cell_num(), 2);
    // a key past every row sits one past the last cell.
    let cursor = Cursor::table_find(&mut table, 9);
    assert_eq!(cursor.get_cell_num(), 3);
    assert_eq!(cursor.is_end_of_table(), true);
}

#[test]
fn test_cursor_walks_leaf_chain() {
    let mut table = Table::open_db_connection(Vec::new()).unwrap();
    for id in 1..=5u32 {
        let row = Row::new(id, "u".to_string(), "e".to_string());
        let cursor = Cursor::table_find(&mut table, id as usize);
        cursor.insert(&mut table, &row).unwrap();
    }
    // the tree now spans several leaves; a forward walk crosses them.
    let mut cursor = Cursor::table_start(&mut table);
    let mut seen: Vec<u32> = Vec::new();
    let mut pages: Vec<usize> = Vec::new();
    while !cursor.is_end_of_table() {
        pages.push(cursor.get_page_num());
        let bytes = cursor.select(&mut table);
        seen.push(Row::deserialize(&bytes).unwrap().get_id());
        cursor.advance(&mut table);
    }
    assert_eq!(seen, vec![1, 2, 3, 4, 5]);
    let mut distinct = pages.clone();
    distinct.dedup();
    assert!(distinct.len() >= 2);
}
