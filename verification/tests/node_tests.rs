use minidb::node::{Node, NodeType};
use minidb::row::Row;

#[test]
fn test_node() {
    let mut node = Node::new_leaf();
    let key: usize = 1;
    let value = Row::new(1, "test".to_string(), "test".to_string()).serialize().unwrap();
    node.insert_key_value(key, &value, 0);
    let serialized = node.serialize();
    let deserialized = Node::deserialize(&serialized).unwrap();
    assert_eq!(deserialized.node_type, NodeType::Leaf);
    assert_eq!(deserialized.is_root, false);
    assert_eq!(deserialized.parent_page_num, 0);
    assert_eq!(deserialized.get_cell_count(), 1);
}

#[test]
fn test_node_insert() {
    let mut node = Node::new_leaf();
    let key: usize = 1;
    let value = Row::new(1, "test".to_string(), "test".to_string()).serialize().unwrap();
    node.insert_key_value(key, &value, 0);
    assert_eq!(node.get_cell_count(), 1);
    assert_eq!(node.get_key(0), key);
    assert_eq!(node.get_value(0), value);
}

#[test]
fn test_node_deserialize() {
    let mut node = Node::new_leaf();
    let key: usize = 1;
    let value = Row::new(1, "test".to_string(), "test".to_string()).serialize().unwrap();
    node.insert_key_value(key, &value, 0);
    let serialized = node.serialize();
    let deserialized = Node::deserialize(&serialized).unwrap();
    assert_eq!(deserialized.node_type, NodeType::Leaf);
    assert_eq!(deserialized.is_root, false);
    assert_eq!(deserialized.parent_page_num, 0);
    assert_eq!(deserialized.get_cell_count(), 1);
}

#[test]
fn test_internal_node_round_trip() {
    let mut node = Node::new_internal();
    node.set_is_root(true);
    node.set_parent_page_num(0);
    node.set_right_child_key(1);
    node.internal_node_insert(7, 2);
    let serialized = node.serialize();
    assert_eq!(serialized.len(), 4096);
    let deserialized = Node::deserialize(&serialized).unwrap();
    assert_eq!(deserialized.node_type, NodeType::Internal);
    assert_eq!(deserialized.is_root, true);
    assert_eq!(deserialized.parent_page_num, 0);
    assert_eq!(deserialized.get_key_count(), 1);
    assert_eq!(deserialized.get_internal_key(0), 7);
    assert_eq!(deserialized.internal_get_value(0), 2);
    assert_eq!(deserialized.right_child_key, 1);
}

#[test]
fn test_leaf_node_round_trip_bitwise() {
    let mut node = Node::new_leaf();
    let value = Row::new(3, "ada".to_string(), "a@b".to_string()).serialize().unwrap();
    node.insert_key_value(3, &value, 0);
    node.set_next_leaf_num(5);
    let serialized = node.serialize();
    let deserialized = Node::deserialize(&serialized).unwrap();
    assert_eq!(deserialized.get_next_leaf_num(), 5);
    assert_eq!(deserialized.get_key(0), 3);
    assert_eq!(deserialized.get_value(0), value);
    // re-serializing yields the identical page.
    assert_eq!(deserialized.serialize(), serialized);
}

#[test]
fn test_corrupt_page_rejected() {
    // an unknown node-type byte is corruption.
    let mut page = vec![0u8; 4096];
    page[0] = 7;
    assert!(matches!(
        Node::deserialize(&page),
        Err(minidb::errors::DbError::CorruptPage)
    ));
    // a short buffer is corruption too.
    let short = vec![0u8; 100];
    assert!(matches!(
        Node::deserialize(&short),
        Err(minidb::errors::DbError::CorruptPage)
    ));
    // an oversized cell count is corruption.
    let mut bad_count = vec![0u8; 4096];
    bad_count[10] = 200;
    assert!(matches!(
        Node::deserialize(&bad_count),
        Err(minidb::errors::DbError::CorruptPage)
    ));
}

#[test]
fn test_leaf_find_cell() {
    let mut node = Node::new_leaf();
    for (i, key) in [2usize, 4, 6].iter().enumerate() {
        let value = Row::new(*key as u32, "u".to_string(), "e".to_string())
            .serialize()
            .unwrap();
        node.insert_key_value(*key, &value, i);
    }
    assert_eq!(node.leaf_get_index_by_key(4), Some(1));
    assert_eq!(node.leaf_get_index_by_key(5), None);
    assert_eq!(node.get_node_max_key(), 6);
}

#[test]
fn test_internal_find_child() {
    let mut node = Node::new_internal();
    node.internal_node_insert(10, 1);
    node.internal_node_insert(20, 2);
    node.set_right_child_key(3);
    // the first routing key at or above the key names the child.
    assert_eq!(node.internal_find_child_index_by_key(5), 0);
    assert_eq!(node.internal_find_child_index_by_key(10), 0);
    assert_eq!(node.internal_find_child_index_by_key(11), 1);
    assert_eq!(node.internal_find_child_index_by_key(21), 2);
    assert_eq!(node.internal_node_children(0), 1);
    assert_eq!(node.internal_node_children(1), 2);
    assert_eq!(node.internal_node_children(2), 3);
}
