use binary_search_tree::BinarySearchTree;
use webscale::codec::read_row;
use webscale::domain::{create, insert, insert_rows, select, update_last_row_id, ColumnType};
use webscale::error::StoreError;
use webscale::index::{create_index, read_node_from_bytes, search_with_index, update_index};
use webscale::index_util::KeyValuePair;
use webscale::random::random;
use webscale::store::read_slot;
use webscale::utils::{load_table_data, to_column_schema, TableData};

fn people() -> TableData {
    let cols = vec![
        webscale::domain::ColumnDefinition {
            name: "_rowid".to_string(),
            column_type: ColumnType::INT,
            column_position: 0,
        },
        webscale::domain::ColumnDefinition {
            name: "name".to_string(),
            column_type: ColumnType::STRING,
            column_position: 1,
        },
        webscale::domain::ColumnDefinition {
            name: "age".to_string(),
            column_type: ColumnType::INT,
            column_position: 2,
        },
    ];
    load_table_data(&create(&cols)).unwrap()
}

fn people_rows() -> Vec<Vec<String>> {
    vec![
        vec!["alice".to_string(), "30".to_string()],
        vec!["bob".to_string(), "25".to_string()],
        vec!["carol".to_string(), "40".to_string()],
    ]
}

#[test]
fn insert_encodes_one_row() {
    let td = people();
    let row = insert(
        &td.schema,
        &vec!["bob".to_string(), "25".to_string()],
        7,
    )
    .unwrap();
    assert_eq!(row.len(), 34);
    let vals = read_row(&row, &td.schema).unwrap();
    assert_eq!(vals, vec!["7".to_string(), "bob".to_string(), "25".to_string()]);
}

#[test]
fn insert_reports_bad_values() {
    let td = people();
    assert_eq!(
        insert(&td.schema, &vec!["bob".to_string(), "notanum".to_string()], 0).unwrap_err(),
        StoreError::NotAnInteger
    );
    assert_eq!(
        insert(&td.schema, &vec!["much_too_long_name".to_string(), "25".to_string()], 0)
            .unwrap_err(),
        StoreError::ValueTooWide
    );
}

#[test]
fn insert_rows_assigns_consecutive_row_ids() {
    // row-id monotonicity: after a batch of k rows at last_row_id = -1, the
    // rows carry ids 0..k-1 and the new last row id is k-1
    let td = people();
    let (bytes, new_last) = insert_rows(&td, &people_rows()).unwrap();
    assert_eq!(new_last, 2);
    assert_eq!(bytes.len(), 3 * 34);
    for (i, expect) in ["alice", "bob", "carol"].iter().enumerate() {
        let row = read_slot(&bytes, i, 34).unwrap();
        let vals = read_row(&row, &td.schema).unwrap();
        assert_eq!(vals[0], i.to_string());
        assert_eq!(vals[1], *expect);
    }
    // persisting the new last row id keeps the schema and survives a reload
    let text = update_last_row_id(&create(&td.schema), new_last);
    let td2 = load_table_data(&text).unwrap();
    assert_eq!(td2.last_row_id, 2);
    let (_more, newer) = insert_rows(&td2, &people_rows()).unwrap();
    assert_eq!(newer, 5);
}

#[test]
fn select_filters_by_decoded_value() {
    let td = people();
    let (data, _) = insert_rows(&td, &people_rows()).unwrap();
    let rows = select(&data, &td, "age", "25").unwrap();
    assert_eq!(rows.len(), 1);
    assert_eq!(rows[0], vec!["1".to_string(), "bob".to_string(), "25".to_string()]);
    let none = select(&data, &td, "name", "dave").unwrap();
    assert_eq!(none.len(), 0);
    let two_input = vec![
        vec!["dana".to_string(), "25".to_string()],
        vec!["erin".to_string(), "25".to_string()],
    ];
    let (data2, _) = insert_rows(&td, &two_input).unwrap();
    let both = select(&data2, &td, "age", "25").unwrap();
    assert_eq!(both.len(), 2);
}

#[test]
fn select_rowid_fast_path_reads_one_slot() {
    let td = people();
    let (data, _) = insert_rows(&td, &people_rows()).unwrap();
    let rows = select(&data, &td, "_rowid", "2").unwrap();
    assert_eq!(rows.len(), 1);
    assert_eq!(rows[0][1], "carol");
    assert_eq!(select(&data, &td, "_rowid", "9").unwrap_err(), StoreError::SlotOutOfRange);
    assert_eq!(select(&data, &td, "_rowid", "x").unwrap_err(), StoreError::NotAnInteger);
}

#[test]
fn select_unknown_column() {
    let td = people();
    let (data, _) = insert_rows(&td, &people_rows()).unwrap();
    assert_eq!(select(&data, &td, "salary", "1").unwrap_err(), StoreError::UnknownColumn);
}

#[test]
fn indexed_lookup_returns_the_matching_row() {
    // the end-to-end scenario: index the age column, then look carol up by age
    let td = people();
    let (data, _) = insert_rows(&td, &people_rows()).unwrap();
    let age = to_column_schema("age", &td.schema).unwrap();
    let index = create_index(&data, &td, &age).unwrap();
    // three entries, no padding: 3 records of 25 bytes
    assert_eq!(index.len(), 75);
    let slot = search_with_index(&index, "40").unwrap();
    assert_eq!(slot, 2);
    let row = read_slot(&data, slot, td.row_size).unwrap();
    let vals = read_row(&row, &td.schema).unwrap();
    assert_eq!(vals, vec!["2".to_string(), "carol".to_string(), "40".to_string()]);
    assert_eq!(search_with_index(&index, "25").unwrap(), 1);
    assert_eq!(search_with_index(&index, "30").unwrap(), 0);
}

#[test]
fn index_serialization_is_level_order_records() {
    let td = people();
    let (data, _) = insert_rows(&td, &people_rows()).unwrap();
    let age = to_column_schema("age", &td.schema).unwrap();
    let index = create_index(&data, &td, &age).unwrap();
    // tree: "30" at the root, "25" left, "40" right
    let mut expect = Vec::new();
    expect.extend(b"0000000000000030000000000".to_vec());
    expect.extend(b"0000000000000025000000001".to_vec());
    expect.extend(b"0000000000000040000000002".to_vec());
    assert_eq!(index, expect);
}

#[test]
fn index_pads_even_node_counts() {
    let td = people();
    let two = vec![
        vec!["alice".to_string(), "30".to_string()],
        vec!["bob".to_string(), "25".to_string()],
    ];
    let (data, _) = insert_rows(&td, &two).unwrap();
    let age = to_column_schema("age", &td.schema).unwrap();
    let index = create_index(&data, &td, &age).unwrap();
    // two real entries plus the empty-keyed placeholder keep the count odd
    assert_eq!(index.len(), 75);
    assert_eq!(search_with_index(&index, "25").unwrap(), 1);
    assert_eq!(search_with_index(&index, "30").unwrap(), 0);
}

#[test]
fn skewed_index_runs_off_the_file() {
    // ascending inserts build a right chain, which level-order addressing
    // cannot navigate past the second level: the lookup fails fast
    let td = people();
    let (data, _) = insert_rows(&td, &people_rows()).unwrap();
    let name = to_column_schema("name", &td.schema).unwrap();
    let index = create_index(&data, &td, &name).unwrap();
    assert_eq!(search_with_index(&index, "alice").unwrap(), 0);
    assert_eq!(search_with_index(&index, "bob").unwrap_err(), StoreError::IndexLookupFailed);
}

#[test]
fn search_reports_malformed_slots() {
    let mut index = Vec::new();
    index.extend(b"00000000000000300000000zz".to_vec());
    assert_eq!(search_with_index(&index, "30").unwrap_err(), StoreError::MalformedField);
    let empty: Vec<u8> = Vec::new();
    assert_eq!(search_with_index(&empty, "30").unwrap_err(), StoreError::IndexLookupFailed);
}

#[test]
fn update_index_rebuilds_flagged_columns() {
    let td = people();
    let (data, _) = insert_rows(&td, &people_rows()).unwrap();
    let flags = vec![false, false, true];
    let out = update_index(&data, &td, &flags).unwrap();
    assert!(out[0].is_none());
    assert!(out[1].is_none());
    let age = to_column_schema("age", &td.schema).unwrap();
    assert_eq!(out[2].as_ref().unwrap(), &create_index(&data, &td, &age).unwrap());
}

#[test]
fn read_node_round_trip() {
    let rec = b"0000000000000030000000002".to_vec();
    let node = read_node_from_bytes(&rec, 16).unwrap();
    assert_eq!(node.value, "30");
    assert_eq!(node.position, 2);
    let bad = b"0000000000000030woopsie12".to_vec();
    assert_eq!(read_node_from_bytes(&bad, 16).unwrap_err(), StoreError::MalformedField);
}

#[test]
fn key_value_pair_new() {
    let kv = KeyValuePair::new("k".to_string(), 4);
    assert_eq!(kv.key, "k");
    assert_eq!(kv.value, 4);
}

#[test]
fn level_order_of_the_outside_tree_is_breadth_first() {
    // the layout create_index relies on: root first, then each level left
    // to right
    let mut tree: BinarySearchTree<KeyValuePair> = BinarySearchTree::new();
    tree.insert(KeyValuePair::new("m".to_string(), 0));
    tree.insert(KeyValuePair::new("f".to_string(), 1));
    tree.insert(KeyValuePair::new("x".to_string(), 2));
    tree.insert(KeyValuePair::new("a".to_string(), 3));
    let order: Vec<String> = tree.level_order().map(|kv| kv.key.clone()).collect();
    assert_eq!(order, vec!["m", "f", "x", "a"]);
    assert_eq!(tree.size, 4);
}

#[test]
fn random_rows_decode_under_the_schema() {
    let td = people();
    let (bytes, new_last) = random(&td, 3);
    assert_eq!(new_last, 2);
    assert_eq!(bytes.len(), 3 * 34);
    for i in 0..3usize {
        let row = read_slot(&bytes, i, td.row_size).unwrap();
        let vals = read_row(&row, &td.schema).unwrap();
        assert_eq!(vals[0], i.to_string());
        assert_eq!(vals[1].len(), 8);
        assert!(vals[2].parse::<u32>().unwrap() <= 65535);
    }
}

#[test]
fn zero_keys_vanish_into_the_padding() {
    // the record format left-pads keys with zero digits, so a decoded value
    // of "0" strips back to an empty key and can never be matched
    let td = people();
    let one = vec![vec!["zed".to_string(), "0".to_string()]];
    let (data, _) = insert_rows(&td, &one).unwrap();
    let age = to_column_schema("age", &td.schema).unwrap();
    let index = create_index(&data, &td, &age).unwrap();
    assert!(search_with_index(&index, "0").is_err());
}
