use webscale::domain::{create, update_last_row_id, ColumnDefinition, ColumnType};
use webscale::error::StoreError;
use webscale::utils::{
    column_size, load_table_data, to_column_schema, to_column_type, to_string,
};

fn people_columns() -> Vec<ColumnDefinition> {
    vec![
        ColumnDefinition {
            name: "_rowid".to_string(),
            column_type: ColumnType::INT,
            column_position: 0,
        },
        ColumnDefinition {
            name: "name".to_string(),
            column_type: ColumnType::STRING,
            column_position: 1,
        },
        ColumnDefinition {
            name: "age".to_string(),
            column_type: ColumnType::INT,
            column_position: 2,
        },
    ]
}

#[test]
fn create_renders_schema_record() {
    let text = create(&people_columns());
    assert_eq!(text, "-1\n34\n_rowid int\nname string\nage int\n");
}

#[test]
fn load_round_trips_created_schema() {
    let td = load_table_data(&create(&people_columns())).unwrap();
    assert_eq!(td.last_row_id, -1);
    assert_eq!(td.row_size, 34);
    assert_eq!(td.schema.len(), 3);
    assert_eq!(td.schema[0].name, "_rowid");
    assert!(matches!(td.schema[0].column_type, ColumnType::INT));
    assert_eq!(td.schema[0].column_position, 0);
    assert_eq!(td.schema[1].name, "name");
    assert!(matches!(td.schema[1].column_type, ColumnType::STRING));
    assert_eq!(td.schema[1].column_position, 1);
    assert_eq!(td.schema[2].name, "age");
    assert_eq!(td.schema[2].column_position, 2);
}

#[test]
fn load_rejects_corrupt_records() {
    assert_eq!(load_table_data("x").unwrap_err(), StoreError::SchemaCorrupt);
    assert_eq!(load_table_data("").unwrap_err(), StoreError::SchemaCorrupt);
    // too few lines
    assert_eq!(load_table_data("-1\n9\n").unwrap_err(), StoreError::SchemaCorrupt);
    // bad last row id
    assert_eq!(load_table_data("x\n9\na int\n").unwrap_err(), StoreError::SchemaCorrupt);
    // bad width number
    assert_eq!(load_table_data("-1\nx\na int\n").unwrap_err(), StoreError::SchemaCorrupt);
    // unknown type token
    assert_eq!(load_table_data("-1\n9\na float\n").unwrap_err(), StoreError::SchemaCorrupt);
    // wrong field count on a column line
    assert_eq!(load_table_data("-1\n9\na\n").unwrap_err(), StoreError::SchemaCorrupt);
    assert_eq!(load_table_data("-1\n9\na int extra\n").unwrap_err(), StoreError::SchemaCorrupt);
    // declared width disagrees with the columns
    assert_eq!(load_table_data("-1\n10\na int\n").unwrap_err(), StoreError::SchemaCorrupt);
}

#[test]
fn update_last_row_id_rewrites_first_line() {
    let text = create(&people_columns());
    let updated = update_last_row_id(&text, 5);
    assert_eq!(updated, "5\n34\n_rowid int\nname string\nage int\n");
    let td = load_table_data(&updated).unwrap();
    assert_eq!(td.last_row_id, 5);
    assert_eq!(td.row_size, 34);
    assert_eq!(td.schema.len(), 3);
}

#[test]
fn resolve_column_by_name() {
    let cols = people_columns();
    let c = to_column_schema("age", &cols).unwrap();
    assert_eq!(c.name, "age");
    assert_eq!(c.column_position, 2);
    assert!(matches!(c.column_type, ColumnType::INT));
    assert_eq!(to_column_schema("salary", &cols).unwrap_err(), StoreError::UnknownColumn);
}

#[test]
fn column_helpers() {
    let cols = people_columns();
    assert_eq!(column_size(&cols[0]), 9);
    assert_eq!(column_size(&cols[1]), 16);
    assert_eq!(to_string(ColumnType::INT), "int");
    assert_eq!(to_string(ColumnType::STRING), "string");
    assert!(matches!(to_column_type("int").unwrap(), ColumnType::INT));
    assert!(matches!(to_column_type("string").unwrap(), ColumnType::STRING));
    assert_eq!(to_column_type("float").unwrap_err(), StoreError::SchemaCorrupt);
}
