use webscale::codec::{convert_bytes_to_column, encode, read_row};
use webscale::domain::{ColumnDefinition, ColumnType};
use webscale::error::StoreError;

fn int_col(name: &str, pos: u8) -> ColumnDefinition {
    ColumnDefinition { name: name.to_string(), column_type: ColumnType::INT, column_position: pos }
}

fn str_col(name: &str, pos: u8) -> ColumnDefinition {
    ColumnDefinition {
        name: name.to_string(),
        column_type: ColumnType::STRING,
        column_position: pos,
    }
}

#[test]
fn encode_int_exact() {
    let f = encode("30", &int_col("age", 0)).unwrap();
    assert_eq!(f, b"00000001e".to_vec());
}

#[test]
fn encode_int_negative_exact() {
    let f = encode("-1", &int_col("age", 0)).unwrap();
    assert_eq!(f, b"-00000001".to_vec());
}

#[test]
fn encode_int_zero() {
    let f = encode("0", &int_col("age", 0)).unwrap();
    assert_eq!(f, b"000000000".to_vec());
}

#[test]
fn encode_string_exact() {
    let f = encode("alice", &str_col("name", 0)).unwrap();
    assert_eq!(f, b"000000616c696365".to_vec());
}

#[test]
fn encode_int_not_an_integer() {
    assert_eq!(encode("abc", &int_col("age", 0)), Err(StoreError::NotAnInteger));
    assert_eq!(encode("", &int_col("age", 0)), Err(StoreError::NotAnInteger));
    assert_eq!(encode("1x", &int_col("age", 0)), Err(StoreError::NotAnInteger));
    assert_eq!(
        encode("99999999999999999999999", &int_col("age", 0)),
        Err(StoreError::NotAnInteger)
    );
}

#[test]
fn encode_int_too_wide() {
    // 16^9 needs ten base-16 digits.
    assert_eq!(encode("68719476736", &int_col("age", 0)), Err(StoreError::ValueTooWide));
    assert_eq!(encode("68719476735", &int_col("age", 0)).unwrap(), b"fffffffff".to_vec());
    // a negative magnitude has only eight digits left after the sign
    assert_eq!(encode("-4294967296", &int_col("age", 0)), Err(StoreError::ValueTooWide));
}

#[test]
fn encode_string_too_wide() {
    assert_eq!(encode("ninechars", &str_col("name", 0)), Err(StoreError::ValueTooWide));
    assert!(encode("eight_ch", &str_col("name", 0)).is_ok());
}

#[test]
fn decode_int_exact() {
    let v = convert_bytes_to_column(b"00000001e", &int_col("age", 0)).unwrap();
    assert_eq!(v, "30");
    let v = convert_bytes_to_column(b"-00000001", &int_col("age", 0)).unwrap();
    assert_eq!(v, "-1");
    // uppercase digits are accepted
    let v = convert_bytes_to_column(b"00000001E", &int_col("age", 0)).unwrap();
    assert_eq!(v, "30");
}

#[test]
fn decode_string_exact() {
    let v = convert_bytes_to_column(b"000000616c696365", &str_col("name", 0)).unwrap();
    assert_eq!(v, "alice");
}

#[test]
fn decode_malformed() {
    assert_eq!(
        convert_bytes_to_column(b"0000000zz", &int_col("age", 0)),
        Err(StoreError::MalformedField)
    );
    assert_eq!(
        convert_bytes_to_column(b"00000001", &int_col("age", 0)),
        Err(StoreError::MalformedField)
    );
    assert_eq!(
        convert_bytes_to_column(b"00000000000000zz", &str_col("name", 0)),
        Err(StoreError::MalformedField)
    );
    // hex decodes to the lone byte 0xff, which is not valid UTF-8
    assert_eq!(
        convert_bytes_to_column(b"00000000000000ff", &str_col("name", 0)),
        Err(StoreError::MalformedField)
    );
}

#[test]
fn codec_round_trips() {
    let ic = int_col("age", 0);
    let sc = str_col("name", 0);
    for v in ["0", "1", "30", "65535", "-1", "-4294967295", "68719476735"] {
        let f = encode(v, &ic).unwrap();
        assert_eq!(convert_bytes_to_column(&f, &ic).unwrap(), v);
    }
    for v in ["", "a", "alice", "carol", "12345678", "héllo"] {
        let f = encode(v, &sc).unwrap();
        assert_eq!(convert_bytes_to_column(&f, &sc).unwrap(), v);
    }
}

#[test]
fn read_row_decodes_all_columns() {
    let schema = vec![int_col("_rowid", 0), str_col("name", 1), int_col("age", 2)];
    let mut row = encode("7", &schema[0]).unwrap();
    row.extend(encode("bob", &schema[1]).unwrap());
    row.extend(encode("25", &schema[2]).unwrap());
    assert_eq!(row.len(), 34);
    let vals = read_row(&row, &schema).unwrap();
    assert_eq!(vals, vec!["7".to_string(), "bob".to_string(), "25".to_string()]);
}
