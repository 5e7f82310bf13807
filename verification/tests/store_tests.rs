use webscale::error::StoreError;
use webscale::store::{append, read_slot, scan};

#[test]
fn scan_partitions_into_rows() {
    let data: Vec<u8> = b"aaabbbccc".to_vec();
    let rows = scan(&data, 3);
    assert_eq!(rows, vec![b"aaa".to_vec(), b"bbb".to_vec(), b"ccc".to_vec()]);
}

#[test]
fn scan_drops_trailing_partial_row() {
    let data: Vec<u8> = b"aaabbbcc".to_vec();
    let rows = scan(&data, 3);
    assert_eq!(rows, vec![b"aaa".to_vec(), b"bbb".to_vec()]);
}

#[test]
fn read_slot_returns_the_addressed_row() {
    let data: Vec<u8> = b"aaabbbccc".to_vec();
    assert_eq!(read_slot(&data, 0, 3).unwrap(), b"aaa".to_vec());
    assert_eq!(read_slot(&data, 2, 3).unwrap(), b"ccc".to_vec());
    assert_eq!(read_slot(&data, 3, 3).unwrap_err(), StoreError::SlotOutOfRange);
}

#[test]
fn scan_and_read_slot_agree() {
    // scan/slot consistency on concrete data, for every valid slot
    let data: Vec<u8> = b"aaabbbcccdd".to_vec();
    let rows = scan(&data, 3);
    for (i, row) in rows.iter().enumerate() {
        assert_eq!(read_slot(&data, i, 3).unwrap(), *row);
    }
}

#[test]
fn append_grows_by_the_row() {
    let mut data: Vec<u8> = b"aaa".to_vec();
    let row = b"bbb".to_vec();
    append(&mut data, &row);
    assert_eq!(data, b"aaabbb".to_vec());
}
