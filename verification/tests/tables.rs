use flate2::write::GzEncoder;
use flate2::Compression;
use fraud_api::input::decode_input;
use fraud_api::lookups::{parse_id, risk_table, Labels};
use std::io::Write;

#[test]
fn ids_are_numbered_behind_their_prefix() {
    assert_eq!(parse_id(b"tx-123"), Some(123));
    assert_eq!(parse_id(b"tx-0007"), Some(7));
    assert_eq!(parse_id(b"tx-+7"), Some(7));
    assert_eq!(parse_id(b"tx-4294967295"), Some(u32::MAX));
    assert_eq!(parse_id(b"tx-4294967296"), None);
    assert_eq!(parse_id(b"tx-"), None);
    assert_eq!(parse_id(b"tx-+"), None);
    assert_eq!(parse_id(b"tx--7"), None);
    assert_eq!(parse_id(b"tx-1a"), None);
    assert_eq!(parse_id(b"TX-1"), None);
    assert_eq!(parse_id(b"1"), None);
    assert_eq!(parse_id(b""), None);
}

fn labels(entries: &[(&str, bool)]) -> Labels {
    let ids: Vec<Vec<u8>> = entries.iter().map(|e| e.0.as_bytes().to_vec()).collect();
    let approved: Vec<bool> = entries.iter().map(|e| e.1).collect();
    Labels::new(&ids, &approved)
}

#[test]
fn labels_are_sorted_and_others_left_out() {
    let l = labels(&[("tx-9", true), ("x", true), ("tx-3", false), ("tx-5", true)]);
    assert_eq!(l.entries, vec![(3, false), (5, true), (9, true)]);
}

#[test]
fn labels_with_one_number_keep_their_order() {
    let l = labels(&[("tx-2", true), ("tx-1", true), ("tx-02", false)]);
    assert_eq!(l.entries, vec![(1, true), (2, true), (2, false)]);
}

#[test]
fn labels_are_found_by_name() {
    let l = labels(&[("tx-9", true), ("tx-3", false), ("tx-5", true), ("tx-7", false)]);
    assert_eq!(l.lookup(b"tx-3"), Some(false));
    assert_eq!(l.lookup(b"tx-5"), Some(true));
    assert_eq!(l.lookup(b"tx-07"), Some(false));
    assert_eq!(l.lookup(b"tx-9"), Some(true));
    assert_eq!(l.lookup(b"tx-4"), None);
    assert_eq!(l.lookup(b"tx-10"), None);
    assert_eq!(l.lookup(b"merc-3"), None);
    assert_eq!(labels(&[]).lookup(b"tx-3"), None);
}

#[test]
fn risks_are_listed_by_kind() {
    let codes = vec![b"5411".to_vec(), b"0".to_vec(), b"65535".to_vec(), b"05411".to_vec()];
    let risks = vec![0.15f32.to_bits(), 0.2f32.to_bits(), 0.3f32.to_bits(), 0.85f32.to_bits()];
    let table = risk_table(&codes, &risks).unwrap();
    assert_eq!(table.len(), 65536);
    assert_eq!(f32::from_bits(table[5411]), 0.85);
    assert_eq!(f32::from_bits(table[0]), 0.2);
    assert_eq!(f32::from_bits(table[65535]), 0.3);
    assert_eq!(f32::from_bits(table[1]), 0.5);
}

#[test]
fn a_kind_that_is_no_number_spoils_the_table() {
    assert!(risk_table(&vec![b"65536".to_vec()], &vec![0]).is_none());
    assert!(risk_table(&vec![b"x".to_vec()], &vec![0]).is_none());
    assert!(risk_table(&vec![b"".to_vec()], &vec![0]).is_none());
}

#[test]
fn plain_input_is_left_as_it_is() {
    assert_eq!(decode_input(b"[1, 2]"), Some(b"[1, 2]".to_vec()));
    assert_eq!(decode_input(b""), Some(vec![]));
    assert_eq!(decode_input(&[0x1f]), Some(vec![0x1f]));
}

#[test]
fn compressed_input_is_decompressed() {
    let mut encoder = GzEncoder::new(Vec::new(), Compression::default());
    encoder.write_all(b"[{\"label\":\"fraud\"}]").unwrap();
    let packed = encoder.finish().unwrap();
    assert_eq!(&packed[..2], &[0x1f, 0x8b]);
    assert_eq!(decode_input(&packed), Some(b"[{\"label\":\"fraud\"}]".to_vec()));
}

#[test]
fn damaged_input_has_no_result() {
    assert_eq!(decode_input(&[0x1f, 0x8b, 0, 0]), None);
}
