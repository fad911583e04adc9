use store_map::address::{is_zero_ski_hex_address, ZERO_ADDR, ZERO_ADDR_SKI_HEX,
    ZERO_ADDR_WITH_PREFIX};
use store_map::codec::{decode_metadata, encode_metadata};
use store_map::map::{metadata_state_key, StoreMap, StoreMapError};
use store_map::store::{MemStore, StateStore, SUCCESS_CODE};

fn segs(parts: &[&str]) -> Vec<String> {
    parts.iter().map(|s| s.to_string()).collect()
}

#[test]
fn get_or_create_is_idempotent() {
    let mut st = MemStore::new();
    let m1 = StoreMap::new(&mut st, "acct", 2).unwrap();
    assert_eq!(m1.depth(), 2);
    assert_eq!(m1.name(), "acct");
    let m2 = StoreMap::new(&mut st, "acct", 7).unwrap();
    assert_eq!(m2.depth(), 2);
    assert_eq!(m2.name(), "acct");
}

#[test]
fn new_rejects_invalid_arguments() {
    let mut st = MemStore::new();
    assert_eq!(StoreMap::new(&mut st, "", 2).unwrap_err(), StoreMapError::ValidationError);
    assert_eq!(StoreMap::new(&mut st, "acct", 0).unwrap_err(), StoreMapError::ValidationError);
}

#[test]
fn set_get_round_trip() {
    let mut st = MemStore::new();
    let m = StoreMap::new(&mut st, "acct", 2).unwrap();
    m.set(&mut st, &segs(&["alice", "bal"]), b"100").unwrap();
    assert_eq!(m.get(&st, &segs(&["alice", "bal"])).unwrap(), b"100".to_vec());
    assert!(m.exist(&st, &segs(&["alice", "bal"])).unwrap());
    assert!(!m.exist(&st, &segs(&["bob", "bal"])).unwrap());
    assert_eq!(
        m.set(&mut st, &segs(&["alice"]), b"1").unwrap_err(),
        StoreMapError::ValidationError
    );
}

#[test]
fn delete_then_get_is_empty() {
    let mut st = MemStore::new();
    let m = StoreMap::new(&mut st, "acct", 2).unwrap();
    m.set(&mut st, &segs(&["alice", "bal"]), b"100").unwrap();
    m.del(&mut st, &segs(&["alice", "bal"])).unwrap();
    assert_eq!(m.get(&st, &segs(&["alice", "bal"])).unwrap(), Vec::<u8>::new());
    assert!(!m.exist(&st, &segs(&["alice", "bal"])).unwrap());
}

#[test]
fn invalid_keys_fail_every_operation_without_a_store_call() {
    let mut st = MemStore::new();
    let m = StoreMap::new(&mut st, "acct", 2).unwrap();
    let before = m.new_iterator_prefix_with_key(&st, &segs(&[])).unwrap().len();
    for bad in [segs(&["alice", ""]), segs(&["", "bal"]), segs(&["alice"]), segs(
        &["a", "b", "c"],
    )] {
        assert_eq!(m.get(&st, &bad).unwrap_err(), StoreMapError::ValidationError);
        assert_eq!(m.set(&mut st, &bad, b"1").unwrap_err(), StoreMapError::ValidationError);
        assert_eq!(m.del(&mut st, &bad).unwrap_err(), StoreMapError::ValidationError);
        assert_eq!(m.exist(&st, &bad).unwrap_err(), StoreMapError::ValidationError);
    }
    let after = m.new_iterator_prefix_with_key(&st, &segs(&[])).unwrap().len();
    assert_eq!(before, after);
}

#[test]
fn field_derivation_is_order_sensitive() {
    // "a" + "aa" and "aa" + "a" concatenate to the same storage key, so a
    // lookup with the swapped segments reaches the same stored row and can
    // only miss because the chained field hash differs.
    let mut st = MemStore::new();
    let m = StoreMap::new(&mut st, "acct", 2).unwrap();
    m.set(&mut st, &segs(&["a", "aa"]), b"1").unwrap();
    assert!(m.exist(&st, &segs(&["a", "aa"])).unwrap());
    assert!(!m.exist(&st, &segs(&["aa", "a"])).unwrap());
}

#[test]
fn prefix_iteration_yields_matching_entries_only() {
    let mut st = MemStore::new();
    let m = StoreMap::new(&mut st, "acct", 2).unwrap();
    m.set(&mut st, &segs(&["alice", "bal"]), b"100").unwrap();
    m.set(&mut st, &segs(&["bob", "bal"]), b"200").unwrap();
    let entries = m.new_iterator_prefix_with_key(&st, &segs(&["alice"])).unwrap();
    assert!(entries.iter().all(|e| e.key.starts_with("acctalice")));
    assert!(entries
        .iter()
        .any(|e| e.key == "acctalicebal" && e.value == b"100".to_vec()));
    assert!(!entries.iter().any(|e| e.value == b"200".to_vec()));
}

#[test]
fn corrupt_metadata_is_reported() {
    let mut st = MemStore::new();
    let key = metadata_state_key("m1");
    assert_eq!(st.put_state(&key, &String::new(), &[1, 2, 3]), SUCCESS_CODE);
    assert_eq!(StoreMap::new(&mut st, "m1", 2).unwrap_err(), StoreMapError::CorruptMetadata);

    // A record whose depth field decodes to zero is corrupt as well.
    let mut st2 = MemStore::new();
    let key2 = metadata_state_key("m2");
    let mut zero_depth = vec![0u8; 8];
    zero_depth.extend_from_slice(b"m2");
    assert_eq!(st2.put_state(&key2, &String::new(), &zero_depth), SUCCESS_CODE);
    assert_eq!(StoreMap::new(&mut st2, "m2", 2).unwrap_err(), StoreMapError::CorruptMetadata);
}

#[test]
fn metadata_record_is_persisted_once() {
    let mut st = MemStore::new();
    let _ = StoreMap::new(&mut st, "acct", 3).unwrap();
    let key = metadata_state_key("acct");
    let stored = st.get_state(&key, &String::new()).unwrap();
    assert_eq!(stored, encode_metadata("acct", 3));
    let _ = StoreMap::new(&mut st, "acct", 9).unwrap();
    let stored_again = st.get_state(&key, &String::new()).unwrap();
    assert_eq!(stored_again, encode_metadata("acct", 3));
}

#[test]
fn metadata_codec_round_trips() {
    let bytes = encode_metadata("acct", 2);
    assert_eq!(bytes.len(), 12);
    let (name, depth) = decode_metadata(&bytes).unwrap();
    assert_eq!(name, "acct");
    assert_eq!(depth, 2);

    let non_ascii = encode_metadata("комната", u64::MAX);
    let (name2, depth2) = decode_metadata(&non_ascii).unwrap();
    assert_eq!(name2, "комната");
    assert_eq!(depth2, u64::MAX);

    assert_eq!(decode_metadata(b""), None);
    assert_eq!(decode_metadata(&encode_metadata("x", 0)), None);
    assert_eq!(decode_metadata(&encode_metadata("", 5)), None);
    assert_eq!(decode_metadata(&[7u8; 8]), None);
    // Bytes that are not valid UTF-8 after the depth are rejected.
    let mut bad = encode_metadata("x", 5);
    bad.push(0xff);
    assert_eq!(decode_metadata(&bad), None);
}

#[test]
fn zero_address_predicates() {
    assert_eq!(ZERO_ADDR, "0000000000000000000000000000000000000000");
    assert_eq!(ZERO_ADDR_WITH_PREFIX, "0x0000000000000000000000000000000000000000");
    assert_eq!(ZERO_ADDR_SKI_HEX, "");
    assert!(is_zero_ski_hex_address(""));
    assert!(!is_zero_ski_hex_address(ZERO_ADDR));
    assert!(!is_zero_ski_hex_address("abc"));
}
