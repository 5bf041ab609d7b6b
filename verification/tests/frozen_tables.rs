use tokencount::builder::{build_frozen_map, build_frozen_set, parse_tiktoken, parse_u32_dec};
use tokencount::frozen::{
    fnv_hash, fnv_hash_concat, fnv_hash_pair, frozen_map_byte_len, frozen_map_get,
    frozen_map_get_concat, frozen_map_get_pair, frozen_set_byte_len, frozen_set_contains,
    read_u16, read_u32, read_u64,
};

fn entries(list: &[(&[u8], u32)]) -> Vec<(Vec<u8>, u32)> {
    list.iter().map(|(k, v)| (k.to_vec(), *v)).collect()
}

#[test]
fn map_roundtrip_basic() {
    let blob = build_frozen_map(&entries(&[(b"ab", 0), (b"cd", 1), (b"abcd", 2)]));
    assert_eq!(frozen_map_get(&blob, b"ab"), Some(0));
    assert_eq!(frozen_map_get(&blob, b"cd"), Some(1));
    assert_eq!(frozen_map_get(&blob, b"abcd"), Some(2));
    assert_eq!(frozen_map_get(&blob, b"ef"), None);
    assert_eq!(frozen_map_get(&blob, b""), None);
}

#[test]
fn map_concat_and_pair_forms() {
    let blob = build_frozen_map(&entries(&[(b"ab", 0), (b"cd", 1), (b"abcd", 2)]));
    assert_eq!(frozen_map_get_concat(&blob, b"ab", b"cd"), Some(2));
    assert_eq!(frozen_map_get_pair(&blob, b"ab", b"cd"), None);
    assert_eq!(frozen_map_get(&blob, b"ef"), None);
}

#[test]
fn map_pair_lookup_uses_nul_separator() {
    let blob = build_frozen_map(&entries(&[(b"a\x00b", 7)]));
    assert_eq!(frozen_map_get_pair(&blob, b"a", b"b"), Some(7));
    assert_eq!(frozen_map_get_concat(&blob, b"a", b"b"), None);
}

#[test]
fn set_membership() {
    let keys: Vec<Vec<u8>> = vec![b"x".to_vec(), b"yz".to_vec()];
    let blob = build_frozen_set(&keys);
    assert!(frozen_set_contains(&blob, b"x"));
    assert!(frozen_set_contains(&blob, b"yz"));
    assert!(!frozen_set_contains(&blob, b"y"));
    assert!(!frozen_set_contains(&blob, b""));
}

#[test]
fn byte_len_matches_blob_len() {
    let map = build_frozen_map(&entries(&[(b"k", 9)]));
    assert_eq!(frozen_map_byte_len(&map), map.len());
    let keys: Vec<Vec<u8>> = vec![b"k".to_vec()];
    let set = build_frozen_set(&keys);
    assert_eq!(frozen_set_byte_len(&set), set.len());
}

#[test]
fn empty_map_misses_everything() {
    let blob = build_frozen_map(&entries(&[]));
    assert_eq!(frozen_map_get(&blob, b"anything"), None);
    assert_eq!(frozen_map_get_concat(&blob, b"a", b"b"), None);
}

#[test]
fn map_roundtrip_many_keys() {
    let mut list: Vec<(Vec<u8>, u32)> = Vec::new();
    for i in 0..200u32 {
        list.push((format!("key-{i}").into_bytes(), i * 3));
    }
    let blob = build_frozen_map(&list);
    for i in 0..200u32 {
        let key = format!("key-{i}").into_bytes();
        assert_eq!(frozen_map_get(&blob, &key), Some(i * 3));
    }
    assert_eq!(frozen_map_get(&blob, b"key-200"), None);
}

#[test]
fn fnv_hash_is_odd_and_composes() {
    let h = fnv_hash(b"hello");
    assert_ne!(h, 0);
    assert_eq!(h & 1, 1);
    assert_eq!(fnv_hash_concat(b"he", b"llo"), fnv_hash(b"hello"));
    assert_eq!(fnv_hash_pair(b"he", b"llo"), fnv_hash(b"he\x00llo"));
}

#[test]
fn little_endian_readers() {
    let data: Vec<u8> = vec![0x01, 0x02, 0x03, 0x04, 0x05, 0x06, 0x07, 0x08];
    assert_eq!(read_u16(&data, 0), 0x0201);
    assert_eq!(read_u32(&data, 0), 0x0403_0201);
    assert_eq!(read_u64(&data, 0), 0x0807_0605_0403_0201);
    assert_eq!(read_u16(&data, 6), 0x0807);
}

#[test]
fn tiktoken_file_parsing() {
    let entries = parse_tiktoken("YWI= 0\nY2Q= 1\n\n  not-base64!! x\n");
    assert_eq!(entries.len(), 2);
    assert_eq!(entries[0].0, b"ab".to_vec());
    assert_eq!(entries[0].1, 0);
    assert_eq!(entries[1].0, b"cd".to_vec());
    assert_eq!(entries[1].1, 1);
    let blob = build_frozen_map(&entries);
    assert_eq!(frozen_map_get(&blob, b"ab"), Some(0));
    assert_eq!(frozen_map_get(&blob, b"cd"), Some(1));
}

#[test]
fn decimal_parsing() {
    let digits: Vec<char> = "123".chars().collect();
    assert_eq!(parse_u32_dec(&digits), Some(123));
    let mixed: Vec<char> = "12a".chars().collect();
    assert_eq!(parse_u32_dec(&mixed), None);
    let empty: Vec<char> = Vec::new();
    assert_eq!(parse_u32_dec(&empty), None);
    let max: Vec<char> = "4294967295".chars().collect();
    assert_eq!(parse_u32_dec(&max), Some(u32::MAX));
    let over: Vec<char> = "4294967296".chars().collect();
    assert_eq!(parse_u32_dec(&over), None);
}
