use seriesdb::codec::{
    build_head_anchor, build_id_to_name_table_inner_key, build_info_table_inner_key,
    build_inner_key, build_name_to_id_table_inner_key, build_tail_anchor, build_timestamped_value,
    extract_key, extract_table_id, extract_timestamp, extract_value, u32_to_u8a4, u8a4_to_u32,
    u8s_to_u32, u8s_to_u8a4,
};

#[test]
fn test_build_info_table_inner_key() {
    assert_eq!(build_info_table_inner_key([0, 0]), vec![0, 0, 0, 0, 1, 0, 0]);
}

#[test]
fn test_build_name_to_id_table_inner_key() {
    assert_eq!(
        build_name_to_id_table_inner_key("huobi.btc.usdt.1m"),
        vec![
            0, 0, 0, 1, 1, 104, 117, 111, 98, 105, 46, 98, 116, 99, 46, 117, 115, 100, 116, 46,
            49, 109
        ]
    );
}

#[test]
fn test_build_id_to_name_table_inner_key() {
    assert_eq!(build_id_to_name_table_inner_key([0, 0, 4, 0]), vec![0, 0, 0, 2, 1, 0, 0, 4, 0]);
}

#[test]
fn test_build_head_anchor() {
    assert_eq!(build_head_anchor([0, 0, 4, 0]), vec![0, 0, 4, 0, 0]);
}

#[test]
fn test_build_tail_anchor() {
    assert_eq!(build_tail_anchor([0, 0, 4, 1]), vec![0, 0, 4, 1, 2]);
}

#[test]
fn test_build_inner_key() {
    let inner_key = build_inner_key([0, 0, 4, 0], &[0, 0, 0, 0]);
    assert_eq!(inner_key, vec![0, 0, 4, 0, 1, 0, 0, 0, 0]);
}

#[test]
fn test_extract_table_id() {
    let inner_key = [0, 0, 4, 0, 0, 0, 0, 0];
    let table_id = extract_table_id(inner_key.as_ref());
    assert_eq!(table_id, [0, 0, 4, 0]);
}

#[test]
fn test_extract_key() {
    let inner_key = [0, 0, 4, 0, 1, 0, 0, 0, 128, 0, 254];
    let key = extract_key(&inner_key);
    assert_eq!(key, [0, 0, 0, 128, 0, 254]);
}

#[test]
fn test_u32_bytes_roundtrip() {
    assert_eq!(u32_to_u8a4(1024), [0, 0, 4, 0]);
    assert_eq!(u8a4_to_u32([0, 0, 4, 0]), 1024);
    assert_eq!(u8a4_to_u32(u32_to_u8a4(4294967294)), 4294967294);
    assert_eq!(u8s_to_u32(&[0, 0, 4, 1, 9, 9]), 1025);
    assert_eq!(u8s_to_u8a4(&[1, 2, 3, 4, 5]), [1, 2, 3, 4]);
}

#[test]
fn test_timestamped_value_framing() {
    let tv = build_timestamped_value([0, 0, 0, 7], b"v1");
    assert_eq!(tv, vec![0, 0, 0, 7, 118, 49]);
    assert_eq!(extract_timestamp(tv.as_slice()), [0, 0, 0, 7]);
    assert_eq!(extract_value(tv.as_slice()), b"v1".to_vec());
}

#[test]
fn test_inner_key_table_order() {
    let low = build_inner_key([0, 0, 4, 0], b"zzzzzz");
    let high = build_inner_key([0, 0, 4, 1], b"");
    assert!(low < high);
}
