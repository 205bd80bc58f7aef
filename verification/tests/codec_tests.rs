use zonemap_tiles::codec::{decode_tile_record, encode_tile_b64};
use zonemap_tiles::errors::TileError;
use zonemap_tiles::tile_key;

#[test]
fn tile_key_packs_row_major() {
    assert_eq!(tile_key(1, 2), 129);
    assert_eq!(tile_key(0, 0), 0);
    assert_eq!(tile_key(63, 63), 4095);
}

#[test]
fn tile_key_is_injective_on_the_grid() {
    let mut seen = vec![false; 64 * 64];
    for y in 0..64u32 {
        for x in 0..64u32 {
            let k = tile_key(x, y) as usize;
            assert!(!seen[k], "collision at ({}, {})", x, y);
            seen[k] = true;
        }
    }
}

#[test]
fn encode_zeros_gives_expected_base64() {
    let ids = vec![0u32; 256];
    let text = encode_tile_b64(&ids).unwrap();
    // 1024 zero bytes: 341 full groups of three, one trailing byte.
    let expected = format!("{}==", "A".repeat(1366));
    assert_eq!(text, expected);
}

#[test]
fn encode_is_little_endian() {
    let mut ids = vec![0u32; 256];
    ids[0] = 0x0403_0201;
    let text = encode_tile_b64(&ids).unwrap();
    let decoded = decode_tile_record(&text).unwrap();
    assert_eq!(decoded[0], 0x0403_0201);
    // The first four bytes must be 01 02 03 04: base64 of [1,2,3,4,0,0] is "AQIDBAAA".
    assert!(text.starts_with("AQIDBA"));
}

#[test]
fn encode_rejects_wrong_length() {
    let ids = vec![7u32; 10];
    match encode_tile_b64(&ids) {
        Err(TileError::WrongLength { got }) => assert_eq!(got, 10),
        _ => panic!("expected a length error"),
    }
    let ids = vec![7u32; 257];
    assert!(encode_tile_b64(&ids).is_err());
}

#[test]
fn round_trip_reproduces_arbitrary_words() {
    let mut ids = Vec::with_capacity(256);
    let mut state: u32 = 0x1234_5678;
    for i in 0..256u32 {
        state = state.wrapping_mul(1664525).wrapping_add(1013904223);
        ids.push(state ^ i);
    }
    let text = encode_tile_b64(&ids).unwrap();
    let back = decode_tile_record(&text).unwrap();
    assert_eq!(back, ids);
}

#[test]
fn decode_rejects_garbage() {
    assert_eq!(decode_tile_record("not base64 at all!"), None);
}

#[test]
fn decode_rejects_wrong_record_size() {
    // Valid base64, but only three bytes of payload.
    assert_eq!(decode_tile_record("AAAA"), None);
}
