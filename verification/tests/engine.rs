use crabz::codec::{deflate_block, inflate_stream};

#[test]
fn deflate_block_then_inflate_stream_gives_the_data_back() {
    let data = b"hello hello hello hello hello hello".to_vec();
    for level in 0..=9u32 {
        let payload = deflate_block(&data, level, true).unwrap();
        assert_ne!(payload, data);
        let (bytes, used) = inflate_stream(&payload).unwrap();
        assert_eq!(bytes, data);
        assert_eq!(used, payload.len());
    }
}

#[test]
fn inflate_stream_stops_at_the_end_of_the_deflate_data() {
    let data = vec![7u8; 10_000];
    let mut payload = deflate_block(&data, 6, true).unwrap();
    let deflate_len = payload.len();
    payload.extend_from_slice(&[1, 2, 3, 4, 5, 6, 7, 8, 0x1f, 0x8b]);
    let (bytes, used) = inflate_stream(&payload).unwrap();
    assert_eq!(bytes, data);
    assert_eq!(used, deflate_len);
}

#[test]
fn unfinished_blocks_join_into_one_stream() {
    let first = deflate_block(b"abc", 6, false).unwrap();
    let second = deflate_block(b"", 6, false).unwrap();
    let third = deflate_block(b"def", 6, true).unwrap();
    let mut stream = first.clone();
    stream.extend_from_slice(&second);
    stream.extend_from_slice(&third);
    let (bytes, used) = inflate_stream(&stream).unwrap();
    assert_eq!(bytes, b"abcdef");
    assert_eq!(used, stream.len());
    assert!(inflate_stream(&first).is_none());
}

#[test]
fn inflate_stream_rejects_malformed_data() {
    assert!(inflate_stream(&[]).is_none());
    assert!(inflate_stream(&[0xff, 0xff, 0xff]).is_none());
    let payload = deflate_block(&vec![9u8; 5000], 9, true).unwrap();
    assert!(inflate_stream(&payload[..payload.len() - 1]).is_none());
}

#[test]
fn deflate_block_of_nothing() {
    let payload = deflate_block(b"", 3, true).unwrap();
    assert!(!payload.is_empty());
    let (bytes, used) = inflate_stream(&payload).unwrap();
    assert!(bytes.is_empty());
    assert_eq!(used, payload.len());
}
