use crabz::checksum::StreamState;
use crabz::compress::{compress, compress_with};
use crabz::config::Config;
use crabz::crc::crc32_of;
use crabz::decompress::decompress;
use crabz::error::{CorruptKind, Error};
use crabz::frame::{gzip_header, gzip_trailer, put_le32, read_le32};
use gzp::FormatSpec;

fn bytes(len: usize) -> Vec<u8> {
    (0..len).map(|i| (i * 31 % 251) as u8).collect()
}

fn trailer_of(packed: &[u8]) -> (u32, u32) {
    let at = packed.len() - 8;
    (read_le32(packed, at), read_le32(packed, at + 4))
}

#[test]
fn trailer_holds_checksum_and_length_for_zero_one_and_many_blocks() {
    for len in [0usize, 1, 999, 1000, 1001, 25_000] {
        let data = bytes(len);
        let config = Config::new(6, 2).unwrap().with_block_size(1000).unwrap();
        let packed = compress_with(&data, &config).unwrap();
        assert_eq!(trailer_of(&packed), (crc32_of(&data), len as u32));
    }
    let data = bytes(600_000);
    for level in 0..=9u32 {
        let packed = compress(&data, level, 2).unwrap();
        assert_eq!(trailer_of(&packed), (crc32_of(&data), 600_000));
    }
}

#[test]
fn header_bytes_at_each_level() {
    assert_eq!(gzip_header(0), vec![0x1f, 0x8b, 8, 0, 0, 0, 0, 0, 4, 0xff]);
    assert_eq!(gzip_header(1), vec![0x1f, 0x8b, 8, 0, 0, 0, 0, 0, 4, 0xff]);
    assert_eq!(gzip_header(2), vec![0x1f, 0x8b, 8, 0, 0, 0, 0, 0, 0, 0xff]);
    assert_eq!(gzip_header(8), vec![0x1f, 0x8b, 8, 0, 0, 0, 0, 0, 0, 0xff]);
    assert_eq!(gzip_header(9), vec![0x1f, 0x8b, 8, 0, 0, 0, 0, 0, 2, 0xff]);
}

#[test]
fn header_bytes_match_gzp() {
    let format = gzp::deflate::Gzip::new();
    for level in 0..=9u32 {
        assert_eq!(gzip_header(level), format.header(gzp::Compression::new(level)));
    }
}

#[test]
fn trailer_bytes_are_little_endian() {
    assert_eq!(
        gzip_trailer(0x1234_5678, 0x0000_0102),
        vec![0x78, 0x56, 0x34, 0x12, 0x02, 0x01, 0x00, 0x00]
    );
    let mut out = vec![9u8];
    put_le32(&mut out, 0xAABB_CCDD);
    assert_eq!(out, vec![9, 0xDD, 0xCC, 0xBB, 0xAA]);
    assert_eq!(read_le32(&out, 1), 0xAABB_CCDD);
}

#[test]
fn stream_state_folds_blocks_in_order() {
    let data = bytes(10_000);
    let mut state = StreamState::new();
    assert_eq!(state.finalize(), (0, 0));
    for part in data.chunks(777) {
        state.accept(crc32_of(part), part.len() as u64);
    }
    assert_eq!(state.finalize(), (crc32_of(&data), 10_000));
}

#[test]
fn stream_state_length_wraps_at_two_to_the_32() {
    let mut state = StreamState::new();
    state.accept(0, 0xFFFF_FFFF);
    assert_eq!(state.len, 0xFFFF_FFFF);
    state.accept(0, 2);
    assert_eq!(state.len, 1);
    state.accept(0, 0x1_0000_0000);
    assert_eq!(state.len, 1);
    state.accept(0, 0x2_0000_0005);
    assert_eq!(state.len, 6);
}

#[test]
fn any_changed_trailer_bit_is_found() {
    let data = bytes(5_000);
    let packed = compress(&data, 6, 2).unwrap();
    let at = packed.len() - 8;
    for byte in at..packed.len() {
        for bit in 0..8 {
            let mut bad = packed.clone();
            bad[byte] ^= 1 << bit;
            let kind = if byte < at + 4 {
                CorruptKind::ChecksumMismatch
            } else {
                CorruptKind::LengthMismatch
            };
            let offset = if byte < at + 4 { at } else { at + 4 };
            assert_eq!(decompress(&bad), Err(Error::Corrupt { kind, member: 0, offset }));
        }
    }
}

#[test]
fn a_changed_payload_bit_never_gives_other_bytes() {
    let data = b"the same few words, the same few words, the same few words".to_vec();
    for level in [0u32, 6] {
        let packed = compress(&data, level, 1).unwrap();
        for byte in 10..packed.len() - 8 {
            for bit in 0..8 {
                let mut bad = packed.clone();
                bad[byte] ^= 1 << bit;
                match decompress(&bad) {
                    Ok(out) => assert_eq!(out, data),
                    Err(e) => assert!(matches!(e, Error::Corrupt { .. })),
                }
            }
        }
    }
}

#[test]
fn a_changed_literal_is_a_checksum_mismatch() {
    let data = b"0123456789".to_vec();
    let packed = compress(&data, 0, 1).unwrap();
    let mut bad = packed.clone();
    bad[10 + 5 + 3] ^= 0x10;
    assert_eq!(
        decompress(&bad),
        Err(Error::Corrupt {
            kind: CorruptKind::ChecksumMismatch,
            member: 0,
            offset: packed.len() - 8
        })
    );
}

#[test]
fn padding_bits_of_a_stored_block_carry_no_data() {
    let data = b"stored as it is".to_vec();
    let packed = compress(&data, 0, 1).unwrap();
    assert_eq!(packed[10] & 0b111, 0b001);
    for bit in 3..8 {
        let mut changed = packed.clone();
        changed[10] ^= 1 << bit;
        assert_eq!(decompress(&changed), Ok(data.clone()));
    }
}
