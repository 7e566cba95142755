use crabz::compress::compress;
use crabz::crc::{crc32_of, Crc32Table};
use crabz::decompress::decompress;
use crabz::error::{CorruptKind, Error};
use crabz::member::{check_member, read_header, read_member};

fn corrupt(kind: CorruptKind, offset: usize) -> Result<Vec<u8>, Error> {
    Err(Error::Corrupt { kind, member: 0, offset })
}

fn plain_header(flags: u8) -> Vec<u8> {
    vec![0x1f, 0x8b, 8, flags, 0, 0, 0, 0, 0, 0xff]
}

#[test]
fn read_header_of_the_plain_header() {
    let table = Crc32Table::new();
    assert_eq!(read_header(&plain_header(0), &table), Ok(10));
    let mut longer = plain_header(1);
    longer.extend_from_slice(&[1, 2, 3]);
    assert_eq!(read_header(&longer, &table), Ok(10));
}

#[test]
fn read_header_refuses_short_input() {
    let table = Crc32Table::new();
    let header = plain_header(0);
    for len in 0..10 {
        assert_eq!(read_header(&header[..len], &table), Err(CorruptKind::TruncatedHeader));
    }
    assert_eq!(decompress(&[]), corrupt(CorruptKind::TruncatedHeader, 0));
    assert_eq!(decompress(&[0x1f]), corrupt(CorruptKind::TruncatedHeader, 0));
}

#[test]
fn read_header_refuses_bad_magic_method_and_flags() {
    let table = Crc32Table::new();
    let mut bad = plain_header(0);
    bad[0] = 0x1e;
    assert_eq!(read_header(&bad, &table), Err(CorruptKind::BadMagic));
    let mut bad = plain_header(0);
    bad[1] = 0x8c;
    assert_eq!(read_header(&bad, &table), Err(CorruptKind::BadMagic));
    let mut bad = plain_header(0);
    bad[2] = 7;
    assert_eq!(read_header(&bad, &table), Err(CorruptKind::UnsupportedMethod));
    for flags in [0x20u8, 0x40, 0x80, 0xE0, 0xFF] {
        assert_eq!(read_header(&plain_header(flags), &table), Err(CorruptKind::ReservedFlags));
    }
}

#[test]
fn read_header_skips_extra_name_and_comment() {
    let table = Crc32Table::new();
    let mut header = plain_header(4 | 8 | 16);
    header.extend_from_slice(&[3, 0, 9, 9, 9]);
    header.extend_from_slice(b"name\0");
    header.extend_from_slice(b"comment\0");
    let len = header.len();
    assert_eq!(len, 10 + 5 + 5 + 8);
    header.extend_from_slice(&[1, 2, 3]);
    assert_eq!(read_header(&header, &table), Ok(len));
    for cut in 10..len {
        assert_eq!(read_header(&header[..cut], &table), Err(CorruptKind::TruncatedHeader));
    }
}

#[test]
fn read_header_with_a_long_extra_field() {
    let table = Crc32Table::new();
    let mut header = plain_header(4);
    header.extend_from_slice(&[0x34, 0x12]);
    header.extend_from_slice(&vec![7u8; 0x1234]);
    assert_eq!(read_header(&header, &table), Ok(12 + 0x1234));
    header.pop();
    assert_eq!(read_header(&header, &table), Err(CorruptKind::TruncatedHeader));
}

#[test]
fn read_header_limits_the_length_of_a_name() {
    let table = Crc32Table::new();
    let mut header = plain_header(8);
    header.extend_from_slice(&vec![b'n'; 65535]);
    header.push(0);
    assert_eq!(read_header(&header, &table), Ok(10 + 65536));
    let mut header = plain_header(8);
    header.extend_from_slice(&vec![b'n'; 65536]);
    header.push(0);
    assert_eq!(read_header(&header, &table), Err(CorruptKind::FieldTooLong));
    let mut header = plain_header(16);
    header.extend_from_slice(&vec![b'c'; 70000]);
    assert_eq!(read_header(&header, &table), Err(CorruptKind::FieldTooLong));
}

#[test]
fn read_header_checks_the_header_checksum() {
    let table = Crc32Table::new();
    let mut header = plain_header(2 | 8);
    header.extend_from_slice(b"file\0");
    let sum = crc32_of(&header);
    let mut good = header.clone();
    good.push(sum as u8);
    good.push((sum >> 8) as u8);
    assert_eq!(read_header(&good, &table), Ok(17));
    let mut bad = header.clone();
    bad.push(sum as u8 ^ 1);
    bad.push((sum >> 8) as u8);
    assert_eq!(read_header(&bad, &table), Err(CorruptKind::HeaderChecksum));
    let mut short = header.clone();
    short.push(sum as u8);
    assert_eq!(read_header(&short, &table), Err(CorruptKind::TruncatedHeader));
}

#[test]
fn read_member_gives_data_and_length() {
    let table = Crc32Table::new();
    let mut packed = compress(b"one member", 6, 1).unwrap();
    let len = packed.len();
    packed.extend_from_slice(b"what follows");
    assert_eq!(read_member(&packed, &table), Ok((b"one member".to_vec(), len)));
}

#[test]
fn malformed_deflate_data_is_reported_at_the_end_of_the_header() {
    let mut bad = plain_header(0);
    bad.extend_from_slice(&[0xff; 12]);
    assert_eq!(decompress(&bad), corrupt(CorruptKind::BadDeflate, 10));
    assert_eq!(decompress(&plain_header(0)), corrupt(CorruptKind::BadDeflate, 10));
}

#[test]
fn a_cut_stream_is_refused_at_every_length() {
    let packed = compress(b"cut me anywhere you like", 6, 1).unwrap();
    let payload_end = packed.len() - 8;
    for len in 0..packed.len() {
        let kind = if len < 10 {
            CorruptKind::TruncatedHeader
        } else if len < payload_end {
            CorruptKind::BadDeflate
        } else {
            CorruptKind::TruncatedTrailer
        };
        let offset = if len < 10 {
            0
        } else if len < payload_end {
            10
        } else {
            payload_end
        };
        assert_eq!(decompress(&packed[..len]), corrupt(kind, offset));
    }
}

#[test]
fn check_member_for_each_outcome() {
    let table = Crc32Table::new();
    let data = b"abc".to_vec();
    let sum = crc32_of(&data);
    let mut member = plain_header(0);
    member.extend_from_slice(&[0xAA, 0xBB]);
    member.extend_from_slice(&sum.to_le_bytes());
    member.extend_from_slice(&3u32.to_le_bytes());
    assert_eq!(
        check_member(&member, 10, Some((data.clone(), 2)), &table),
        Ok((data.clone(), 20))
    );
    assert_eq!(check_member(&member, 10, None, &table), Err((CorruptKind::BadDeflate, 10)));
    assert_eq!(
        check_member(&member, 10, Some((data.clone(), 3)), &table),
        Err((CorruptKind::TruncatedTrailer, 13))
    );
    assert_eq!(
        check_member(&member, 10, Some((b"abd".to_vec(), 2)), &table),
        Err((CorruptKind::ChecksumMismatch, 12))
    );
    let mut wrong_len = member.clone();
    wrong_len[16] = 4;
    assert_eq!(
        check_member(&wrong_len, 10, Some((data.clone(), 2)), &table),
        Err((CorruptKind::LengthMismatch, 16))
    );
}
