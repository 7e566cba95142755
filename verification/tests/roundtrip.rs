use crabz::compress::{compress, compress_with};
use crabz::config::Config;
use crabz::decompress::decompress;
use crabz::error::{CorruptKind, Error};
use std::io::Read;
use std::io::Write;

fn text(len: usize) -> Vec<u8> {
    let words: [&[u8]; 6] = [b"alpha ", b"beta ", b"gamma\n", b"delta ", b"epsilon ", b"zeta\n"];
    let mut out = Vec::with_capacity(len + 8);
    let mut state: u32 = 12345;
    while out.len() < len {
        state = state.wrapping_mul(1103515245).wrapping_add(12345);
        out.extend_from_slice(words[((state >> 16) % 6) as usize]);
    }
    out.truncate(len);
    out
}

fn noise(len: usize, seed: u32) -> Vec<u8> {
    let mut state: u32 = seed;
    let mut out = Vec::with_capacity(len);
    for _ in 0..len {
        state = state.wrapping_mul(1664525).wrapping_add(1013904223);
        out.push((state >> 24) as u8);
    }
    out
}

fn small(level: u32, block_size: usize) -> Config {
    Config::new(level, 2).unwrap().with_block_size(block_size).unwrap()
}

#[test]
fn round_trip_of_empty_input_at_every_level_and_thread_count() {
    for level in 0..=9u32 {
        for threads in [1usize, 2, 8] {
            let packed = compress(b"", level, threads).unwrap();
            assert_eq!(decompress(&packed), Ok(Vec::new()));
        }
    }
}

#[test]
fn round_trip_of_a_single_byte_at_every_level_and_thread_count() {
    for level in 0..=9u32 {
        for threads in [1usize, 2, 8] {
            let packed = compress(b"x", level, threads).unwrap();
            assert_eq!(decompress(&packed), Ok(b"x".to_vec()));
        }
    }
}

#[test]
fn round_trip_of_text_at_every_level_and_thread_count() {
    let data = text(300_000);
    for level in 0..=9u32 {
        for threads in [1usize, 2, 8] {
            let packed = compress(&data, level, threads).unwrap();
            assert_eq!(decompress(&packed).unwrap(), data);
        }
    }
}

#[test]
fn round_trip_of_megabytes_of_text() {
    let data = text(3_000_000);
    for level in [1u32, 6] {
        let packed = compress(&data, level, 2).unwrap();
        assert!(packed.len() < data.len());
        assert_eq!(decompress(&packed).unwrap(), data);
    }
}

#[test]
fn round_trip_of_megabytes_of_noise() {
    let data = noise(2_500_000, 99);
    for level in [0u32, 3, 9] {
        let packed = compress(&data, level, 8).unwrap();
        assert_eq!(decompress(&packed).unwrap(), data);
    }
}

#[test]
fn round_trip_with_many_small_blocks() {
    let data = text(10_000);
    for block_size in [1usize, 2, 7, 100, 4096, 9_999, 10_000, 10_001] {
        let packed = compress_with(&data, &small(6, block_size)).unwrap();
        assert_eq!(decompress(&packed).unwrap(), data);
    }
}

#[test]
fn block_size_changes_the_bytes_but_not_the_content() {
    let data = text(50_000);
    let one = compress_with(&data, &small(6, 50_000)).unwrap();
    let many = compress_with(&data, &small(6, 1_000)).unwrap();
    assert_ne!(one, many);
    assert_eq!(decompress(&one).unwrap(), data);
    assert_eq!(decompress(&many).unwrap(), data);
}

#[test]
fn compress_is_repeatable() {
    let data = text(200_000);
    assert_eq!(compress(&data, 5, 1).unwrap(), compress(&data, 5, 8).unwrap());
}

#[test]
fn compress_output_is_read_by_flate2() {
    let data = text(400_000);
    for level in [0u32, 1, 4, 9] {
        let packed = compress(&data, level, 4).unwrap();
        let mut theirs = Vec::new();
        flate2::read::GzDecoder::new(&packed[..]).read_to_end(&mut theirs).unwrap();
        assert_eq!(theirs, data);
    }
    let packed = compress_with(&data, &small(6, 333)).unwrap();
    let mut theirs = Vec::new();
    flate2::read::GzDecoder::new(&packed[..]).read_to_end(&mut theirs).unwrap();
    assert_eq!(theirs, data);
}

#[test]
fn decompress_reads_flate2_output() {
    let data = text(123_456);
    let mut encoder = flate2::write::GzEncoder::new(Vec::new(), flate2::Compression::new(6));
    encoder.write_all(&data).unwrap();
    let packed = encoder.finish().unwrap();
    assert_eq!(decompress(&packed).unwrap(), data);
}

#[test]
fn decompress_reads_headers_with_optional_fields() {
    let data = b"payload with a decorated header".to_vec();
    let mut encoder = flate2::GzBuilder::new()
        .filename("name.txt")
        .comment("a comment")
        .extra(vec![1u8, 2, 3, 4, 5])
        .mtime(1_600_000_000)
        .write(Vec::new(), flate2::Compression::new(6));
    encoder.write_all(&data).unwrap();
    let packed = encoder.finish().unwrap();
    assert_eq!(decompress(&packed).unwrap(), data);
}

#[test]
fn concatenated_members_decode_to_concatenated_contents() {
    let a = text(70_000);
    let b = noise(5_000, 4);
    let c: Vec<u8> = Vec::new();
    let mut stream = compress(&a, 6, 2).unwrap();
    stream.extend_from_slice(&compress(&b, 0, 1).unwrap());
    stream.extend_from_slice(&compress(&c, 9, 8).unwrap());
    let mut all = a.clone();
    all.extend_from_slice(&b);
    assert_eq!(decompress(&stream).unwrap(), all);
}

#[test]
fn second_member_failure_names_member_and_offset() {
    let first = compress(b"first", 6, 1).unwrap();
    let mut stream = first.clone();
    stream.extend_from_slice(b"not a gzip member at all");
    assert_eq!(
        decompress(&stream),
        Err(Error::Corrupt { kind: CorruptKind::BadMagic, member: 1, offset: first.len() })
    );
    let mut short = first.clone();
    short.extend_from_slice(&[0x1f, 0x8b, 8]);
    assert_eq!(
        decompress(&short),
        Err(Error::Corrupt { kind: CorruptKind::TruncatedHeader, member: 1, offset: first.len() })
    );
}

#[test]
fn compress_of_nothing_is_a_complete_member() {
    let packed = compress(b"", 6, 1).unwrap();
    assert_eq!(
        packed,
        vec![0x1f, 0x8b, 8, 0, 0, 0, 0, 0, 0, 0xff, 3, 0, 0, 0, 0, 0, 0, 0, 0, 0]
    );
}

#[test]
fn invalid_level_is_refused_whatever_the_input() {
    for level in [10u32, 11, 100, u32::MAX] {
        assert_eq!(compress(b"", level, 1), Err(Error::InvalidLevel { level }));
        assert_eq!(compress(&text(1000), level, 4), Err(Error::InvalidLevel { level }));
        assert_eq!(compress(b"abc", level, 0), Err(Error::InvalidLevel { level }));
    }
}

#[test]
fn zero_threads_are_refused() {
    assert_eq!(compress(b"abc", 3, 0), Err(Error::InvalidThreads));
}

#[test]
fn any_other_thread_count_is_accepted() {
    let want = compress(b"abc", 3, 1).unwrap();
    assert_eq!(compress(b"abc", 3, 1_000_000), Ok(want.clone()));
    assert_eq!(compress(b"abc", 3, usize::MAX), Ok(want));
}
