use crabz::crc::{crc32_combine, crc32_of, Crc32Table};

fn sample(len: usize, seed: u32) -> Vec<u8> {
    let mut state: u32 = seed;
    let mut out = Vec::with_capacity(len);
    for _ in 0..len {
        state = state.wrapping_mul(1664525).wrapping_add(1013904223);
        out.push((state >> 24) as u8);
    }
    out
}

#[test]
fn crc32_of_known_vectors() {
    assert_eq!(crc32_of(b""), 0);
    assert_eq!(crc32_of(b"a"), 0xE8B7_BE43);
    assert_eq!(crc32_of(b"123456789"), 0xCBF4_3926);
    assert_eq!(
        crc32_of(b"The quick brown fox jumps over the lazy dog"),
        0x414F_A339
    );
}

#[test]
fn crc32_matches_flate2() {
    for len in [0usize, 1, 2, 255, 256, 257, 4096, 70_000] {
        let data = sample(len, len as u32 + 7);
        let mut theirs = flate2::Crc::new();
        theirs.update(&data);
        assert_eq!(crc32_of(&data), theirs.sum());
    }
}

#[test]
fn crc32_update_continues_a_checksum() {
    let table = Crc32Table::new();
    let data = sample(1000, 3);
    let (a, b) = data.split_at(333);
    let first = table.checksum(a);
    assert_eq!(table.update(first, b), table.checksum(&data));
    assert_eq!(table.update(first, b""), first);
}

#[test]
fn crc32_combine_joins_two_checksums() {
    let data = sample(200_000, 11);
    for cut in [0usize, 1, 7, 8, 1000, 65_536, 199_999, 200_000] {
        let (a, b) = data.split_at(cut);
        let joined = crc32_combine(crc32_of(a), crc32_of(b), b.len() as u64);
        assert_eq!(joined, crc32_of(&data));
    }
}

#[test]
fn crc32_combine_matches_flate2() {
    let a = sample(5000, 1);
    let b = sample(12_345, 2);
    let mut ca = flate2::Crc::new();
    ca.update(&a);
    let mut cb = flate2::Crc::new();
    cb.update(&b);
    let ours = crc32_combine(ca.sum(), cb.sum(), b.len() as u64);
    ca.combine(&cb);
    assert_eq!(ours, ca.sum());
}

#[test]
fn crc32_combine_with_empty_second_part() {
    assert_eq!(crc32_combine(0xDEAD_BEEF, 0, 0), 0xDEAD_BEEF);
    assert_eq!(crc32_combine(0, 0xCBF4_3926, 9), 0xCBF4_3926);
}

#[test]
fn crc32_combine_with_a_very_long_second_part() {
    let zeros = vec![0u8; 1 << 20];
    let once = crc32_of(&zeros);
    let twice = crc32_combine(once, once, 1 << 20);
    let mut both = zeros.clone();
    both.extend_from_slice(&zeros);
    assert_eq!(twice, crc32_of(&both));
    let _ = crc32_combine(1, 2, u64::MAX);
}
