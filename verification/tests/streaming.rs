use crabz::compress::{compress, compress_with};
use crabz::config::Config;
use crabz::decompress::decompress;
use crabz::error::{CorruptKind, Error};
use crabz::checksum::StreamState;
use crabz::codec::Progress;
use crabz::crc::{crc32_of, Crc32Table};
use crabz::stream::{absorb_run, judge_run, Advance, Decoder, Phase, STALL_LIMIT};
use std::io::Write;

fn text(len: usize) -> Vec<u8> {
    let words: [&[u8]; 5] = [b"stream ", b"of ", b"members\n", b"in ", b"pieces "];
    let mut out = Vec::with_capacity(len + 8);
    let mut state: u32 = 77;
    while out.len() < len {
        state = state.wrapping_mul(1103515245).wrapping_add(12345);
        out.extend_from_slice(words[((state >> 16) % 5) as usize]);
    }
    out.truncate(len);
    out
}

fn decode_in_pieces(packed: &[u8], piece: usize) -> Result<Vec<u8>, Error> {
    let mut decoder = Decoder::new();
    let mut all = Vec::new();
    for chunk in packed.chunks(piece) {
        let mut out = vec![0xEEu8; 3];
        decoder.feed(chunk, &mut out)?;
        assert_eq!(&out[..3], &[0xEE; 3]);
        all.extend_from_slice(&out[3..]);
    }
    decoder.finish()?;
    Ok(all)
}

#[test]
fn decoder_gives_the_bytes_of_decompress_for_every_piece_size() {
    let data = text(40_000);
    let config = Config::new(6, 2).unwrap().with_block_size(3000).unwrap();
    let packed = compress_with(&data, &config).unwrap();
    for piece in [1usize, 2, 3, 7, 8, 9, 10, 11, 64, 1000, packed.len() - 1, packed.len()] {
        assert_eq!(decode_in_pieces(&packed, piece), Ok(data.clone()));
    }
    assert_eq!(decompress(&packed), Ok(data));
}

#[test]
fn decoder_reads_highly_compressible_data() {
    let data = vec![0u8; 5_000_000];
    let packed = compress(&data, 9, 1).unwrap();
    assert!(packed.len() < 100_000);
    assert_eq!(decode_in_pieces(&packed, packed.len()), Ok(data.clone()));
    assert_eq!(decode_in_pieces(&packed, 5), Ok(data));
}

#[test]
fn decoder_reads_members_one_after_another() {
    let a = text(10_000);
    let b = b"second".to_vec();
    let mut packed = compress(&a, 1, 1).unwrap();
    packed.extend_from_slice(&compress(&b, 9, 1).unwrap());
    packed.extend_from_slice(&compress(b"", 0, 1).unwrap());
    let mut want = a.clone();
    want.extend_from_slice(&b);
    for piece in [1usize, 13, 4096, packed.len()] {
        assert_eq!(decode_in_pieces(&packed, piece), Ok(want.clone()));
    }
    let mut decoder = Decoder::new();
    let mut out = Vec::new();
    decoder.feed(&packed, &mut out).unwrap();
    assert_eq!(decoder.members_done(), 3);
    assert_eq!(decoder.state(), Phase::Boundary);
}

#[test]
fn decoder_hands_out_bytes_before_the_member_ends() {
    let data = text(200_000);
    let packed = compress(&data, 6, 1).unwrap();
    let mut decoder = Decoder::new();
    let mut out = Vec::new();
    decoder.feed(&packed[..packed.len() / 2], &mut out).unwrap();
    assert_eq!(decoder.state(), Phase::Body);
    assert!(!out.is_empty());
    assert_eq!(&out[..], &data[..out.len()]);
    assert!(matches!(
        decoder.finish(),
        Err(Error::Corrupt { kind: CorruptKind::BadDeflate, .. })
    ));
}

#[test]
fn decoder_walks_through_its_phases() {
    let packed = compress(b"phases", 6, 1).unwrap();
    let end = packed.len();
    let mut decoder = Decoder::new();
    let mut out = Vec::new();
    assert_eq!(decoder.state(), Phase::Header);
    assert!(matches!(
        decoder.finish(),
        Err(Error::Corrupt { kind: CorruptKind::TruncatedHeader, member: 0, offset: 0 })
    ));
    decoder.feed(&packed[..4], &mut out).unwrap();
    assert_eq!(decoder.state(), Phase::Header);
    decoder.feed(&packed[4..10], &mut out).unwrap();
    assert_eq!(decoder.state(), Phase::Body);
    decoder.feed(&packed[10..end - 8], &mut out).unwrap();
    assert_eq!(decoder.state(), Phase::Trailer);
    assert_eq!(out, b"phases");
    decoder.feed(&packed[end - 8..end - 1], &mut out).unwrap();
    assert_eq!(decoder.state(), Phase::Trailer);
    assert!(matches!(
        decoder.finish(),
        Err(Error::Corrupt { kind: CorruptKind::TruncatedTrailer, .. })
    ));
    decoder.feed(&[], &mut out).unwrap();
    assert_eq!(decoder.state(), Phase::Trailer);
    decoder.feed(&packed[end - 1..], &mut out).unwrap();
    assert_eq!(decoder.state(), Phase::Boundary);
    assert_eq!(decoder.finish(), Ok(()));
    assert_eq!(decoder.members_done(), 1);
    decoder.feed(&packed[..3], &mut out).unwrap();
    assert_eq!(decoder.state(), Phase::Header);
    assert!(matches!(
        decoder.finish(),
        Err(Error::Corrupt { kind: CorruptKind::TruncatedHeader, member: 1, .. })
    ));
    assert_eq!(out, b"phases");
}

#[test]
fn decoder_stays_failed_after_a_failure() {
    let mut decoder = Decoder::new();
    let mut out = Vec::new();
    let bad = [0x1fu8, 0x8b, 9, 0, 0, 0, 0, 0, 0, 0xff];
    assert_eq!(
        decoder.feed(&bad, &mut out),
        Err(Error::Corrupt { kind: CorruptKind::UnsupportedMethod, member: 0, offset: 0 })
    );
    assert_eq!(decoder.state(), Phase::Failed);
    assert_eq!(decoder.feed(b"more", &mut out), Err(Error::InvalidState));
    assert_eq!(decoder.finish(), Err(Error::InvalidState));
    assert!(out.is_empty());
}

#[test]
fn decoder_finds_what_decompress_finds() {
    let data = text(3000);
    let packed = compress(&data, 6, 1).unwrap();
    let end = packed.len();
    let mut wrong_crc = packed.clone();
    wrong_crc[end - 8] ^= 0x80;
    let mut wrong_len = packed.clone();
    wrong_len[end - 1] ^= 1;
    let mut garbage_after = packed.clone();
    garbage_after.extend_from_slice(b"0123456789abcdef");
    let mut broken_body = packed.clone();
    for byte in broken_body[12..40].iter_mut() {
        *byte = 0xff;
    }
    for bad in [wrong_crc, wrong_len, garbage_after, broken_body] {
        let whole = decompress(&bad);
        assert!(matches!(whole, Err(Error::Corrupt { .. })));
        for piece in [1usize, 5, bad.len()] {
            let streamed = decode_in_pieces(&bad, piece);
            match (&whole, &streamed) {
                (Err(Error::Corrupt { kind: a, member: m, .. }), Err(Error::Corrupt { kind: b, member: n, .. })) => {
                    assert_eq!((a, m), (b, n));
                }
                _ => panic!("both must fail as corrupt input"),
            }
        }
    }
}

#[test]
fn decoder_names_the_offset_of_a_bad_trailer() {
    let first = compress(b"one", 6, 1).unwrap();
    let mut packed = first.clone();
    let second = compress(b"two", 6, 1).unwrap();
    packed.extend_from_slice(&second);
    let at = packed.len() - 8;
    packed[at] ^= 1;
    for piece in [1usize, 4, packed.len()] {
        assert_eq!(
            decode_in_pieces(&packed, piece),
            Err(Error::Corrupt { kind: CorruptKind::ChecksumMismatch, member: 1, offset: at })
        );
    }
}

#[test]
fn decoder_reads_flate2_output_with_a_decorated_header() {
    let data = text(5000);
    let mut encoder = flate2::GzBuilder::new()
        .filename("file.txt")
        .comment("note")
        .extra(vec![9u8; 300])
        .write(Vec::new(), flate2::Compression::new(7));
    encoder.write_all(&data).unwrap();
    let packed = encoder.finish().unwrap();
    for piece in [1usize, 17, packed.len()] {
        assert_eq!(decode_in_pieces(&packed, piece), Ok(data.clone()));
    }
}

#[test]
fn judge_run_gives_up_on_a_failed_run_and_on_counts_that_cannot_be() {
    assert_eq!(judge_run(None, 0, 0, 10, 0, 5), None);
    assert_eq!(judge_run(None, 0, 4, 10, 100, 5), None);
    assert_eq!(judge_run(Some(Progress::More), 9, 8, 10, 0, 5), None);
    assert_eq!(judge_run(Some(Progress::More), 0, 11, 10, 1, 5), None);
    assert_eq!(judge_run(Some(Progress::End), u64::MAX, 0, 10, 1, 5), None);
}

#[test]
fn judge_run_gives_up_on_a_stall() {
    assert_eq!(judge_run(Some(Progress::More), 7, 7, 10, 100, 0), None);
    assert_eq!(judge_run(Some(Progress::End), 7, 7, 10, 0, 0), None);
    assert_eq!(judge_run(Some(Progress::More), 7, 7, 10, 0, 5), None);
    assert_eq!(judge_run(Some(Progress::Stalled), 7, 7, 1, 0, 5), None);
}

#[test]
fn judge_run_counts_what_was_taken_and_renews_the_budget() {
    assert_eq!(
        judge_run(Some(Progress::More), 100, 110, 10, 0, 5),
        Some(Advance { consumed: 10, budget: STALL_LIMIT, ended: false, running: true })
    );
    assert_eq!(
        judge_run(Some(Progress::Stalled), 100, 103, 10, 50, 0),
        Some(Advance { consumed: 3, budget: STALL_LIMIT, ended: false, running: true })
    );
    assert_eq!(
        judge_run(Some(Progress::End), 0, 1, 10, 0, 5),
        Some(Advance { consumed: 1, budget: STALL_LIMIT, ended: true, running: true })
    );
}

#[test]
fn judge_run_uses_the_budget_where_nothing_was_taken() {
    assert_eq!(
        judge_run(Some(Progress::More), 7, 7, 10, 100, 5),
        Some(Advance { consumed: 0, budget: 4, ended: false, running: true })
    );
    assert_eq!(
        judge_run(Some(Progress::Stalled), 7, 7, 0, 0, 5),
        Some(Advance { consumed: 0, budget: 4, ended: false, running: false })
    );
    assert_eq!(
        judge_run(Some(Progress::End), 7, 7, 0, 0, 1),
        Some(Advance { consumed: 0, budget: 0, ended: true, running: true })
    );
}

#[test]
fn a_trailer_that_matches_ends_the_member_at_once() {
    let packed = compress(b"member", 6, 1).unwrap();
    let end = packed.len();
    let mut decoder = Decoder::new();
    let mut out = Vec::new();
    decoder.feed(&packed[..end - 5], &mut out).unwrap();
    assert_eq!(decoder.state(), Phase::Trailer);
    assert_eq!(decoder.members_done(), 0);
    let before = out.clone();
    assert_eq!(decoder.feed(&packed[end - 5..], &mut out), Ok(()));
    assert_eq!(decoder.state(), Phase::Boundary);
    assert_eq!(decoder.members_done(), 1);
    assert_eq!(out, before);
    assert_eq!(out, b"member");
}

#[test]
fn what_follows_a_member_is_read_as_the_next_header() {
    let first = compress(b"one", 6, 1).unwrap();
    let end = first.len();
    let mut decoder = Decoder::new();
    let mut out = Vec::new();
    decoder.feed(&first[..end - 3], &mut out).unwrap();
    assert_eq!(decoder.state(), Phase::Trailer);
    let mut rest = first[end - 3..].to_vec();
    rest.extend_from_slice(&[0x1f, 0x8b, 8]);
    assert_eq!(decoder.feed(&rest, &mut out), Ok(()));
    assert_eq!(decoder.state(), Phase::Header);
    assert_eq!(decoder.members_done(), 1);
    assert_eq!(out, b"one");

    let mut decoder = Decoder::new();
    let mut out = Vec::new();
    decoder.feed(&first[..end - 3], &mut out).unwrap();
    let mut rest = first[end - 3..].to_vec();
    rest.extend_from_slice(&[0x1f, 0x8b, 7, 0, 0, 0, 0, 0, 0, 0xff]);
    assert_eq!(
        decoder.feed(&rest, &mut out),
        Err(Error::Corrupt { kind: CorruptKind::UnsupportedMethod, member: 1, offset: end })
    );
    assert_eq!(decoder.members_done(), 1);
    assert_eq!(out, b"one");
}

#[test]
fn absorb_run_hands_on_what_was_written_and_folds_it_into_the_sums() {
    let table = Crc32Table::new();
    let mut out = b"before ".to_vec();
    let start = StreamState { crc: crc32_of(b"abc"), len: 3 };
    let next = absorb_run(start, Some(Progress::More), 10, 14, 9, b"defgh", 5, &table, &mut out);
    assert_eq!(
        next,
        Some((
            StreamState { crc: crc32_of(b"abcdefgh"), len: 8 },
            Advance { consumed: 4, budget: STALL_LIMIT, ended: false, running: true }
        ))
    );
    assert_eq!(out, b"before defgh");
    let (sums, _) = next.unwrap();
    let last = absorb_run(sums, Some(Progress::End), 14, 14, 0, b"", 5, &table, &mut out);
    assert_eq!(
        last,
        Some((sums, Advance { consumed: 0, budget: 4, ended: true, running: true }))
    );
    assert_eq!(out, b"before defgh");
}

#[test]
fn absorb_run_hands_nothing_on_where_the_stream_is_given_up() {
    let table = Crc32Table::new();
    let start = StreamState { crc: 7, len: 7 };
    for (status, before, after, available, budget) in [
        (None, 0u64, 3u64, 5usize, 9u32),
        (Some(Progress::More), 5, 4, 5, 9),
        (Some(Progress::More), 0, 6, 5, 9),
        (Some(Progress::More), 2, 2, 5, 0),
    ] {
        let mut out = b"kept".to_vec();
        let next = absorb_run(start, status, before, after, available, b"xyz", budget, &table, &mut out);
        assert_eq!(next, None);
        assert_eq!(out, b"kept");
    }
}

#[test]
fn absorb_run_counts_the_length_modulo_two_to_the_32() {
    let table = Crc32Table::new();
    let mut out = Vec::new();
    let start = StreamState { crc: 0, len: 0xFFFF_FFFE };
    let next = absorb_run(start, Some(Progress::More), 0, 1, 1, b"abc", 1, &table, &mut out);
    assert_eq!(next.unwrap().0.len, 1);
}
