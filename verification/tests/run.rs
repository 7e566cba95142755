use crabz::block::Block;
use crabz::compress::compress_with;
use crabz::config::Config;
use crabz::crc::Crc32Table;
use crabz::decompress::decompress;
use crabz::error::Error;
use crabz::frame::{compress_block, gzip_header, CompressedBlock};
use crabz::pipeline::{NextStep, Pipeline};

fn bytes(len: usize) -> Vec<u8> {
    (0..len).map(|i| (i * 13 % 241) as u8).collect()
}

fn config(threads: usize, block_size: usize) -> Config {
    Config::new(6, threads).unwrap().with_block_size(block_size).unwrap()
}

fn made(block: &Block) -> CompressedBlock {
    compress_block(block, 6, &Crc32Table::new()).unwrap()
}

/// Runs the pipeline over `data`, fed in pieces, with workers that always
/// finish the newest block first.
fn run_newest_first(data: &[u8], config: &Config, piece: usize) -> Vec<u8> {
    let (mut pipeline, mut out) = Pipeline::new(config);
    let mut out_with_workers: Vec<Block> = Vec::new();
    let mut pieces = data.chunks(piece);
    let mut input_open = true;
    loop {
        while let Some(job) = pipeline.next_job() {
            out_with_workers.push(job);
        }
        assert!(pipeline.in_flight_count() <= config.in_flight_limit());
        if pipeline.is_drained() {
            break;
        }
        if pipeline.queued_count() == 0 && input_open {
            match pieces.next() {
                Some(chunk) => pipeline.offer(chunk).unwrap(),
                None => {
                    pipeline.end_input().unwrap();
                    input_open = false;
                }
            }
            continue;
        }
        let block = out_with_workers.pop().unwrap();
        out.extend_from_slice(&pipeline.complete(Ok(made(&block))).unwrap());
    }
    out.extend_from_slice(&pipeline.finish().unwrap());
    out
}

#[test]
fn pipeline_gives_the_bytes_of_compress_whatever_order_workers_finish_in() {
    let data = bytes(50_000);
    for threads in [1usize, 2, 8] {
        for block_size in [512usize, 4096, 50_000, 100_000] {
            let config = config(threads, block_size);
            let want = compress_with(&data, &config).unwrap();
            for piece in [100usize, 5000, 50_000] {
                assert_eq!(run_newest_first(&data, &config, piece), want);
            }
        }
    }
}

#[test]
fn pipeline_of_no_input_is_a_complete_member() {
    let config = config(2, 1024);
    let got = run_newest_first(&[], &config, 10);
    assert_eq!(got, compress_with(&[], &config).unwrap());
    assert_eq!(decompress(&got), Ok(Vec::new()));
}

#[test]
fn pipeline_holds_results_back_until_their_turn() {
    let config = config(2, 4);
    let (mut pipeline, header) = Pipeline::new(&config);
    assert_eq!(header, gzip_header(6));
    pipeline.offer(b"aaaabbbbccccdddd").unwrap();
    pipeline.end_input().unwrap();
    assert_eq!(pipeline.queued_count(), 4);
    let a = pipeline.next_job().unwrap();
    let b = pipeline.next_job().unwrap();
    let c = pipeline.next_job().unwrap();
    let d = pipeline.next_job().unwrap();
    assert!(pipeline.next_job().is_none());
    assert_eq!((a.index, b.index, c.index, d.index), (0, 1, 2, 3));
    assert_eq!((a.last, b.last, c.last, d.last), (false, false, false, true));
    assert_eq!(pipeline.in_flight_count(), 4);
    assert_eq!(pipeline.complete(Ok(made(&d))), Ok(Vec::new()));
    assert_eq!(pipeline.complete(Ok(made(&b))), Ok(Vec::new()));
    let first = pipeline.complete(Ok(made(&a))).unwrap();
    let mut want = made(&a).payload;
    want.extend_from_slice(&made(&b).payload);
    assert_eq!(first, want);
    assert!(!pipeline.is_drained());
    assert!(matches!(pipeline.finish(), Err(Error::InvalidState)));
    let second = pipeline.complete(Ok(made(&c))).unwrap();
    let mut want = made(&c).payload;
    want.extend_from_slice(&made(&d).payload);
    assert_eq!(second, want);
    assert!(pipeline.is_drained());
    assert_eq!(pipeline.finish().unwrap().len(), 8);
    assert!(matches!(pipeline.finish(), Err(Error::InvalidState)));
}

#[test]
fn pipeline_stalls_the_input_when_every_slot_is_taken() {
    let config = config(1, 1);
    assert_eq!(config.in_flight_limit(), 2);
    let (mut pipeline, _) = Pipeline::new(&config);
    pipeline.offer(b"0123456789").unwrap();
    assert_eq!(pipeline.queued_count(), 9);
    let first = pipeline.next_job().unwrap();
    let second = pipeline.next_job().unwrap();
    assert!(pipeline.next_job().is_none());
    assert_eq!(pipeline.queued_count(), 7);
    assert_eq!(pipeline.complete(Ok(made(&second))), Ok(Vec::new()));
    assert!(pipeline.next_job().is_none());
    assert!(!pipeline.complete(Ok(made(&first))).unwrap().is_empty());
    assert_eq!(pipeline.in_flight_count(), 0);
    assert_eq!(pipeline.next_job().unwrap().index, 2);
}

#[test]
fn pipeline_refuses_results_it_does_not_wait_for() {
    let config = config(2, 4);
    let (mut pipeline, _) = Pipeline::new(&config);
    pipeline.offer(b"aaaabbbbcc").unwrap();
    let a = pipeline.next_job().unwrap();
    let b = pipeline.next_job().unwrap();
    let stranger = Block { index: 9, data: b"zz".to_vec(), last: false };
    assert_eq!(pipeline.complete(Ok(made(&stranger))), Err(Error::InvalidState));
    let mut early_end = made(&b);
    early_end.last = true;
    assert_eq!(pipeline.complete(Ok(early_end)), Err(Error::InvalidState));
    assert_eq!(pipeline.complete(Ok(made(&b))), Ok(Vec::new()));
    assert_eq!(pipeline.complete(Ok(made(&b))), Err(Error::InvalidState));
    assert!(!pipeline.complete(Ok(made(&a))).unwrap().is_empty());
    assert_eq!(pipeline.complete(Ok(made(&a))), Err(Error::InvalidState));
    assert_eq!(pipeline.first_failure(), None);
}

#[test]
fn pipeline_wants_the_last_block_marked() {
    let config = config(2, 4);
    let (mut pipeline, _) = Pipeline::new(&config);
    pipeline.offer(b"aaaabb").unwrap();
    pipeline.end_input().unwrap();
    let a = pipeline.next_job().unwrap();
    let b = pipeline.next_job().unwrap();
    let mut unmarked = made(&b);
    unmarked.last = false;
    assert_eq!(pipeline.complete(Ok(unmarked)), Err(Error::InvalidState));
    assert!(!pipeline.complete(Ok(made(&a))).unwrap().is_empty());
    assert!(!pipeline.complete(Ok(made(&b))).unwrap().is_empty());
    assert!(pipeline.is_drained());
}

#[test]
fn pipeline_gives_up_on_a_worker_failure_and_writes_no_trailer() {
    let config = config(2, 4);
    let (mut pipeline, _) = Pipeline::new(&config);
    pipeline.offer(b"aaaabbbbcccc").unwrap();
    pipeline.end_input().unwrap();
    let a = pipeline.next_job().unwrap();
    let _b = pipeline.next_job().unwrap();
    assert_eq!(pipeline.complete(Err(Error::Worker)), Err(Error::Worker));
    assert_eq!(pipeline.first_failure(), Some(Error::Worker));
    assert_eq!(pipeline.complete(Err(Error::Io)), Err(Error::Worker));
    assert_eq!(pipeline.complete(Ok(made(&a))), Err(Error::Worker));
    assert!(pipeline.next_job().is_none());
    assert!(!pipeline.is_drained());
    assert_eq!(pipeline.finish(), Err(Error::Worker));
}

#[test]
fn pipeline_takes_no_input_after_its_end() {
    let config = config(2, 4);
    let (mut pipeline, _) = Pipeline::new(&config);
    pipeline.offer(b"abc").unwrap();
    assert_eq!(pipeline.queued_count(), 0);
    assert_eq!(pipeline.end_input(), Ok(()));
    assert_eq!(pipeline.queued_count(), 1);
    assert_eq!(pipeline.offer(b"def"), Err(Error::InvalidState));
    assert_eq!(pipeline.end_input(), Err(Error::InvalidState));
    let only = pipeline.next_job().unwrap();
    assert_eq!((only.index, only.data.as_slice(), only.last), (0, &b"abc"[..], true));
}

#[test]
fn next_step_leads_a_run_from_the_header_to_the_trailer() {
    let data = bytes(10_000);
    let config = config(2, 1000);
    let (mut pipeline, mut out) = Pipeline::new(&config);
    let mut pieces = data.chunks(300);
    let mut with_workers: Vec<Block> = Vec::new();
    let mut steps = 0;
    loop {
        steps += 1;
        assert!(steps < 10_000);
        match pipeline.next_step() {
            NextStep::Dispatch => with_workers.push(pipeline.next_job().unwrap()),
            NextStep::Read => {
                assert_eq!(pipeline.queued_count(), 0);
                match pieces.next() {
                    Some(piece) => pipeline.offer(piece).unwrap(),
                    None => pipeline.end_input().unwrap(),
                }
            }
            NextStep::Wait => {
                assert!(pipeline.in_flight_count() > 0);
                let block = with_workers.pop().unwrap();
                out.extend_from_slice(&pipeline.complete(Ok(made(&block))).unwrap());
            }
            NextStep::Finish => {
                assert!(pipeline.is_drained());
                out.extend_from_slice(&pipeline.finish().unwrap());
            }
            NextStep::Done => break,
            NextStep::GiveUp => panic!("a run without a failure is not given up"),
        }
    }
    assert_eq!(out, compress_with(&data, &config).unwrap());
    assert_eq!(pipeline.next_step(), NextStep::Done);
}

#[test]
fn next_step_reads_only_while_nothing_is_queued() {
    let config = config(1, 4);
    let (mut pipeline, _) = Pipeline::new(&config);
    assert_eq!(pipeline.next_step(), NextStep::Read);
    pipeline.offer(b"0123456789abcdef0").unwrap();
    assert_eq!(pipeline.next_step(), NextStep::Dispatch);
    let first = pipeline.next_job().unwrap();
    assert_eq!(pipeline.next_step(), NextStep::Dispatch);
    let _second = pipeline.next_job().unwrap();
    assert_eq!(pipeline.queued_count(), 2);
    assert_eq!(pipeline.next_step(), NextStep::Wait);
    pipeline.complete(Ok(made(&first))).unwrap();
    assert_eq!(pipeline.next_step(), NextStep::Dispatch);
    let _third = pipeline.next_job().unwrap();
    assert_eq!(pipeline.next_step(), NextStep::Wait);
}

#[test]
fn next_step_gives_up_after_a_failure() {
    let config = config(2, 4);
    let (mut pipeline, _) = Pipeline::new(&config);
    pipeline.offer(b"aaaabbbbcccc").unwrap();
    let _ = pipeline.next_job().unwrap();
    assert_eq!(pipeline.complete(Err(Error::Worker)), Err(Error::Worker));
    assert_eq!(pipeline.next_step(), NextStep::GiveUp);
}

#[test]
fn next_step_of_an_ended_input() {
    let config = config(2, 4);
    let (mut pipeline, _) = Pipeline::new(&config);
    pipeline.end_input().unwrap();
    assert_eq!(pipeline.next_step(), NextStep::Dispatch);
    let only = pipeline.next_job().unwrap();
    assert_eq!(pipeline.next_step(), NextStep::Wait);
    pipeline.complete(Ok(made(&only))).unwrap();
    assert_eq!(pipeline.next_step(), NextStep::Finish);
    pipeline.finish().unwrap();
    assert_eq!(pipeline.next_step(), NextStep::Done);
}
