//! Block-parallel gzip.
//!
//! Compression cuts the input into blocks, deflates each block on its own,
//! and frames the results in stream order as one gzip member. Because no
//! block needs another, the blocks can be compressed by as many workers as
//! the caller likes, in any order. Decompression reads a stream of one or
//! more members and holds every member against its trailer.
//!
//! Everything here works on bytes in memory. Reading the source, writing the
//! sink and running the worker threads belong to the program around it:
//!
//! - [`compress::compress`] and [`decompress::decompress`] work on a whole
//!   input at once;
//! - [`pipeline::Pipeline`] makes the decisions of a compression run whose
//!   input arrives in pieces and whose blocks are compressed elsewhere;
//! - [`stream::Decoder`] decodes a stream that arrives in pieces.
//!
//! The deflate coding itself is done by `gzp` and `flate2`.

pub mod block;
pub mod bytes;
pub mod checksum;
pub mod codec;
pub mod compress;
pub mod config;
pub mod crc;
pub mod decompress;
pub mod error;
pub mod frame;
pub mod laws;
pub mod member;
pub mod pipeline;
pub mod scheduler;
pub mod stream;
