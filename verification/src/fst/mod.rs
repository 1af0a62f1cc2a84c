//! FST (Fast Signal Trace) support: varints, block serialization, writer and reader.
//!
//! An FST file is a sequence of blocks `[block_type: u8][block_length: u64][block_data]`:
//! a header block, value-change blocks, a geometry block and a hierarchy block.

pub mod blocks;
pub mod compress;
pub mod hier;
pub mod reader;
pub mod types;
pub mod varint;
pub mod vcdata;
pub mod writer;
