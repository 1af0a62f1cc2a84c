//! wal-rust

pub mod bytes;
pub mod cli;
pub mod fst;
pub mod text;
pub mod trace;
pub mod vcd;
