//! VCD (Value Change Dump) support: values and events, a line reader over
//! file contents, and a streaming parser.

pub mod convert;
pub mod parser;
pub mod reader;
pub mod types;
