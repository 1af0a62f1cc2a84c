//! Waveform back-end support: name storage, FSDB cache codecs and the shared
//! query types.
pub mod column;
pub mod container;
pub mod fsdb;
pub mod fsdb_scan;
pub mod fst;
pub mod fsdb_test_api;
pub mod name_store;
pub mod trace;
pub mod vcd_cache;
pub mod vcd_index;
pub mod vcd_query;
pub mod vcd;
