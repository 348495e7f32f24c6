//! A verified core for a process-memory secret scanner.
//!
//! The library finds maximal runs of printable ASCII in byte buffers,
//! scores them with a fixed-point Shannon-entropy approximation, parses
//! memory-map descriptions into typed regions, decides which regions are
//! safe to read, and deduplicates findings across continuous-mode scan
//! iterations.  All I/O (process enumeration, reading a target's memory
//! image) lives outside the library and hands in plain byte values.

pub mod config;
pub mod dedup;
pub mod entropy;
pub mod errors;
pub mod extract;
pub mod filter;
pub mod maps;
pub mod pids;
pub mod scan;
