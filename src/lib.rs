//! Single-pass aggregation of weather-station temperature records: a line
//! scanner, a fixed-point temperature parser, two station dictionaries (open
//! addressing and perfect hashing), a chunker for parallel fan-out, and the
//! deterministic output formatter.

pub mod chunker;
pub mod grammar;
pub mod hash_table;
pub mod laws;
pub mod model;
pub mod name;
pub mod order;
pub mod phf;
pub mod phf_pipeline;
pub mod pipeline;
pub mod records;
pub mod report;
pub mod scanner;
pub mod slots;
pub mod stats;
pub mod temperature;
