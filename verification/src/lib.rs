//! Periodic host availability probe, as a verified library.
//!
//! The library holds the logic of the probe: option validation, host-list
//! normalisation, measurement assembly, record layout, and the delimited
//! output format. The surrounding binary supplies what the logic cannot:
//! argument parsing, name resolution, the ICMP echo itself, and the writes.

pub mod text;
pub mod order;
pub mod numerals;
pub mod csv;
pub mod error;
pub mod measure;
pub mod cli;
pub mod record;
