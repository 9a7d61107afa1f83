//! The validated configuration the surrounding program hands the core.
//!
//! The core performs no argument parsing: these values arrive already
//! validated, and the library only carries them.

use vstd::prelude::*;

verus! {

/// How a record is written to the output sink.
pub enum OutputFormat {
    /// One human-readable line per record.
    Text,
    /// One structured, self-contained serialization per record.
    Json,
}

/// The validated run configuration.
pub struct Config {
    pub hostname: String,
    pub port: u16,
    pub follow: bool,
    pub interval: u64,
    pub verbosity: usize,
    pub quiet: bool,
    pub timeout: u64,
    pub output_format: OutputFormat,
}

} // verus!
