//! Library for renaming files whose names contain Japanese script into a
//! romanized form.
//!
//! The crate covers the segment-aware name transliteration algorithm and the
//! rename planning and collision-safety engine.  Filesystem probes, terminal
//! output and argument parsing are left to the surrounding application, which
//! hands the library plain strings and booleans.

pub mod cli;
pub mod convert;
pub mod plan;
pub mod rename;
