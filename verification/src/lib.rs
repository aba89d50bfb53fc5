//! Reassembles a flat, id-contiguous stream of astronomical brightness
//! measurements into per-object time series ("sources"), derives flat binary
//! output products from them, and persists the raw measurements in a
//! resizable record cache guarded by the text of the query that produced it.
//!
//! Floating-point sample values (time, magnitude, weight) are carried as
//! opaque 32-bit words; the time word is an order-preserving integer key, so
//! all ordering logic here is integer logic.
#![verifier::loop_isolation(false)]
use vstd::prelude::*;

pub mod cache;
pub mod config;
pub mod dump;
pub mod group;
pub mod lc;
pub mod sorting;

verus! {

/// Fatal error taxonomy of the pipeline. Every error aborts the run:
/// there is no retry and no per-source skip.
#[derive(Clone, Copy, PartialEq, Eq, Structural, Debug)]
pub enum DumpError {
    /// The ingestion collaborator cannot be reached.
    Connection,
    /// An existing cache was produced by a different query text.
    QuerySignatureMismatch,
    /// A transform cannot compute a result for a source.
    Evaluation,
    /// An output or cache file cannot be created, read or written.
    Io,
    /// A passband code or label outside the closed set of bands.
    UnknownPassband,
    /// A database kind other than the supported ones.
    UnknownDataBase,
    /// A feature-extractor version label outside the known set.
    UnknownFeatureVersion,
    /// Cache bytes that do not decode as whole, valid records.
    MalformedCache,
}

} // verus!
