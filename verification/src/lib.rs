//! A small log-analysis service core: documents are ingested and stored
//! under opaque identifiers, a configurable set of regex patterns surfaces
//! matching lines with their positions, and named workflow definitions are
//! kept as stored configuration. The whole store survives restarts through a
//! snapshot codec. Every operation carries a contract saying exactly what it
//! returns and how it changes the store.

#![verifier::loop_isolation(false)]

use vstd::prelude::*;

pub mod analyzer;
pub mod api;
pub mod codec;
pub mod ids;
pub mod serializer;
pub mod state;

verus! {

/// The failure taxonomy of the core: a lookup by an unknown or unparsable
/// identifier, a pattern the analyzer cannot compile, a snapshot write or
/// read that failed, and a snapshot buffer that cannot be decoded at all.
#[derive(Debug, Clone, Copy, PartialEq, Eq, Structural)]
pub enum WatsonError {
    NotFound,
    InvalidPattern,
    IoFailure,
    DecodeFailure,
}

} // verus!
