//! A verified core of a columnar data-processing runtime.
//!
//! The crate offers two coupled capabilities: a type-driven factory and
//! append engine that builds typed columnar arrays incrementally over a
//! closed set of logical column types, and a streaming decoder that turns
//! an externally supplied, ordered sequence of opaque data segments into
//! one continuous sequence of decoded row batches.

use vstd::prelude::*;

pub mod types;
pub mod value;
pub mod column;
pub mod array_builder;
pub mod codec;
pub mod channel;
pub mod ipc_stream;

verus! {

/// The fault taxonomy of this crate.
///
/// `UnsupportedType` is raised at dispatch time for a type combination
/// outside the supported matrix; `TypeMismatch` when a builder or array
/// disagrees with a declared type; `Decode` for malformed or truncated
/// wire bytes; `External` for faults of an outside collaborator
/// (channel or segment sequence); `Io` for local file faults.
#[derive(Clone, Copy, PartialEq, Eq, Structural, Debug)]
pub enum Fault {
    UnsupportedType,
    TypeMismatch,
    Decode,
    External,
    Io,
}

} // verus!
