//! A library for parsing, building, signing and verifying RPM package
//! files: a fixed lead, two tag-indexed binary headers (signature and
//! main), and an opaque payload archive.

pub mod bytes;
pub mod cursor;
pub mod header;
pub mod lead;
pub mod package;
pub mod processor;
pub mod signing;

use vstd::prelude::*;

verus! {

/// The error kinds this library reports.
///
/// Parsing aborts with `Format` on any magic, version, bound or alignment
/// violation; `TagNotFound` and `TypeMismatch` come from typed entry access;
/// `MissingSignature` from verification when an expected signature tag is
/// absent; `Crypto` from a digest or backend failure; `Io` is reserved for
/// sinks and backends that wrap an I/O failure.
#[derive(Debug, Clone, Copy, PartialEq, Eq, Structural)]
pub enum RPMError {
    Format,
    TagNotFound,
    TypeMismatch,
    MissingSignature,
    Crypto,
    Io,
}

} // verus!
