//! A verified model of a dirty-page reclamation benchmark: anonymous memory
//! regions are dirtied to a configurable fraction, scanned for dirty pages,
//! and reclaimed by one of several strategies, each timed.

use vstd::prelude::*;

pub mod frac;
pub mod parse;
pub mod region;
pub mod scanner;
pub mod strategy;
pub mod sys;
pub mod walk;
pub mod harness;

verus! {

/// Errors raised by the library.
///
/// Mapping failures and unexpected kernel failures are fatal to the current
/// run; an unaligned scan window is a precondition violation surfaced as a
/// value; a missing kernel capability is a degradation signal, not fatal.
#[derive(Clone, Copy, Debug, PartialEq, Eq, Structural)]
pub enum BenchError {
    /// The memory mapping could not be created.
    MapFailed,
    /// A scan was requested over a window that is not page-aligned.
    UnalignedRegion,
    /// The kernel does not support the dirty-page query.
    UnsupportedCapability,
    /// Some other OS failure, carrying the raw OS error number.
    Syscall(i32),
    /// A size string held something other than a decimal number.
    InvalidNumber,
    /// A size string ended in a suffix other than K, M or G.
    InvalidSuffix,
    /// A size string denoted a value that does not fit in `usize`.
    SizeOverflow,
    /// A dirty fraction outside the closed interval `[0, 1]`.
    InvalidFraction,
    /// The kernel walk reported ranges outside the protocol.
    MalformedScan,
}

} // verus!
