//! The rules of a generation run that do not touch the engine: how many
//! terms to generate, and when a progress line is due.

use vstd::prelude::*;
use crate::cascade::KolakoskiError;

verus! {

/// The number of terms generated when none is asked for.
pub const DEFAULT_TERMS: i64 = 10_000_000;

/// The height of the stack that a run uses.
pub const DEFAULT_LEVELS: usize = 256;

/// The clock is looked at once in this many terms.
pub const REFRESH_STRIDE: u64 = 10_000;

/// The least time between two progress lines, in nanoseconds.
pub const REFRESH_NANOS: u32 = 10_000_000;

/// The number of terms to generate. `argument` is `None` where no count was
/// given, and holds `None` where what was given is no integer: the first
/// means the default, the second is an error.
pub fn term_count(argument: Option<Option<i64>>) -> (r: Result<i64, KolakoskiError>)
    ensures
        r == match argument {
            None => Ok::<i64, KolakoskiError>(DEFAULT_TERMS),
            Some(None) => Err(KolakoskiError::ConfigurationError),
            Some(Some(n)) => Ok(n),
        },
{
    match argument {
        None => Ok(DEFAULT_TERMS),
        Some(None) => Err(KolakoskiError::ConfigurationError),
        Some(Some(n)) => Ok(n),
    }
}

/// Whether the clock is to be looked at after the term with index `count`.
pub fn clock_due(count: u64) -> (r: bool)
    ensures
        r == (count % REFRESH_STRIDE == 0),
{
    count % REFRESH_STRIDE == 0
}

/// Whether a progress line is due, given the nanoseconds that the clock
/// shows since the last one.
pub fn refresh_due(elapsed_nanos: u32) -> (r: bool)
    ensures
        r == (elapsed_nanos >= REFRESH_NANOS),
{
    elapsed_nanos >= REFRESH_NANOS
}

} // verus!
