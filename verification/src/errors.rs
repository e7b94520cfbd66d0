use vstd::prelude::*;

verus! {

/// Failure taxonomy of the poller core.
///
/// - `NotFound`: a lookup by name (database or target) found no entry, or no
///   persisted registry exists yet.
/// - `ConfigCorrupt`: a persisted registry could not be parsed.
/// - `IoError`: the registry could not be written durably.
/// - `StaleCursor`: an attempt to persist a cursor lower than the stored one;
///   an invariant violation that is rejected, never silently applied.
/// - `ConnectionError`: a database session could not be established.
/// - `FetchTimeout`: a single target's fetch ran out of time.
/// - `QueryError`: a single target's fetch failed at the source.
#[derive(Clone, Copy, Debug, PartialEq, Eq, Structural)]
pub enum PbusError {
    NotFound,
    ConfigCorrupt,
    IoError,
    StaleCursor,
    ConnectionError,
    FetchTimeout,
    QueryError,
}

} // verus!
