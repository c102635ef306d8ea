use vstd::prelude::*;

verus! {

/// Recoverable failures surfaced by the storage layer.
///
/// `NotFound` is returned when a path is absent on a read, `AlreadyExists`
/// when a write is opened on a path that already holds published content,
/// and `Io` when the backing storage itself fails (never the case for the
/// in-memory backend). Caller-side logic errors such as out-of-bounds
/// ranges are not represented here: they are excluded by preconditions.
#[derive(Clone, Copy, Debug, PartialEq, Eq, Structural)]
pub enum DirError {
    NotFound,
    AlreadyExists,
    Io,
}

} // verus!
