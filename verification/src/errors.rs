use vstd::prelude::*;

verus! {

/// Errors surfaced by the store and the registry service.
///
/// `NotFound` is the one recoverable error: a read, update or delete named an
/// id with no live record. `SizeExceeded` and `SizeMismatch` report a codec
/// size-policy violation on a write path. `CorruptEncoding` reports bytes
/// that do not parse back into the expected shape. `OutOfBounds` and
/// `InvalidRegionId` report allocator misuse, and `Exhausted` reports that
/// the backing memory has no pages left to hand out.
#[derive(Clone, Copy, Debug, PartialEq, Eq)]
pub enum Error {
    NotFound { id: u64 },
    SizeExceeded,
    SizeMismatch,
    CorruptEncoding,
    OutOfBounds,
    InvalidRegionId,
    Exhausted,
}

} // verus!
