use vstd::prelude::*;

verus! {

/// The error taxonomy of the store.
#[derive(Clone, Copy, Debug, PartialEq, Eq, Structural)]
pub enum StoreError {
    /// Empty content, empty tag name, or a reorder set that does not match
    /// the attached tags of the paste.
    ValidationError,
    /// A referenced paste, tag or association row is absent.
    NotFoundError,
    /// The association pair already exists.
    ConflictError,
    /// Transient contention on the backing store; callers retry with backoff.
    StoreBusyError,
    /// Fatal: the schema could not be brought to the expected version.
    MigrationError,
}

impl StoreError {
    /// A short stable label for each error, for hosts that log or display it.
    pub fn label(&self) -> (r: &'static str)
        ensures
            r@ == self.spec_label(),
    {
        match self {
            StoreError::ValidationError => "validation error",
            StoreError::NotFoundError => "not found",
            StoreError::ConflictError => "conflict",
            StoreError::StoreBusyError => "store busy",
            StoreError::MigrationError => "migration error",
        }
    }

    pub open spec fn spec_label(self) -> Seq<char> {
        match self {
            StoreError::ValidationError => "validation error"@,
            StoreError::NotFoundError => "not found"@,
            StoreError::ConflictError => "conflict"@,
            StoreError::StoreBusyError => "store busy"@,
            StoreError::MigrationError => "migration error"@,
        }
    }
}

/// Bounded-retry policy: only transient contention is retried, and only while
/// the bounded attempt budget is not exhausted; every other error is surfaced.
pub fn should_retry(e: StoreError, attempts_made: u32, max_attempts: u32) -> (r: bool)
    ensures
        r == (e == StoreError::StoreBusyError && attempts_made < max_attempts),
{
    match e {
        StoreError::StoreBusyError => attempts_made < max_attempts,
        _ => false,
    }
}

} // verus!
