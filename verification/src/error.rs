use vstd::prelude::*;

verus! {

/// The error kinds the storage core surfaces.
///
/// Admission (`NO_ENOUGH_MEMORY_TO_BE_ALLOCATED`) and lifecycle errors
/// (`APP_HAS_BEEN_PURGED`, `TICKET_ID_NOT_EXIST`) are expected and go to the
/// caller unchanged; tier-affordance and retry-exhaustion errors come out of
/// the spill path; the rest mark invariant violations that abort the
/// operation without changing state.
#[allow(non_camel_case_types)]
#[derive(Debug, PartialEq, Eq)]
pub enum WorkerError {
    /// Admission control refused the reservation (`NO_BUFFER`).
    NO_ENOUGH_MEMORY_TO_BE_ALLOCATED,
    /// The ticket was already released or never existed (`NO_TICKET`).
    TICKET_ID_NOT_EXIST,
    /// The application's state was purged before the operation ran.
    APP_HAS_BEEN_PURGED,
    /// The cold tier is write-only; readers fetch from it directly.
    NOT_READ_HDFS_DATA_FROM_SERVER,
    /// A spill for this app failed more times than the retry limit allows.
    SPILL_EVENT_EXCEED_RETRY_MAX_LIMIT(String),
    /// No healthy, non-corrupted local disk is available for assignment.
    NO_AVAILABLE_LOCAL_DISK,
    /// The partition has no data in the tier that was asked.
    PARTITION_DATA_NOT_FOUND,
    /// The app registration carried no usable remote storage config.
    INVALID_STORAGE_CONFIG,
    /// The bounded spill queue is full; the producer skips this cycle.
    EVENT_BUS_FULL,
    /// A programmer invariant was violated; the operation was aborted.
    INTERNAL_ERROR,
}

} // verus!
