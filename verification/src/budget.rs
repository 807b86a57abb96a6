use crate::error::WorkerError;
use vstd::prelude::*;

verus! {

/// Three-counter memory accounting: `capacity` is fixed, `allocated` holds
/// reserved-but-unwritten bytes, `used` holds written bytes.
///
/// Every transition keeps `0 <= used` and `0 <= allocated` and
/// `used + allocated <= capacity`; a refused transition leaves the counters
/// unchanged.
pub struct MemoryBudget {
    capacity: i64,
    allocated: i64,
    used: i64,
    ticket_id_counter: u64,
}

/// An immutable view of the budget counters at a consistent point.
pub struct CapacitySnapshot {
    pub capacity: i64,
    pub allocated: i64,
    pub used: i64,
}

impl CapacitySnapshot {
    pub fn capacity(&self) -> (r: i64)
        ensures
            r == self.capacity,
    {
        self.capacity
    }

    pub fn allocated(&self) -> (r: i64)
        ensures
            r == self.allocated,
    {
        self.allocated
    }

    pub fn used(&self) -> (r: i64)
        ensures
            r == self.used,
    {
        self.used
    }

    pub open spec fn capacity_spec(&self) -> i64 {
        self.capacity
    }

    pub open spec fn allocated_spec(&self) -> i64 {
        self.allocated
    }

    pub open spec fn used_spec(&self) -> i64 {
        self.used
    }
}

impl MemoryBudget {
    /// The budget counters are in range: `0 <= used`, `0 <= allocated` and
    /// `used + allocated <= capacity`.
    pub closed spec fn wf(&self) -> bool {
        0 <= self.used && 0 <= self.allocated && self.used + self.allocated <= self.capacity
    }

    pub closed spec fn capacity_spec(&self) -> int {
        self.capacity as int
    }

    pub closed spec fn allocated_spec(&self) -> int {
        self.allocated as int
    }

    pub closed spec fn used_spec(&self) -> int {
        self.used as int
    }

    pub closed spec fn ticket_counter_spec(&self) -> int {
        self.ticket_id_counter as int
    }

    pub fn new(capacity: i64) -> (r: MemoryBudget)
        requires
            0 <= capacity,
        ensures
            r.wf(),
            r.capacity_spec() == capacity,
            r.allocated_spec() == 0,
            r.used_spec() == 0,
            r.ticket_counter_spec() == 0,
    {
        MemoryBudget { capacity, allocated: 0, used: 0, ticket_id_counter: 0 }
    }

    pub fn snapshot(&self) -> (r: CapacitySnapshot)
        ensures
            r.capacity_spec() == self.capacity_spec(),
            r.allocated_spec() == self.allocated_spec(),
            r.used_spec() == self.used_spec(),
    {
        CapacitySnapshot { capacity: self.capacity, allocated: self.allocated, used: self.used }
    }

    pub fn capacity(&self) -> (r: i64)
        ensures
            r == self.capacity_spec(),
    {
        self.capacity
    }

    pub fn used(&self) -> (r: i64)
        ensures
            r == self.used_spec(),
    {
        self.used
    }

    pub fn allocated(&self) -> (r: i64)
        ensures
            r == self.allocated_spec(),
    {
        self.allocated
    }

    /// Reserves `size` bytes.  Succeeds, moving `allocated` up by `size` and
    /// handing out a fresh ticket id, exactly when `used + allocated + size`
    /// fits under `capacity`; otherwise nothing changes.
    pub fn require_allocated(&mut self, size: i64) -> (r: (bool, u64))
        requires
            old(self).wf(),
            0 <= size,
        ensures
            final(self).wf(),
            final(self).capacity_spec() == old(self).capacity_spec(),
            r.0 == (old(self).used_spec() + old(self).allocated_spec() + size
                <= old(self).capacity_spec() && old(self).ticket_counter_spec() < u64::MAX),
            r.0 ==> final(self).allocated_spec() == old(self).allocated_spec() + size
                && final(self).used_spec() == old(self).used_spec() && r.1 == old(self).ticket_counter_spec() && final(self).ticket_counter_spec() == old(self).ticket_counter_spec()
                + 1,
            !r.0 ==> final(self).allocated_spec() == old(self).allocated_spec() && final(self).used_spec() == old(self).used_spec() && final(self).ticket_counter_spec() == old(self).ticket_counter_spec(),
    {
        if size <= self.capacity - self.used - self.allocated && self.ticket_id_counter
            < u64::MAX {
            let id = self.ticket_id_counter;
            self.ticket_id_counter = self.ticket_id_counter + 1;
            self.allocated = self.allocated + size;
            (true, id)
        } else {
            (false, 0)
        }
    }

    /// Accounts `size` bytes as used directly.  Refused without change when
    /// the budget cannot hold them.
    pub fn inc_used(&mut self, size: i64) -> (r: Result<bool, WorkerError>)
        requires
            old(self).wf(),
            0 <= size,
        ensures
            final(self).wf(),
            final(self).capacity_spec() == old(self).capacity_spec(),
            final(self).ticket_counter_spec() == old(self).ticket_counter_spec(),
            final(self).allocated_spec() == old(self).allocated_spec(),
            r is Ok <==> old(self).used_spec() + old(self).allocated_spec() + size <= old(
                self,
            ).capacity_spec(),
            r is Ok ==> final(self).used_spec() == old(self).used_spec() + size,
            r is Err ==> final(self).used_spec() == old(self).used_spec() && r == Err::<
                bool,
                WorkerError,
            >(WorkerError::INTERNAL_ERROR),
    {
        if size <= self.capacity - self.used - self.allocated {
            self.used = self.used + size;
            Ok(true)
        } else {
            Err(WorkerError::INTERNAL_ERROR)
        }
    }

    /// Transfers `size` bytes from `allocated` to `used`.  Underflow of
    /// `allocated` is a programming error and is refused without change.
    pub fn move_allocated_to_used(&mut self, size: i64) -> (r: Result<bool, WorkerError>)
        requires
            old(self).wf(),
            0 <= size,
        ensures
            final(self).wf(),
            final(self).capacity_spec() == old(self).capacity_spec(),
            final(self).ticket_counter_spec() == old(self).ticket_counter_spec(),
            r is Ok <==> size <= old(self).allocated_spec(),
            r is Ok ==> final(self).allocated_spec() == old(self).allocated_spec() - size
                && final(self).used_spec() == old(self).used_spec() + size,
            r is Err ==> final(self).allocated_spec() == old(self).allocated_spec() && final(self).used_spec() == old(self).used_spec() && r == Err::<bool, WorkerError>(
                WorkerError::INTERNAL_ERROR,
            ),
    {
        if size <= self.allocated {
            self.allocated = self.allocated - size;
            self.used = self.used + size;
            Ok(true)
        } else {
            Err(WorkerError::INTERNAL_ERROR)
        }
    }

    /// Releases `size` bytes of `used`.  Underflow is refused without change.
    pub fn dec_used(&mut self, size: i64) -> (r: Result<bool, WorkerError>)
        requires
            old(self).wf(),
            0 <= size,
        ensures
            final(self).wf(),
            final(self).capacity_spec() == old(self).capacity_spec(),
            final(self).ticket_counter_spec() == old(self).ticket_counter_spec(),
            final(self).allocated_spec() == old(self).allocated_spec(),
            r is Ok <==> size <= old(self).used_spec(),
            r is Ok ==> final(self).used_spec() == old(self).used_spec() - size,
            r is Err ==> final(self).used_spec() == old(self).used_spec() && r == Err::<
                bool,
                WorkerError,
            >(WorkerError::INTERNAL_ERROR),
    {
        if size <= self.used {
            self.used = self.used - size;
            Ok(true)
        } else {
            Err(WorkerError::INTERNAL_ERROR)
        }
    }

    /// Releases `size` bytes of `allocated`.  Underflow is refused without
    /// change.
    pub fn dec_allocated(&mut self, size: i64) -> (r: Result<bool, WorkerError>)
        requires
            old(self).wf(),
            0 <= size,
        ensures
            final(self).wf(),
            final(self).capacity_spec() == old(self).capacity_spec(),
            final(self).ticket_counter_spec() == old(self).ticket_counter_spec(),
            final(self).used_spec() == old(self).used_spec(),
            r is Ok <==> size <= old(self).allocated_spec(),
            r is Ok ==> final(self).allocated_spec() == old(self).allocated_spec() - size,
            r is Err ==> final(self).allocated_spec() == old(self).allocated_spec() && r == Err::<
                bool,
                WorkerError,
            >(WorkerError::INTERNAL_ERROR),
    {
        if size <= self.allocated {
            self.allocated = self.allocated - size;
            Ok(true)
        } else {
            Err(WorkerError::INTERNAL_ERROR)
        }
    }
}

/// Every reachable budget keeps the counters ordered:
/// `0 <= used <= used + allocated <= capacity`.
pub proof fn lemma_budget_counters_in_range(b: MemoryBudget)
    requires
        b.wf(),
    ensures
        0 <= b.used_spec(),
        0 <= b.allocated_spec(),
        b.used_spec() <= b.used_spec() + b.allocated_spec(),
        b.used_spec() + b.allocated_spec() <= b.capacity_spec(),
        b.capacity_spec() <= i64::MAX,
        b.used_spec() <= i64::MAX,
        b.allocated_spec() <= i64::MAX,
{
}

/// A plain triple view of the budget counters.
pub struct MemorySnapshot {
    pub capacity: i64,
    pub allocated: i64,
    pub used: i64,
}

impl MemorySnapshot {
    pub open spec fn capacity_spec(&self) -> i64 {
        self.capacity
    }

    pub open spec fn allocated_spec(&self) -> i64 {
        self.allocated
    }

    pub open spec fn used_spec(&self) -> i64 {
        self.used
    }
}

impl From<(i64, i64, i64)> for MemorySnapshot {
    fn from(value: (i64, i64, i64)) -> (r: MemorySnapshot) {
        MemorySnapshot { capacity: value.0, allocated: value.1, used: value.2 }
    }
}

impl vstd::std_specs::convert::FromSpecImpl<(i64, i64, i64)> for MemorySnapshot {
    open spec fn obeys_from_spec() -> bool {
        true
    }

    open spec fn from_spec(value: (i64, i64, i64)) -> MemorySnapshot {
        MemorySnapshot { capacity: value.0, allocated: value.1, used: value.2 }
    }
}

} // verus!
