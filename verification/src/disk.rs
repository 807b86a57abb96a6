use vstd::prelude::*;
use vstd::std_specs::cmp::PartialEqSpec;

verus! {

/// Health bookkeeping for one local disk root.  `healthy` follows the
/// capacity watermarks; `corrupted` is set by a failed write+read check and
/// is sticky until process restart.  The caller runs the periodic checks
/// and feeds the observations in; this type holds the verified transitions.
pub struct LocalDiskDelegator {
    root: String,
    healthy: bool,
    corrupted: bool,
    high_watermark_permille: u64,
    low_watermark_permille: u64,
}

/// Watermarks are fractions: at most 1000 thousandths.
pub open spec fn watermarks_wf(d: &LocalDiskDelegator) -> bool {
    0 <= d.high_spec() <= 1000 && 0 <= d.low_spec() <= 1000
}

/// Whether `used / capacity` lies strictly above the watermark given in
/// thousandths.
pub open spec fn ratio_above(used: int, capacity: int, watermark_permille: int) -> bool {
    used * 1000 > capacity * watermark_permille
}

/// Whether `used / capacity` lies strictly below the watermark.
pub open spec fn ratio_below(used: int, capacity: int, watermark_permille: int) -> bool {
    used * 1000 < capacity * watermark_permille
}

impl LocalDiskDelegator {
    pub closed spec fn root_spec(&self) -> Seq<char> {
        self.root@
    }

    pub closed spec fn healthy_spec(&self) -> bool {
        self.healthy
    }

    pub closed spec fn corrupted_spec(&self) -> bool {
        self.corrupted
    }

    pub closed spec fn high_spec(&self) -> int {
        self.high_watermark_permille as int
    }

    pub closed spec fn low_spec(&self) -> int {
        self.low_watermark_permille as int
    }

    pub fn new(root: String, high_watermark_permille: u64, low_watermark_permille: u64) -> (r:
        LocalDiskDelegator)
        requires
            high_watermark_permille <= 1000,
            low_watermark_permille <= 1000,
        ensures
            r.root_spec() == root@,
            watermarks_wf(&r),
            r.healthy_spec(),
            !r.corrupted_spec(),
            r.high_spec() == high_watermark_permille,
            r.low_spec() == low_watermark_permille,
    {
        LocalDiskDelegator {
            root,
            healthy: true,
            corrupted: false,
            high_watermark_permille,
            low_watermark_permille,
        }
    }

    pub fn root(&self) -> (r: &String)
        ensures
            r@ == self.root_spec(),
    {
        &self.root
    }

    pub fn is_healthy(&self) -> (r: Result<bool, crate::error::WorkerError>)
        ensures
            r == Ok::<bool, crate::error::WorkerError>(self.healthy_spec()),
    {
        Ok(self.healthy)
    }

    pub fn is_corrupted(&self) -> (r: Result<bool, crate::error::WorkerError>)
        ensures
            r == Ok::<bool, crate::error::WorkerError>(self.corrupted_spec()),
    {
        Ok(self.corrupted)
    }

    pub fn mark_healthy(&mut self) -> (r: Result<(), crate::error::WorkerError>)
        ensures
            r is Ok,
            final(self).healthy_spec(),
            final(self).corrupted_spec() == old(self).corrupted_spec(),
            final(self).root_spec() == old(self).root_spec(),
            final(self).high_spec() == old(self).high_spec(),
            final(self).low_spec() == old(self).low_spec(),
    {
        self.healthy = true;
        Ok(())
    }

    pub fn mark_unhealthy(&mut self) -> (r: Result<(), crate::error::WorkerError>)
        ensures
            r is Ok,
            !final(self).healthy_spec(),
            final(self).corrupted_spec() == old(self).corrupted_spec(),
            final(self).root_spec() == old(self).root_spec(),
            final(self).high_spec() == old(self).high_spec(),
            final(self).low_spec() == old(self).low_spec(),
    {
        self.healthy = false;
        Ok(())
    }

    pub fn mark_corrupted(&mut self) -> (r: Result<(), crate::error::WorkerError>)
        ensures
            r is Ok,
            final(self).corrupted_spec(),
            final(self).healthy_spec() == old(self).healthy_spec(),
            final(self).root_spec() == old(self).root_spec(),
            final(self).high_spec() == old(self).high_spec(),
            final(self).low_spec() == old(self).low_spec(),
    {
        self.corrupted = true;
        Ok(())
    }

    /// One capacity check against observed totals: crossing the high
    /// watermark marks the disk unhealthy, falling under the low watermark
    /// marks it healthy again; anything between keeps the current state.
    pub fn capacity_check(&mut self, capacity: u64, available: u64) -> (r: Result<
        (),
        crate::error::WorkerError,
    >)
        requires
            available <= capacity,
            watermarks_wf(old(self)),
        ensures
            r is Ok,
            final(self).healthy_spec() == (if old(self).healthy_spec() && ratio_above(
                capacity - available,
                capacity as int,
                old(self).high_spec(),
            ) {
                false
            } else if !old(self).healthy_spec() && ratio_below(
                capacity - available,
                capacity as int,
                old(self).low_spec(),
            ) {
                true
            } else {
                old(self).healthy_spec()
            }),
            final(self).corrupted_spec() == old(self).corrupted_spec(),
            final(self).root_spec() == old(self).root_spec(),
            final(self).high_spec() == old(self).high_spec(),
            final(self).low_spec() == old(self).low_spec(),
    {
        let used = capacity - available;
        proof {
            assert((capacity as int) * (self.high_watermark_permille as int) <= (u64::MAX
                as int) * 1000 && 0 <= (capacity as int) * (self.high_watermark_permille
                as int)) by (nonlinear_arith)
                requires
                    0 <= capacity as int <= u64::MAX as int,
                    0 <= self.high_watermark_permille as int <= 1000,
            ;
            assert((capacity as int) * (self.low_watermark_permille as int) <= (u64::MAX as int)
                * 1000 && 0 <= (capacity as int) * (self.low_watermark_permille as int))
                by (nonlinear_arith)
                requires
                    0 <= capacity as int <= u64::MAX as int,
                    0 <= self.low_watermark_permille as int <= 1000,
            ;
        }
        let above = (used as u128) * 1000 > (capacity as u128) * (self.high_watermark_permille
            as u128);
        let below = (used as u128) * 1000 < (capacity as u128) * (self.low_watermark_permille
            as u128);
        if self.healthy && above {
            self.healthy = false;
        } else if !self.healthy && below {
            self.healthy = true;
        }
        Ok(())
    }

    /// One write+read self check: the canary bytes read back must equal
    /// what was written; any difference marks the disk corrupted, for good.
    pub fn write_read_check(&mut self, written: &Vec<u8>, read_back: &Vec<u8>) -> (r: Result<
        (),
        crate::error::WorkerError,
    >)
        ensures
            r is Ok,
            final(self).corrupted_spec() == (old(self).corrupted_spec() || written@ != read_back@),
            final(self).healthy_spec() == old(self).healthy_spec(),
            final(self).root_spec() == old(self).root_spec(),
            final(self).high_spec() == old(self).high_spec(),
            final(self).low_spec() == old(self).low_spec(),
    {
        let same = *written == *read_back;
        proof {
            if same {
                assert(written@ =~= read_back@);
            } else {
                assert(written@ != read_back@) by {
                    if written@ == read_back@ {
                        assert(written.eq_spec(read_back));
                    }
                }
            }
        }
        if !same {
            self.corrupted = true;
        }
        Ok(())
    }

    /// One round of the periodic checker: a corrupted disk skips its
    /// checks; otherwise the capacity transition runs, and a failed canary
    /// comparison marks the disk corrupted.
    pub fn periodic_check(
        &mut self,
        capacity: u64,
        available: u64,
        written: &Vec<u8>,
        read_back: &Vec<u8>,
    ) -> (r: Result<(), crate::error::WorkerError>)
        requires
            available <= capacity,
            watermarks_wf(old(self)),
        ensures
            r is Ok,
            periodic_check_post(
                *old(self),
                *final(self),
                capacity as int,
                available as int,
                written@,
                read_back@,
            ),
    {
        if self.corrupted {
            return Ok(());
        }
        let _ = self.capacity_check(capacity, available);
        let _ = self.write_read_check(written, read_back);
        Ok(())
    }

    /// The canary payload the write+read check uses.
    pub fn canary_payload(&self) -> (r: Vec<u8>)
        ensures
            r@.len() == 11,
    {
        let mut v: Vec<u8> = Vec::new();
        v.push(104u8);
        v.push(101u8);
        v.push(108u8);
        v.push(108u8);
        v.push(111u8);
        v.push(32u8);
        v.push(119u8);
        v.push(111u8);
        v.push(114u8);
        v.push(108u8);
        v.push(100u8);
        v
    }
}

/// What one round of the periodic checker does to the health state: a
/// corrupted disk is left alone; otherwise the capacity watermarks drive
/// `healthy` and a canary mismatch sets `corrupted`.
pub open spec fn periodic_check_post(
    pre: LocalDiskDelegator,
    post: LocalDiskDelegator,
    capacity: int,
    available: int,
    written: Seq<u8>,
    read_back: Seq<u8>,
) -> bool {
    &&& (pre.corrupted_spec() ==> post == pre)
    &&& (!pre.corrupted_spec() ==> post.corrupted_spec() == (written != read_back))
    &&& (!pre.corrupted_spec() ==> post.healthy_spec() == (if pre.healthy_spec() && ratio_above(
        capacity - available,
        capacity,
        pre.high_spec(),
    ) {
        false
    } else if !pre.healthy_spec() && ratio_below(capacity - available, capacity, pre.low_spec()) {
        true
    } else {
        pre.healthy_spec()
    }))
    &&& post.root_spec() == pre.root_spec()
    &&& post.high_spec() == pre.high_spec()
    &&& post.low_spec() == pre.low_spec()
}

/// Corruption is sticky: a corrupted disk stays corrupted and unchanged
/// through any later periodic check, whatever it observes.
pub proof fn lemma_corruption_sticky(
    pre: LocalDiskDelegator,
    post: LocalDiskDelegator,
    capacity: int,
    available: int,
    written: Seq<u8>,
    read_back: Seq<u8>,
)
    requires
        pre.corrupted_spec(),
        periodic_check_post(pre, post, capacity, available, written, read_back),
    ensures
        post.corrupted_spec(),
        post == pre,
{
}

} // verus!
