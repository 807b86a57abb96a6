use crate::block::{
    blocks_wf, lemma_sum_lengths_nonneg, lemma_sum_lengths_take_le, sum_lengths, views_of, Block,
    BlockV, PartitionedUId, UidV,
};
use crate::budget::{CapacitySnapshot, MemoryBudget};
use crate::buffer::{cursor_start, selected_blocks, MemoryBuffer, SpillResult};
use crate::config::MemoryStoreConfig;
use crate::context::{
    DataSegment, PartitionedMemoryData, PurgeDataContext, ReadingOptions, ReadingViewContext,
    ReleaseBufferContext, RequireBufferContext, RequireBufferResponse, WritingViewContext,
};
use crate::error::WorkerError;
use crate::ticket::{
    find_ticket, remove_ticket_id, ticket_of_app, tickets_where, Ticket, TicketManager, TicketV,
};
use vstd::prelude::*;

verus! {

/// One partition's buffer, keyed by its id.
pub struct BufferEntry {
    pub uid: PartitionedUId,
    pub buffer: MemoryBuffer,
}

/// Position of the entry with the given partition id, if any.
pub open spec fn find_entry_pos(s: Seq<BufferEntry>, uid: UidV) -> Option<int>
    decreases s.len(),
{
    if s.len() == 0 {
        None
    } else if s[0].uid@ == uid {
        Some(0int)
    } else {
        match find_entry_pos(s.drop_first(), uid) {
            Some(k) => Some(k + 1),
            None => None,
        }
    }
}

/// The buffer stored under the given partition id, if any.
pub open spec fn buffer_of(s: Seq<BufferEntry>, uid: UidV) -> Option<MemoryBuffer> {
    match find_entry_pos(s, uid) {
        Some(k) => Some(s[k].buffer),
        None => None,
    }
}

/// The entries satisfying `pred`, in order.
pub open spec fn entries_where(s: Seq<BufferEntry>, pred: spec_fn(BufferEntry) -> bool) -> Seq<
    BufferEntry,
>
    decreases s.len(),
{
    if s.len() == 0 {
        s
    } else if pred(s.last()) {
        entries_where(s.drop_last(), pred).push(s.last())
    } else {
        entries_where(s.drop_last(), pred)
    }
}

/// Whether an entry belongs to the purge scope: the app, and the shuffle if
/// one is named.
pub open spec fn entry_in_purge_scope(e: BufferEntry, app_id: Seq<char>, shuffle_id: Option<i32>) -> bool {
    e.uid@.app_id == app_id && match shuffle_id {
        Some(s) => e.uid@.shuffle_id == s as int,
        None => true,
    }
}

/// Total buffered bytes over a sequence of entries.
pub open spec fn entries_total(s: Seq<BufferEntry>) -> int
    decreases s.len(),
{
    if s.len() == 0 {
        0
    } else {
        entries_total(s.drop_last()) + s.last().buffer.total_size_spec()
    }
}

/// The allocated counter after releasing each ticket in order, skipping any
/// whose size no longer fits (already moved to used).
pub open spec fn release_fold(tickets: Seq<TicketV>, allocated: int) -> int
    decreases tickets.len(),
{
    if tickets.len() == 0 {
        allocated
    } else {
        let a = if tickets[0].size <= allocated {
            allocated - tickets[0].size
        } else {
            allocated
        };
        release_fold(tickets.drop_first(), a)
    }
}

/// One candidate for spilling: a partition and its staging byte size.
pub struct SpillPairV {
    pub uid: UidV,
    pub staging: int,
}

pub open spec fn spill_pairs(s: Seq<BufferEntry>) -> Seq<SpillPairV> {
    Seq::new(
        s.len(),
        |i: int| SpillPairV { uid: s[i].uid@, staging: s[i].buffer.staging_size_spec() },
    )
}

pub open spec fn uid_views(s: Seq<PartitionedUId>) -> Seq<UidV> {
    Seq::new(s.len(), |i: int| s[i]@)
}

/// The first index carrying the maximum staging size.
pub open spec fn first_max_idx(s: Seq<SpillPairV>) -> int
    decreases s.len(),
{
    if s.len() <= 1 {
        0
    } else {
        let m = first_max_idx(s.drop_last());
        if 0 <= m < s.len() && s.last().staging > s[m].staging {
            s.len() - 1
        } else {
            m
        }
    }
}

/// The spill candidates, largest staging size first (first index wins
/// ties), until the accumulated staging bytes cover `needed`.
pub open spec fn pick_candidates(s: Seq<SpillPairV>, needed: int) -> Seq<UidV>
    decreases s.len(),
{
    if needed <= 0 || s.len() == 0 {
        Seq::empty()
    } else {
        let m = first_max_idx(s);
        if 0 <= m < s.len() {
            seq![s[m].uid] + pick_candidates(s.remove(m), needed - s[m].staging)
        } else {
            Seq::empty()
        }
    }
}

pub proof fn lemma_first_max_in_range(s: Seq<SpillPairV>)
    requires
        s.len() > 0,
    ensures
        0 <= first_max_idx(s) < s.len(),
        forall|j: int|
            0 <= j < first_max_idx(s) ==> (#[trigger] s[j]).staging < s[first_max_idx(s)].staging,
        forall|j: int|
            first_max_idx(s) <= j < s.len() ==> (#[trigger] s[j]).staging <= s[first_max_idx(
                s,
            )].staging,
    decreases s.len(),
{
    if s.len() > 1 {
        lemma_first_max_in_range(s.drop_last());
        assert forall|j: int| 0 <= j < s.drop_last().len() implies s.drop_last()[j] == s[j] by {}
    }
}


/// Whether a picked partition can drain right now: it has a buffer and
/// its flight counter has room for a fresh id.
pub open spec fn drainable(entries: Seq<BufferEntry>, u: UidV) -> bool {
    match buffer_of(entries, u) {
        Some(b) => b.counter_spec() < u64::MAX,
        None => false,
    }
}

/// The picked partitions that can drain, in pick order.
pub open spec fn drainable_uids(entries: Seq<BufferEntry>, uids: Seq<UidV>) -> Seq<UidV>
    decreases uids.len(),
{
    if uids.len() == 0 {
        Seq::empty()
    } else if drainable(entries, uids.last()) {
        drainable_uids(entries, uids.drop_last()).push(uids.last())
    } else {
        drainable_uids(entries, uids.drop_last())
    }
}

/// The staged bytes of one partition.
pub open spec fn staged_bytes(entries: Seq<BufferEntry>, u: UidV) -> int {
    match buffer_of(entries, u) {
        Some(b) => b.staging_size_spec(),
        None => 0,
    }
}

/// The staged bytes over a list of partitions.
pub open spec fn staged_sum(entries: Seq<BufferEntry>, uids: Seq<UidV>) -> int
    decreases uids.len(),
{
    if uids.len() == 0 {
        0
    } else {
        staged_sum(entries, uids.drop_last()) + staged_bytes(entries, uids.last())
    }
}

/// The spill candidates are distinct partitions, each taken from the
/// pairs it selected over.
pub proof fn lemma_pick_candidates_distinct(s: Seq<SpillPairV>, needed: int)
    requires
        forall|i: int, j: int|
            0 <= i < j < s.len() ==> (#[trigger] s[i]).uid != (#[trigger] s[j]).uid,
    ensures
        forall|i: int, j: int|
            0 <= i < j < pick_candidates(s, needed).len() ==> #[trigger] pick_candidates(
                s,
                needed,
            )[i] != #[trigger] pick_candidates(s, needed)[j],
        forall|i: int| #![trigger pick_candidates(s, needed)[i]]
            0 <= i < pick_candidates(s, needed).len() ==> exists|k: int|
                0 <= k < s.len() && (#[trigger] s[k]).uid == pick_candidates(s, needed)[i],
    decreases s.len(),
{
    if needed <= 0 || s.len() == 0 {
    } else {
        let m = first_max_idx(s);
        lemma_first_max_in_range(s);
        let rest = s.remove(m);
        assert forall|i: int, j: int| 0 <= i < j < rest.len() implies (#[trigger] rest[i]).uid != (
        #[trigger] rest[j]).uid by {
            let ri = if i < m {
                i
            } else {
                i + 1
            };
            let rj = if j < m {
                j
            } else {
                j + 1
            };
            assert(rest[i] == s[ri]);
            assert(rest[j] == s[rj]);
        }
        lemma_pick_candidates_distinct(rest, needed - s[m].staging);
        let w = pick_candidates(s, needed);
        let wr = pick_candidates(rest, needed - s[m].staging);
        assert(w == seq![s[m].uid] + wr);
        assert forall|i: int| #![trigger w[i]] 0 <= i < w.len() implies exists|k: int|
            0 <= k < s.len() && (#[trigger] s[k]).uid == w[i] by {
            if i == 0 {
                assert(s[m].uid == w[0]);
            } else {
                assert(w[i] == wr[i - 1]);
                let k = choose|k: int| 0 <= k < rest.len() && (#[trigger] rest[k]).uid == wr[i - 1];
                let rk = if k < m {
                    k
                } else {
                    k + 1
                };
                assert(rest[k] == s[rk]);
                assert(s[rk].uid == w[i]);
            }
        }
        assert forall|i: int, j: int| 0 <= i < j < w.len() implies #[trigger] w[i]
            != #[trigger] w[j] by {
            if i == 0 {
                assert(w[j] == wr[j - 1]);
                let k = choose|k: int| 0 <= k < rest.len() && (#[trigger] rest[k]).uid == wr[j - 1];
                let rk = if k < m {
                    k
                } else {
                    k + 1
                };
                assert(rest[k] == s[rk]);
                assert(rk != m);
                assert(s[rk].uid != s[m].uid);
            } else {
                assert(w[i] == wr[i - 1]);
                assert(w[j] == wr[j - 1]);
            }
        }
    }
}

/// The in-flight byte counter is a machine word.
pub proof fn lemma_inflight_in_range(s: MemoryStore)
    ensures
        0 <= s.inflight_spec() <= u64::MAX,
{
}

/// Replacing one entry with one of the same partition id leaves every
/// other partition's buffer where it was.
pub proof fn lemma_buffer_of_update_preserved(
    pre: Seq<BufferEntry>,
    post: Seq<BufferEntry>,
    k: int,
    u: UidV,
)
    requires
        0 <= k < pre.len(),
        post == pre.update(k, post[k]),
        post[k].uid@ == pre[k].uid@,
        u != pre[k].uid@,
    ensures
        buffer_of(post, u) == buffer_of(pre, u),
{
    lemma_find_entry_update_same_uid(pre, k, post[k]);
    lemma_find_entry_pos_valid(pre, u);
    match find_entry_pos(pre, u) {
        Some(j) => {
            assert(pre[j].uid@ == u);
            assert(j != k);
            assert(post[j] == pre[j]);
        },
        None => {},
    }
}

/// Every live ticket's id was handed out before the counter's next value.
pub open spec fn tickets_below(tickets: Seq<TicketV>, counter: int) -> bool {
    forall|i: int| 0 <= i < tickets.len() ==> (#[trigger] tickets[i]).ticket_id < counter
}


/// What one `insert` call does: success exactly when the reservation
/// covers the bytes; then the budget moves them from allocated to used and
/// the partition's staging grows by the blocks (a first write creates the
/// buffer), so every reader of the partition sees the old view plus the
/// appended blocks and no other partition changes; failure changes
/// nothing.
pub open spec fn insert_post(
    pre: MemoryStore,
    post: MemoryStore,
    ctx: WritingViewContext,
    r: Result<(), WorkerError>,
) -> bool {
    &&& post.wf()
    &&& (r is Ok <==> ctx.data_size <= pre.allocated_spec())
    &&& (r is Err ==> post == pre && r == Err::<(), WorkerError>(WorkerError::INTERNAL_ERROR))
    &&& (r is Ok ==> post.used_spec() == pre.used_spec() + ctx.data_size && post.allocated_spec()
        == pre.allocated_spec() - ctx.data_size)
    &&& (r is Ok ==> post.tickets() == pre.tickets() && post.inflight_spec() == pre.inflight_spec()
        && post.capacity_spec() == pre.capacity_spec() && post.ticket_ttl_spec()
        == pre.ticket_ttl_spec() && post.budget_spec().ticket_counter_spec()
        == pre.budget_spec().ticket_counter_spec())
    &&& (r is Ok ==> match find_entry_pos(pre.entries(), ctx.uid@) {
        Some(k) => post.entries() == pre.entries().update(k, post.entries()[k])
            && post.entries()[k].uid@ == ctx.uid@ && post.entries()[k].buffer.staging_view()
            == pre.entries()[k].buffer.staging_view() + views_of(ctx.data_blocks@)
            && post.entries()[k].buffer.flights_view() == pre.entries()[k].buffer.flights_view()
            && post.entries()[k].buffer.counter_spec() == pre.entries()[k].buffer.counter_spec()
            && post.entries()[k].buffer.total_size_spec() == pre.entries()[
            k].buffer.total_size_spec() + ctx.data_size,
        None => post.entries() == pre.entries().push(post.entries().last())
            && post.entries().last().uid@ == ctx.uid@ && post.entries().last().buffer.staging_view()
            == views_of(ctx.data_blocks@) && post.entries().last().buffer.flights_view() == Seq::<
            crate::buffer::FlightV,
        >::empty() && post.entries().last().buffer.total_size_spec() == ctx.data_size,
    })
    &&& (r is Ok ==> forall|u: UidV| #[trigger] read_view(post.entries(), u) == (if u == ctx.uid@ {
        read_view(pre.entries(), u) + views_of(ctx.data_blocks@)
    } else {
        read_view(pre.entries(), u)
    }))
}


/// What one `clear_spilled_memory_buffer` call does: success exactly when
/// the partition holds the flight with that exact byte count; then the
/// flight leaves the buffer and its bytes leave `used`, both or neither.
pub open spec fn clear_spilled_post(
    pre: MemoryStore,
    post: MemoryStore,
    uid: UidV,
    flight_id: int,
    flight_len: int,
    r: Result<(), WorkerError>,
) -> bool {
    &&& post.wf()
    &&& (r is Ok <==> (match buffer_of(pre.entries(), uid) {
        Some(b) => (match crate::buffer::find_flight(b.flights_view(), flight_id) {
            Some(f) => flight_len == sum_lengths(f.blocks),
            None => false,
        }),
        None => false,
    }))
    &&& (r is Err ==> post.entries() == pre.entries() && post.used_spec() == pre.used_spec() && r
        == Err::<(), WorkerError>(WorkerError::INTERNAL_ERROR))
    &&& (r is Ok ==> post.used_spec() == pre.used_spec() - flight_len)
    &&& (r is Ok ==> (match find_entry_pos(pre.entries(), uid) {
        Some(k) => post.entries() == pre.entries().update(k, post.entries()[k])
            && post.entries()[k].uid@ == uid && post.entries()[k].buffer.flights_view()
            == crate::buffer::remove_flight_id(pre.entries()[k].buffer.flights_view(), flight_id)
            && post.entries()[k].buffer.staging_view() == pre.entries()[k].buffer.staging_view()
            && post.entries()[k].buffer.total_size_spec() == pre.entries()[
            k].buffer.total_size_spec() - flight_len,
        None => false,
    }))
    &&& post.allocated_spec() == pre.allocated_spec()
    &&& post.tickets() == pre.tickets()
    &&& post.capacity_spec() == pre.capacity_spec()
    &&& post.inflight_spec() == pre.inflight_spec()
    &&& post.ticket_ttl_spec() == pre.ticket_ttl_spec()
    &&& post.budget_spec().ticket_counter_spec() == pre.budget_spec().ticket_counter_spec()
}

/// The buffered bytes one purge scope covers.
pub open spec fn memory_purge_removed(
    entries: Seq<BufferEntry>,
    app_id: Seq<char>,
    shuffle_id: Option<i32>,
) -> int {
    entries_total(
        entries_where(entries, |e: BufferEntry| entry_in_purge_scope(e, app_id, shuffle_id)),
    )
}

/// Maps partition ids to their buffers; owns the memory budget and the
/// ticket manager.
pub struct MemoryStore {
    state: Vec<BufferEntry>,
    budget: MemoryBudget,
    memory_capacity: i64,
    in_flush_buffer_size: u64,
    ticket_manager: TicketManager,
}

impl MemoryStore {
    pub closed spec fn entries(&self) -> Seq<BufferEntry> {
        self.state@
    }

    pub closed spec fn budget_spec(&self) -> MemoryBudget {
        self.budget
    }

    pub closed spec fn tickets(&self) -> Seq<TicketV> {
        self.ticket_manager@
    }

    pub closed spec fn ticket_manager_wf(&self) -> bool {
        self.ticket_manager.wf()
    }

    pub closed spec fn ticket_ttl_spec(&self) -> int {
        self.ticket_manager.ttl_spec()
    }

    pub closed spec fn inflight_spec(&self) -> int {
        self.in_flush_buffer_size as int
    }

    pub closed spec fn capacity_spec(&self) -> int {
        self.memory_capacity as int
    }

    pub open spec fn used_spec(&self) -> int {
        self.budget_spec().used_spec()
    }

    pub open spec fn allocated_spec(&self) -> int {
        self.budget_spec().allocated_spec()
    }

    /// Distinct partition ids, well-formed buffers, a well-formed budget
    /// whose capacity is the configured one, and buffered bytes covered by
    /// the `used` counter.
    pub open spec fn wf(&self) -> bool {
        &&& self.budget_spec().wf()
        &&& self.budget_spec().capacity_spec() == self.capacity_spec()
        &&& forall|i: int, j: int|
            0 <= i < j < self.entries().len() ==> (#[trigger] self.entries()[i]).uid@ != (
            #[trigger] self.entries()[j]).uid@
        &&& forall|i: int| 0 <= i < self.entries().len() ==> (#[trigger] self.entries()[i]).buffer.wf()
        &&& entries_total(self.entries()) <= self.budget_spec().used_spec()
        &&& self.ticket_manager_wf()
        &&& tickets_below(self.tickets(), self.budget_spec().ticket_counter_spec())
    }

    pub fn new(max_memory_size: i64) -> (r: MemoryStore)
        requires
            0 <= max_memory_size,
        ensures
            r.wf(),
            r.capacity_spec() == max_memory_size,
            r.entries() == Seq::<BufferEntry>::empty(),
            r.tickets() == Seq::<TicketV>::empty(),
            r.used_spec() == 0,
            r.allocated_spec() == 0,
            r.inflight_spec() == 0,
            r.budget_spec().ticket_counter_spec() == 0,
            r.ticket_ttl_spec() == 300,
    {
        let r = MemoryStore {
            state: Vec::new(),
            budget: MemoryBudget::new(max_memory_size),
            memory_capacity: max_memory_size,
            in_flush_buffer_size: 0,
            ticket_manager: TicketManager::new(300),
        };
        proof {
            assert(r.entries() =~= Seq::<BufferEntry>::empty());
        }
        r
    }

    pub fn from(conf: MemoryStoreConfig) -> (r: MemoryStore)
        requires
            0 <= conf.capacity,
        ensures
            r.wf(),
            r.capacity_spec() == conf.capacity,
            r.entries() == Seq::<BufferEntry>::empty(),
            r.tickets() == Seq::<TicketV>::empty(),
            r.used_spec() == 0,
            r.allocated_spec() == 0,
            r.inflight_spec() == 0,
            r.budget_spec().ticket_counter_spec() == 0,
            r.ticket_ttl_spec() == conf.ticket_ttl_sec,
    {
        let r = MemoryStore {
            state: Vec::new(),
            budget: MemoryBudget::new(conf.capacity),
            memory_capacity: conf.capacity,
            in_flush_buffer_size: 0,
            ticket_manager: TicketManager::new(conf.ticket_ttl_sec),
        };
        proof {
            assert(r.entries() =~= Seq::<BufferEntry>::empty());
        }
        r
    }

    pub fn memory_snapshot(&self) -> (r: Result<CapacitySnapshot, WorkerError>)
        ensures
            r matches Ok(s) && s.capacity == self.budget_spec().capacity_spec()
                && s.allocated == self.budget_spec().allocated_spec() && s.used == self.budget_spec().used_spec(),
    {
        Ok(self.budget.snapshot())
    }

    pub fn get_capacity(&self) -> (r: Result<i64, WorkerError>)
        ensures
            r == Ok::<i64, WorkerError>((self.capacity_spec()) as i64),
    {
        Ok(self.memory_capacity)
    }

    /// Whether `(used + allocated - in-flight) / capacity` exceeds the
    /// watermark, given in thousandths.
    pub fn usage_ratio_exceeds(&self, watermark_permille: u64) -> (r: bool)
        requires
            self.wf(),
            watermark_permille <= 1000,
        ensures
            r == ((self.used_spec() + self.allocated_spec() - self.inflight_spec()) * 1000
                > self.capacity_spec() * watermark_permille),
    {
        proof {
            crate::budget::lemma_budget_counters_in_range(self.budget);
            assert(0 <= self.memory_capacity);
            assert((self.memory_capacity as int) * (watermark_permille as int) <= (i64::MAX
                as int) * 1000 && 0 <= (self.memory_capacity as int) * (watermark_permille
                as int)) by (nonlinear_arith)
                requires
                    0 <= self.memory_capacity as int <= i64::MAX as int,
                    0 <= watermark_permille as int <= 1000,
            ;
        }
        let lhs: i128 = (self.budget.used() as i128 + self.budget.allocated() as i128
            - self.in_flush_buffer_size as i128) * 1000;
        let rhs: i128 = self.memory_capacity as i128 * watermark_permille as i128;
        lhs > rhs
    }

    /// Raises the in-flight byte count, stopping at the counter's limit.
    pub fn inc_inflight(&mut self, size: u64)
        requires
            old(self).wf(),
        ensures
            final(self).wf(),
            final(self).inflight_spec() == if old(self).inflight_spec() + size <= u64::MAX {
                old(self).inflight_spec() + size
            } else {
                u64::MAX as int
            },
            final(self).entries() == old(self).entries(),
            final(self).budget_spec() == old(self).budget_spec(),
            final(self).tickets() == old(self).tickets(),
            final(self).capacity_spec() == old(self).capacity_spec(),
            final(self).ticket_ttl_spec() == old(self).ticket_ttl_spec(),
    {
        if size <= u64::MAX - self.in_flush_buffer_size {
            self.in_flush_buffer_size = self.in_flush_buffer_size + size;
        } else {
            self.in_flush_buffer_size = u64::MAX;
        }
    }

    /// Lowers the in-flight byte count, stopping at zero.
    pub fn dec_inflight(&mut self, size: u64)
        requires
            old(self).wf(),
        ensures
            final(self).wf(),
            final(self).inflight_spec() == if size <= old(self).inflight_spec() {
                old(self).inflight_spec() - size
            } else {
                0
            },
            final(self).entries() == old(self).entries(),
            final(self).budget_spec() == old(self).budget_spec(),
            final(self).tickets() == old(self).tickets(),
            final(self).capacity_spec() == old(self).capacity_spec(),
            final(self).ticket_ttl_spec() == old(self).ticket_ttl_spec(),
    {
        if size <= self.in_flush_buffer_size {
            self.in_flush_buffer_size = self.in_flush_buffer_size - size;
        } else {
            self.in_flush_buffer_size = 0;
        }
    }

    /// Accounts bytes as used directly, outside the reservation protocol.
    pub fn inc_used(&mut self, size: i64) -> (r: Result<bool, WorkerError>)
        requires
            old(self).wf(),
            0 <= size,
        ensures
            final(self).wf(),
            r is Ok <==> old(self).used_spec() + old(self).allocated_spec() + size <= old(self).budget_spec().capacity_spec(),
            r is Ok ==> final(self).used_spec() == old(self).used_spec() + size,
            r is Err ==> final(self).used_spec() == old(self).used_spec(),
            final(self).entries() == old(self).entries(),
            final(self).tickets() == old(self).tickets(),
            final(self).allocated_spec() == old(self).allocated_spec(),
            final(self).capacity_spec() == old(self).capacity_spec(),
            final(self).inflight_spec() == old(self).inflight_spec(),
            final(self).ticket_ttl_spec() == old(self).ticket_ttl_spec(),
            final(self).budget_spec().ticket_counter_spec() == old(self).budget_spec().ticket_counter_spec(),
    {
        self.budget.inc_used(size)
    }

    /// Transfers reserved bytes to used, as the write path does.
    pub fn move_allocated_to_used(&mut self, size: i64) -> (r: Result<bool, WorkerError>)
        requires
            old(self).wf(),
            0 <= size,
        ensures
            final(self).wf(),
            r is Ok <==> size <= old(self).allocated_spec(),
            r is Ok ==> final(self).used_spec() == old(self).used_spec() + size && final(self).allocated_spec() == old(self).allocated_spec() - size,
            r is Err ==> final(self).used_spec() == old(self).used_spec() && final(self).allocated_spec() == old(self).allocated_spec() && r == Err::<bool, WorkerError>(
                WorkerError::INTERNAL_ERROR,
            ),
            final(self).entries() == old(self).entries(),
            final(self).tickets() == old(self).tickets(),
            final(self).capacity_spec() == old(self).capacity_spec(),
            final(self).inflight_spec() == old(self).inflight_spec(),
            final(self).ticket_ttl_spec() == old(self).ticket_ttl_spec(),
            final(self).budget_spec().ticket_counter_spec() == old(self).budget_spec().ticket_counter_spec(),
    {
        self.budget.move_allocated_to_used(size)
    }

    /// Releases reserved bytes back to free, as ticket expiry does.
    pub fn dec_allocated(&mut self, size: i64) -> (r: Result<bool, WorkerError>)
        requires
            old(self).wf(),
            0 <= size,
        ensures
            final(self).wf(),
            r is Ok <==> size <= old(self).allocated_spec(),
            r is Ok ==> final(self).allocated_spec() == old(self).allocated_spec() - size,
            r is Err ==> final(self).allocated_spec() == old(self).allocated_spec() && r == Err::<
                bool,
                WorkerError,
            >(WorkerError::INTERNAL_ERROR),
            final(self).used_spec() == old(self).used_spec(),
            final(self).entries() == old(self).entries(),
            final(self).tickets() == old(self).tickets(),
            final(self).capacity_spec() == old(self).capacity_spec(),
            final(self).inflight_spec() == old(self).inflight_spec(),
            final(self).ticket_ttl_spec() == old(self).ticket_ttl_spec(),
            final(self).budget_spec().ticket_counter_spec() == old(self).budget_spec().ticket_counter_spec(),
    {
        self.budget.dec_allocated(size)
    }


    /// Serves a cursor read from the partition's buffer: an ordered slice
    /// of blocks rendered as segment descriptors over one byte buffer.  A
    /// partition never written reads as empty.  A file-mode option is not
    /// applicable to the memory tier and is rejected as a programming
    /// error.
    pub fn get(&self, ctx: ReadingViewContext) -> (r: Result<PartitionedMemoryData, WorkerError>)
        requires
            self.wf(),
        ensures
            match ctx.reading_options {
                ReadingOptions::MEMORY_LAST_BLOCK_ID_AND_MAX_SIZE(last, max) => r is Ok && (
                match r {
                    Ok(out) => ({
                        let cv = read_view(self.entries(), ctx.uid@);
                        let sel = selected_blocks(
                            cv.skip(cursor_start(cv, last as int)),
                            ctx.serialized_expected_task_ids_bitmap,
                            max as int,
                            0,
                        );
                        segments_match(out.shuffle_data_block_segments@, sel) && out.data@
                            == crate::block::concat_data(sel)
                    }),
                    Err(_) => false,
                }),
                ReadingOptions::FILE_OFFSET_AND_LEN(_, _) => r == Err::<
                    PartitionedMemoryData,
                    WorkerError,
                >(WorkerError::INTERNAL_ERROR),
            },
    {
        match ctx.reading_options {
            ReadingOptions::MEMORY_LAST_BLOCK_ID_AND_MAX_SIZE(last, max) => {
                match self.find_index(&ctx.uid) {
                    Some(k) => {
                        proof {
                            assert(self.entries()[k as int].buffer.wf());
                        }
                        let read = match self.state[k].buffer.get(
                            last,
                            max,
                            &ctx.serialized_expected_task_ids_bitmap,
                        ) {
                            Ok(read) => read,
                            Err(_) => {
                                return Err(WorkerError::INTERNAL_ERROR);
                            },
                        };
                        proof {
                            crate::buffer::lemma_flights_blocks_wf_from(
                                &self.entries()[k as int].buffer,
                            );
                            crate::buffer::lemma_blocks_wf_concat(
                                crate::buffer::flights_blocks(
                                    self.entries()[k as int].buffer.flights_view(),
                                ),
                                self.entries()[k as int].buffer.staging_view(),
                            );
                            let cv = self.entries()[k as int].buffer.combined_view();
                            let st = cursor_start(cv, last as int);
                            crate::buffer::lemma_cursor_start_range(cv, last as int);
                            assert forall|i: int| 0 <= i < cv.skip(st).len() implies
                                crate::block::block_wf(#[trigger] cv.skip(st)[i]) by {
                                assert(cv.skip(st)[i] == cv[st + i]);
                            }
                            crate::buffer::lemma_selected_blocks_wf(
                                cv.skip(st),
                                ctx.serialized_expected_task_ids_bitmap,
                                max as int,
                                0,
                            );
                        }
                        Ok(build_memory_response(&read.blocks, read.read_len))
                    },
                    None => {
                        proof {
                            let cv = read_view(self.entries(), ctx.uid@);
                            assert(cv.skip(0) =~= cv);
                            assert(segments_match(
                                Seq::<DataSegment>::empty(),
                                selected_blocks(
                                    cv,
                                    ctx.serialized_expected_task_ids_bitmap,
                                    max as int,
                                    0,
                                ),
                            ));
                        }
                        let out = PartitionedMemoryData {
                            shuffle_data_block_segments: Vec::new(),
                            data: Vec::new(),
                        };
                        proof {
                            assert(out.data@ =~= Seq::<u8>::empty());
                            assert(out.shuffle_data_block_segments@ =~= Seq::<DataSegment>::empty());
                        }
                        Ok(out)
                    },
                }
            },
            ReadingOptions::FILE_OFFSET_AND_LEN(_, _) => Err(WorkerError::INTERNAL_ERROR),
        }
    }

    /// Drops every buffer in the purge scope, releases their bytes from
    /// `used`, and lets the application's tickets go; returns the buffered
    /// bytes removed.
    pub fn purge(&mut self, ctx: PurgeDataContext) -> (r: Result<i64, WorkerError>)
        requires
            old(self).wf(),
        ensures
            final(self).wf(),
            r is Ok,
            r matches Ok(removed) ==> removed == memory_purge_removed(
                old(self).entries(),
                ctx.app_id@,
                ctx.shuffle_id,
            ) && 0 <= removed,
            final(self).entries() == entries_where(
                old(self).entries(),
                |e: BufferEntry| !entry_in_purge_scope(e, ctx.app_id@, ctx.shuffle_id),
            ),
            final(self).used_spec() == old(self).used_spec() - entries_total(
                entries_where(
                    old(self).entries(),
                    |e: BufferEntry| entry_in_purge_scope(e, ctx.app_id@, ctx.shuffle_id),
                ),
            ),
            final(self).tickets() == tickets_where(
                old(self).tickets(),
                |t: TicketV| !ticket_of_app(t, ctx.app_id@),
            ),
            final(self).allocated_spec() == release_fold(
                tickets_where(old(self).tickets(), |t: TicketV| ticket_of_app(t, ctx.app_id@)),
                old(self).allocated_spec(),
            ),
            final(self).capacity_spec() == old(self).capacity_spec(),
            final(self).inflight_spec() == old(self).inflight_spec(),
            final(self).ticket_ttl_spec() == old(self).ticket_ttl_spec(),
    {
        let ghost es = self.entries();
        let ghost scope = |e: BufferEntry| entry_in_purge_scope(e, ctx.app_id@, ctx.shuffle_id);
        let removed_entries = self.take_purge_scope(&ctx.app_id, ctx.shuffle_id);
        let ghost taken = entries_where(es, scope);
        proof {
            assert(scope =~= (|e: BufferEntry| entry_in_purge_scope(
                e,
                ctx.app_id@,
                ctx.shuffle_id,
            )));
            assert((|e: BufferEntry| !(scope(e))) =~= (|e: BufferEntry| !entry_in_purge_scope(
                e,
                ctx.app_id@,
                ctx.shuffle_id,
            )));
            assert(removed_entries@ == taken);
            lemma_entries_where_wf(es, scope);
            lemma_entries_where_wf(es, |e: BufferEntry| !(scope(e)));
            lemma_entries_total_split(es, scope);
            lemma_entries_total_where_nonneg(es, scope);
            lemma_entries_total_where_nonneg(es, |e: BufferEntry| !(scope(e)));
            assert forall|i: int| 0 <= i < taken.len() implies (#[trigger] taken[i]).buffer.wf() by {
                let k = choose|k: int| 0 <= k < es.len() && #[trigger] es[k] == taken[i];
            }
            crate::budget::lemma_budget_counters_in_range(old(self).budget_spec());
            assert(entries_total(taken) <= old(self).used_spec());
        }
        let removed = entries_total_size(&removed_entries);
        let _ = self.budget.dec_used(removed);
        let ghost oldt = old(self).tickets();
        let app_tickets = self.ticket_manager.purge_app(&ctx.app_id);
        proof {
            crate::ticket::lemma_tickets_where_wf(
                oldt,
                |t: TicketV| !ticket_of_app(t, ctx.app_id@),
            );
            let fin = tickets_where(oldt, |t: TicketV| !ticket_of_app(t, ctx.app_id@));
            assert forall|i: int| 0 <= i < fin.len() implies (#[trigger] fin[i]).ticket_id < self.budget_spec().ticket_counter_spec() by {
                let k = choose|k: int| 0 <= k < oldt.len() && #[trigger] oldt[k] == fin[i];
            }
            assert(tickets_below(self.tickets(), self.budget_spec().ticket_counter_spec()));
            assert(self.wf());
        }
        self.release_ticket_sizes(app_tickets);
        Ok(removed)
    }

    /// Splits off the entries inside the purge scope, in order.
    fn take_purge_scope(&mut self, app_id: &String, shuffle_id: Option<i32>) -> (r: Vec<
        BufferEntry,
    >)
        requires
            old(self).wf(),
        ensures
            final(self).wf(),
            r@ == entries_where(
                old(self).entries(),
                |e: BufferEntry| entry_in_purge_scope(e, app_id@, shuffle_id),
            ),
            final(self).entries() == entries_where(
                old(self).entries(),
                |e: BufferEntry| !entry_in_purge_scope(e, app_id@, shuffle_id),
            ),
            final(self).budget_spec() == old(self).budget_spec(),
            final(self).tickets() == old(self).tickets(),
            final(self).ticket_manager_wf() == old(self).ticket_manager_wf(),
            final(self).capacity_spec() == old(self).capacity_spec(),
            final(self).inflight_spec() == old(self).inflight_spec(),
            final(self).ticket_ttl_spec() == old(self).ticket_ttl_spec(),
    {
        let ghost pred = |e: BufferEntry| entry_in_purge_scope(e, app_id@, shuffle_id);
        let mut kept: Vec<BufferEntry> = Vec::new();
        let mut taken: Vec<BufferEntry> = Vec::new();
        let ghost orig = self.entries();
        proof {
            assert(orig.take(0) =~= Seq::<BufferEntry>::empty());
            assert(orig.skip(0) =~= orig);
        }
        while self.state.len() > 0
            invariant
                pred == (|e: BufferEntry| entry_in_purge_scope(e, app_id@, shuffle_id)),
                taken@ == entries_where(orig.take(orig.len() - self.entries().len()), pred),
                kept@ == entries_where(
                    orig.take(orig.len() - self.entries().len()),
                    |e: BufferEntry| !(pred(e)),
                ),
                self.entries() == orig.skip(orig.len() - self.entries().len()),
                self.entries().len() <= orig.len(),
                self.budget_spec() == old(self).budget_spec(),
                self.tickets() == old(self).tickets(),
                self.ticket_manager_wf() == old(self).ticket_manager_wf(),
                self.capacity_spec() == old(self).capacity_spec(),
                self.inflight_spec() == old(self).inflight_spec(),
                self.ticket_ttl_spec() == old(self).ticket_ttl_spec(),
            decreases self.state.len(),
        {
            let ghost done = orig.len() - self.entries().len();
            let ghost before = self.entries();
            let e = self.state.remove(0);
            proof {
                assert(before == orig.skip(done));
                assert(before[0] == orig[done]);
                assert(self.entries() =~= orig.skip(done + 1));
                assert(orig.take(done + 1) =~= orig.take(done).push(orig[done]));
                lemma_entries_where_push(orig.take(done), orig[done], pred);
                lemma_entries_where_push(orig.take(done), orig[done], |x: BufferEntry| !(pred(x)));
            }
            let selected = e.uid.app_id == *app_id && (match shuffle_id {
                Some(sid) => e.uid.shuffle_id == sid,
                None => true,
            });
            proof {
                assert(pred =~= (|x: BufferEntry| entry_in_purge_scope(x, app_id@, shuffle_id)));
                assert(selected == entry_in_purge_scope(e, app_id@, shuffle_id));
                assert(selected == pred(e));
                assert(e == orig[done]);
            }
            if selected {
                taken.push(e);
            } else {
                kept.push(e);
            }
        }
        proof {
            assert(orig.take(orig.len() - self.entries().len()) =~= orig);
        }
        self.state = kept;
        proof {
            let notpred = |x: BufferEntry| !(pred(x));
            lemma_entries_where_wf(orig, pred);
            lemma_entries_where_wf(orig, notpred);
            lemma_entries_total_split(orig, pred);
            lemma_entries_total_where_nonneg(orig, pred);
            lemma_entries_total_where_nonneg(orig, notpred);
            let fin = entries_where(orig, notpred);
            assert forall|i: int| 0 <= i < fin.len() implies (#[trigger] fin[i]).buffer.wf() by {
                let k = choose|k: int| 0 <= k < orig.len() && #[trigger] orig[k] == fin[i];
            }
            assert((|e: BufferEntry| !(pred(e))) =~= (|e: BufferEntry| !entry_in_purge_scope(
                e,
                app_id@,
                shuffle_id,
            )));
            assert(pred =~= (|e: BufferEntry| entry_in_purge_scope(e, app_id@, shuffle_id)));
        }
        taken
    }

    /// Picks the partitions to spill: largest staging region first, first
    /// index on ties, until the staged bytes cover `used - mem_target`.
    pub fn pickup_spill_blocks(&self, mem_target: i64) -> (r: Vec<PartitionedUId>)
        requires
            self.wf(),
            0 <= mem_target,
        ensures
            uid_views(r@) == pick_candidates(
                spill_pairs(self.entries()),
                self.used_spec() - mem_target,
            ),
    {
        proof {
            crate::budget::lemma_budget_counters_in_range(self.budget);
        }
        let used = self.budget.used();
        let required = used - mem_target;
        let mut out: Vec<PartitionedUId> = Vec::new();
        if required <= 0 {
            proof {
                assert(uid_views(out@) =~= Seq::<UidV>::empty());
            }
            return out;
        }
        let mut pairs: Vec<SpillPair> = Vec::new();
        let mut i: usize = 0;
        proof {
            assert(pair_views(pairs@) =~= spill_pairs(self.entries()).take(0));
        }
        while i < self.state.len()
            invariant
                i <= self.state.len(),
                pair_views(pairs@) == spill_pairs(self.entries()).take(i as int),
            decreases self.state.len() - i,
        {
            let ghost pv = pair_views(pairs@);
            let uid = self.state[i].uid.clone_uid();
            let staging = self.state[i].buffer.staging_size();
            pairs.push(SpillPair { uid, staging });
            proof {
                assert(pair_views(pairs@) =~= pv.push(spill_pairs(self.entries())[i as int]));
                assert(spill_pairs(self.entries()).take(i as int + 1) =~= spill_pairs(
                    self.entries(),
                ).take(i as int).push(spill_pairs(self.entries())[i as int]));
            }
            i = i + 1;
        }
        proof {
            assert(spill_pairs(self.entries()).take(self.state@.len() as int) =~= spill_pairs(
                self.entries(),
            ));
            assert(uid_views(out@) =~= Seq::<UidV>::empty());
            assert(Seq::<UidV>::empty() + pick_candidates(pair_views(pairs@), required as int)
                =~= pick_candidates(pair_views(pairs@), required as int));
        }
        proof {
            assert forall|i: int|
                0 <= i < pair_views(pairs@).len() implies 0 <= (
            #[trigger] pair_views(pairs@)[i]).staging by {
                assert(pair_views(pairs@)[i] == spill_pairs(self.entries())[i]);
                assert(self.entries()[i].buffer.wf());
                let b = self.entries()[i].buffer;
                crate::buffer::lemma_buffer_total_nonneg(&b);
            }
        }
        pick_spill_rec(pairs, required, &mut out);
        out
    }

    /// Drains one partition's staging region into a fresh flight and
    /// returns its snapshot; the partition must have been written.
    pub fn spill_partition(&mut self, uid: &PartitionedUId) -> (r: Result<SpillResult, WorkerError>)
        requires
            old(self).wf(),
        ensures
            final(self).wf(),
            r is Err ==> *final(self) == *old(self) && r == Err::<SpillResult, WorkerError>(
                WorkerError::INTERNAL_ERROR,
            ),
            r is Ok <==> (find_entry_pos(old(self).entries(), uid@) matches Some(k)
                && old(self).entries()[k].buffer.counter_spec() < u64::MAX),
            r matches Ok(res) ==> (match find_entry_pos(old(self).entries(), uid@) {
                Some(k) => final(self).entries() == old(self).entries().update(
                    k,
                    final(self).entries()[k],
                ) && final(self).entries()[k].uid@ == uid@ && final(self).entries()[k].buffer.staging_view() == Seq::<BlockV>::empty() && final(self).entries()[k].buffer.flights_view() == old(self).entries()[k].buffer.flights_view().push(
                    (crate::buffer::FlightV {
                        flight_id: old(self).entries()[k].buffer.counter_spec(),
                        blocks: old(self).entries()[k].buffer.staging_view(),
                    }),
                ) && final(self).entries()[k].buffer.counter_spec() == old(self).entries()[k].buffer.counter_spec() + 1 && final(self).entries()[k].buffer.total_size_spec() == old(self).entries()[k].buffer.total_size_spec() && final(self).entries()[k].buffer.staging_size_spec() == 0 && res.flight_id == old(self).entries()[k].buffer.counter_spec() && views_of(res.blocks@) == old(self).entries()[k].buffer.staging_view() && res.flight_len == old(self).entries()[k].buffer.staging_size_spec(),
                None => false,
            }),
            forall|u: UidV| #[trigger] read_view(final(self).entries(), u) == read_view(
                old(self).entries(),
                u,
            ),
            final(self).budget_spec() == old(self).budget_spec(),
            final(self).tickets() == old(self).tickets(),
            final(self).capacity_spec() == old(self).capacity_spec(),
            final(self).inflight_spec() == old(self).inflight_spec(),
            final(self).ticket_ttl_spec() == old(self).ticket_ttl_spec(),
    {
        let ghost es = self.entries();
        match self.find_index(uid) {
            Some(k) => {
                proof {
                    lemma_find_entry_pos_valid(es, uid@);
                    assert(es[k as int].buffer.wf());
                }
                if self.state[k].buffer.flight_counter() == u64::MAX {
                    return Err(WorkerError::INTERNAL_ERROR);
                }
                let mut e = self.state.remove(k);
                let res = match e.buffer.spill() {
                    Ok(res) => res,
                    Err(_) => {
                        self.state.insert(k, e);
                        return Err(WorkerError::INTERNAL_ERROR);
                    },
                };
                self.state.insert(k, e);
                proof {
                    assert(self.entries() =~= es.update(k as int, self.entries()[k as int]));
                    lemma_entries_total_update(es, k as int, self.entries()[k as int]);
                    assert forall|i: int, j: int|
                        0 <= i < j < self.entries().len() implies (
                    #[trigger] self.entries()[i]).uid@ != (#[trigger] self.entries()[j]).uid@ by {
                        assert(self.entries()[i].uid@ == es[i].uid@);
                        assert(self.entries()[j].uid@ == es[j].uid@);
                    }
                    assert forall|i: int| 0 <= i < self.entries().len() implies (
                    #[trigger] self.entries()[i]).buffer.wf() by {
                        if i != k as int {
                            assert(self.entries()[i] == es[i]);
                        }
                    }
                    lemma_find_entry_update_same_uid(es, k as int, self.entries()[k as int]);
                    assert(self.entries()[k as int].buffer.combined_view() == es[
                        k as int].buffer.combined_view());
                    assert forall|u: UidV| #[trigger] read_view(self.entries(), u) == read_view(
                        es,
                        u,
                    ) by {
                        assert(find_entry_pos(self.entries(), u) == find_entry_pos(es, u));
                        lemma_find_entry_pos_valid(es, u);
                        match find_entry_pos(es, u) {
                            Some(j) => {
                                if j != k as int {
                                    assert(self.entries()[j] == es[j]);
                                }
                            },
                            None => {},
                        }
                    }
                }
                Ok(res)
            },
            None => Err(WorkerError::INTERNAL_ERROR),
        }
    }

    /// Removes an acknowledged flight from the partition's buffer and
    /// releases its bytes from `used`: both or neither.
    pub fn clear_spilled_memory_buffer(&mut self, uid: &PartitionedUId, flight_id: u64, flight_len: u64) -> (r: Result<(), WorkerError>)
        requires
            old(self).wf(),
        ensures
            clear_spilled_post(
                *old(self),
                *final(self),
                uid@,
                flight_id as int,
                flight_len as int,
                r,
            ),
    {
        let ghost es = self.entries();
        match self.find_index(uid) {
            Some(k) => {
                proof {
                    lemma_find_entry_pos_valid(es, uid@);
                    assert(es[k as int].buffer.wf());
                    lemma_entries_total_member_le(es, k as int);
                }
                let mut e = self.state.remove(k);
                let cleared = e.buffer.clear(flight_id, flight_len);
                self.state.insert(k, e);
                match cleared {
                    Ok(_) => {
                        proof {
                            assert(self.entries() =~= es.update(
                                k as int,
                                self.entries()[k as int],
                            ));
                            let b = self.entries()[k as int].buffer;
                            crate::buffer::lemma_buffer_total_nonneg(&b);
                            crate::budget::lemma_budget_counters_in_range(old(self).budget_spec());
                            assert(0 <= flight_len as int);
                            assert(flight_len as int == es[k as int].buffer.total_size_spec()
                                - b.total_size_spec());
                            assert(flight_len as int <= i64::MAX);
                            assert(flight_len as int <= old(self).used_spec());
                        }
                        let dec = self.budget.dec_used(flight_len as i64);
                        proof {
                            lemma_entries_total_update(es, k as int, self.entries()[k as int]);
                            assert forall|i: int, j: int|
                                0 <= i < j < self.entries().len() implies (
                            #[trigger] self.entries()[i]).uid@ != (
                            #[trigger] self.entries()[j]).uid@ by {
                                assert(self.entries()[i].uid@ == es[i].uid@);
                                assert(self.entries()[j].uid@ == es[j].uid@);
                            }
                            assert forall|i: int| 0 <= i < self.entries().len() implies (
                            #[trigger] self.entries()[i]).buffer.wf() by {
                                if i != k as int {
                                    assert(self.entries()[i] == es[i]);
                                }
                            }
                        }
                        Ok(())
                    },
                    Err(_) => {
                        proof {
                            assert(self.entries() =~= es);
                        }
                        Err(WorkerError::INTERNAL_ERROR)
                    },
                }
            },
            None => Err(WorkerError::INTERNAL_ERROR),
        }
    }

    /// The byte size of one partition's buffer, staging and in-flight.
    pub fn get_partitioned_buffer_size(&self, uid: &PartitionedUId) -> (r: Result<u64, WorkerError>)
        requires
            self.wf(),
        ensures
            match buffer_of(self.entries(), uid@) {
                Some(b) => r == Ok::<u64, WorkerError>((b.total_size_spec()) as u64),
                None => r == Err::<u64, WorkerError>(WorkerError::PARTITION_DATA_NOT_FOUND),
            },
    {
        let ghost es = self.entries();
        match self.find_index(uid) {
            Some(k) => {
                proof {
                    lemma_find_entry_pos_valid(es, uid@);
                    assert(es[k as int].buffer.wf());
                    crate::buffer::lemma_buffer_total_nonneg(&es[k as int].buffer);
                }
                Ok(self.state[k].buffer.total_size() as u64)
            },
            None => Err(WorkerError::PARTITION_DATA_NOT_FOUND),
        }
    }

    pub fn register_app(&self, _app_id: &String) -> (r: Result<(), WorkerError>)
        ensures
            r is Ok,
    {
        Ok(())
    }

    pub fn is_healthy(&self) -> (r: Result<bool, WorkerError>)
        ensures
            r == Ok::<bool, WorkerError>(true),
    {
        Ok(true)
    }

    pub fn name(&self) -> (r: crate::config::StorageType)
        ensures
            r == crate::config::StorageType::MEMORY,
    {
        crate::config::StorageType::MEMORY
    }

    fn find_index(&self, uid: &PartitionedUId) -> (r: Option<usize>)
        ensures
            match r {
                Some(k) => find_entry_pos(self.entries(), uid@) == Some(k as int) && (k as int)
                    < self.entries().len(),
                None => find_entry_pos(self.entries(), uid@) is None,
            },
    {
        let ghost es = self.entries();
        let mut i: usize = 0;
        while i < self.state.len()
            invariant
                i <= self.state.len(),
                es == self.entries(),
                forall|j: int| 0 <= j < i ==> (#[trigger] es[j]).uid@ != uid@,
            decreases self.state.len() - i,
        {
            if self.state[i].uid.eq_uid(uid) {
                proof {
                    lemma_find_entry_at(es, uid@, i as int);
                }
                return Some(i);
            }
            i = i + 1;
        }
        proof {
            lemma_find_entry_none(es, uid@);
        }
        None
    }

    /// Admits `size` reserved bytes of blocks into the partition's staging
    /// region: the budget moves them from allocated to used and the buffer
    /// appends the blocks, both or neither.
    pub fn insert(&mut self, ctx: WritingViewContext) -> (r: Result<(), WorkerError>)
        requires
            old(self).wf(),
            ctx.wf(),
        ensures
            insert_post(*old(self), *final(self), ctx, r),
    {
        let WritingViewContext { uid, data_blocks, data_size } = ctx;
        proof {
            lemma_sum_lengths_nonneg(views_of(data_blocks@));
        }
        if data_size > self.budget.allocated() {
            return Err(WorkerError::INTERNAL_ERROR);
        }
        let ghost es = self.entries();
        let idx_opt = self.find_index(&uid);
        proof {
            lemma_entries_total_nonneg(es);
        }
        match self.budget.move_allocated_to_used(data_size) {
            Err(e) => {
                return Err(WorkerError::INTERNAL_ERROR);
            },
            Ok(_) => {},
        }
        let ghost bviews = views_of(data_blocks@);
        match idx_opt {
            Some(k) => {
                proof {
                    lemma_find_entry_pos_valid(es, uid@);
                    assert(es[k as int].buffer.wf());
                    lemma_entries_total_member_le(es, k as int);
                }
                let mut e = self.state.remove(k);
                proof {
                    crate::budget::lemma_budget_counters_in_range(old(self).budget);
                    assert(e.buffer == es[k as int].buffer);
                    assert(entries_total(es) <= old(self).used_spec());
                    assert(data_size <= old(self).allocated_spec());
                    assert(e.buffer.total_size_spec() + data_size <= i64::MAX);
                }
                let res = e.buffer.append(data_blocks, data_size);
                self.state.insert(k, e);
                proof {
                    assert(self.entries() =~= es.update(k as int, self.entries()[k as int]));
                    lemma_entries_total_update(es, k as int, self.entries()[k as int]);
                    assert forall|i: int, j: int|
                        0 <= i < j < self.entries().len() implies (
                    #[trigger] self.entries()[i]).uid@ != (#[trigger] self.entries()[j]).uid@ by {
                        assert(self.entries()[i].uid@ == es[i].uid@);
                        assert(self.entries()[j].uid@ == es[j].uid@);
                    }
                    assert forall|i: int| 0 <= i < self.entries().len() implies (
                    #[trigger] self.entries()[i]).buffer.wf() by {
                        if i != k as int {
                            assert(self.entries()[i] == es[i]);
                        }
                    }
                    lemma_find_entry_update_same_uid(es, k as int, self.entries()[k as int]);
                    let nb = self.entries()[k as int].buffer;
                    let ob = es[k as int].buffer;
                    assert(nb.combined_view() =~= ob.combined_view() + bviews);
                    assert forall|u: UidV| #[trigger] read_view(self.entries(), u) == (
                    if u == uid@ {
                        read_view(es, u) + bviews
                    } else {
                        read_view(es, u)
                    }) by {
                        assert(find_entry_pos(self.entries(), u) == find_entry_pos(es, u));
                        lemma_find_entry_pos_valid(es, u);
                        match find_entry_pos(es, u) {
                            Some(j) => {
                                if j != k as int {
                                    assert(self.entries()[j] == es[j]);
                                    assert(es[j].uid@ != uid@);
                                } else {
                                    assert(es[j].uid@ == uid@);
                                }
                            },
                            None => {
                                assert(u != uid@);
                            },
                        }
                    }
                }
                Ok(())
            },
            None => {
                let mut b = MemoryBuffer::new();
                let res = b.append(data_blocks, data_size);
                let entry = BufferEntry { uid, buffer: b };
                self.state.push(entry);
                proof {
                    assert(self.entries() =~= es.push(self.entries().last()));
                    lemma_entries_total_push(es, self.entries().last());
                    lemma_find_none_absent_entries(es, self.entries().last().uid@);
                    lemma_find_entry_push(es, self.entries().last());
                    let nb = self.entries().last().buffer;
                    assert(crate::buffer::flights_blocks(nb.flights_view())
                        =~= Seq::<BlockV>::empty());
                    assert(nb.combined_view() =~= bviews);
                    assert forall|u: UidV| #[trigger] read_view(self.entries(), u) == (
                    if u == uid@ {
                        read_view(es, u) + bviews
                    } else {
                        read_view(es, u)
                    }) by {
                        if u == uid@ {
                            assert(find_entry_pos(self.entries(), u) == Some(es.len() as int));
                            assert(find_entry_pos(es, u) is None);
                            assert(read_view(es, u) + bviews =~= bviews);
                        } else {
                            assert(find_entry_pos(self.entries(), u) == find_entry_pos(es, u));
                            lemma_find_entry_pos_valid(es, u);
                            match find_entry_pos(es, u) {
                                Some(j) => {
                                    assert(self.entries()[j] == es[j]);
                                },
                                None => {},
                            }
                        }
                    }
                    assert forall|i: int| 0 <= i < self.entries().len() implies (
                    #[trigger] self.entries()[i]).buffer.wf() by {
                        if i < es.len() {
                            assert(self.entries()[i] == es[i]);
                        }
                    }
                    assert forall|i: int, j: int|
                        0 <= i < j < self.entries().len() implies (
                    #[trigger] self.entries()[i]).uid@ != (#[trigger] self.entries()[j]).uid@ by {
                        if j < es.len() {
                            assert(self.entries()[i] == es[i]);
                            assert(self.entries()[j] == es[j]);
                        } else {
                            assert(self.entries()[i] == es[i]);
                        }
                    }
                }
                Ok(())
            },
        }
    }

    /// Reserves bytes for a later insert, recording a TTL'd ticket.
    /// `NO_ENOUGH_MEMORY_TO_BE_ALLOCATED` is the `NO_BUFFER` admission
    /// refusal: the reservation does not fit under capacity; nothing
    /// changes.
    pub fn require_buffer(&mut self, ctx: RequireBufferContext, now: u64) -> (r: Result<
        RequireBufferResponse,
        WorkerError,
    >)
        requires
            old(self).wf(),
            0 <= ctx.size,
        ensures
            final(self).wf(),
            r is Ok <==> (old(self).used_spec() + old(self).allocated_spec() + ctx.size <= old(self).budget_spec().capacity_spec() && old(self).budget_spec().ticket_counter_spec()
                < u64::MAX),
            r is Err ==> final(self).allocated_spec() == old(self).allocated_spec() && final(self).used_spec() == old(self).used_spec() && final(self).budget_spec().ticket_counter_spec()
                == old(self).budget_spec().ticket_counter_spec() && final(self).tickets() == old(self).tickets() && r == Err::<RequireBufferResponse, WorkerError>(
                WorkerError::NO_ENOUGH_MEMORY_TO_BE_ALLOCATED,
            ),
            r is Ok ==> final(self).allocated_spec() == old(self).allocated_spec() + ctx.size
                && final(self).used_spec() == old(self).used_spec(),
            r matches Ok(resp) ==> resp.ticket_id == old(self).budget_spec().ticket_counter_spec()
                && resp.allocated_timestamp == now && final(self).tickets() == old(self).tickets().push(
                TicketV {
                    ticket_id: resp.ticket_id as int,
                    size: ctx.size as int,
                    created_at: now as int,
                    app_id: ctx.uid@.app_id,
                },
            ),
            final(self).entries() == old(self).entries(),
            final(self).capacity_spec() == old(self).capacity_spec(),
            final(self).inflight_spec() == old(self).inflight_spec(),
            final(self).ticket_ttl_spec() == old(self).ticket_ttl_spec(),
    {
        let (succeed, ticket_id) = self.budget.require_allocated(ctx.size);
        if succeed {
            proof {
                assert(forall|j: int|
                    0 <= j < self.tickets().len() ==> (#[trigger] self.tickets()[j]).ticket_id
                        != ticket_id as int);
                crate::ticket::lemma_find_ticket_absent(self.tickets(), ticket_id as int);
            }
            self.ticket_manager.insert(ticket_id, ctx.size, now, &ctx.uid.app_id);
            Ok(RequireBufferResponse { ticket_id, allocated_timestamp: now })
        } else {
            Err(WorkerError::NO_ENOUGH_MEMORY_TO_BE_ALLOCATED)
        }
    }

    /// Releases a live ticket: its size goes back from allocated to free
    /// and is returned.  An unknown ticket is `TICKET_ID_NOT_EXIST`, with
    /// nothing changed.
    pub fn release_buffer(&mut self, ctx: ReleaseBufferContext) -> (r: Result<i64, WorkerError>)
        requires
            old(self).wf(),
        ensures
            final(self).wf(),
            r is Ok <==> find_ticket(old(self).tickets(), ctx.ticket_id as int) is Some,
            r is Err ==> final(self).tickets() == old(self).tickets() && final(self).allocated_spec()
                == old(self).allocated_spec() && r == Err::<i64, WorkerError>(
                WorkerError::TICKET_ID_NOT_EXIST,
            ),
            r matches Ok(size) ==> size == find_ticket(
                old(self).tickets(),
                ctx.ticket_id as int,
            )->0.size && final(self).tickets() == remove_ticket_id(
                old(self).tickets(),
                ctx.ticket_id as int,
            ) && final(self).allocated_spec() == (
                if size <= old(self).allocated_spec() {
                    old(self).allocated_spec() - size
                } else {
                    old(self).allocated_spec()
                }
            ),
            final(self).used_spec() == old(self).used_spec(),
            final(self).entries() == old(self).entries(),
            final(self).capacity_spec() == old(self).capacity_spec(),
            final(self).inflight_spec() == old(self).inflight_spec(),
            final(self).ticket_ttl_spec() == old(self).ticket_ttl_spec(),
    {
        proof {
            crate::ticket::lemma_find_ticket_member(old(self).tickets(), ctx.ticket_id as int);
            if find_ticket(old(self).tickets(), ctx.ticket_id as int) is Some {
                let t = find_ticket(old(self).tickets(), ctx.ticket_id as int)->0;
                let k = choose|k: int|
                    0 <= k < old(self).tickets().len() && #[trigger] old(self).tickets()[k] == t;
                assert(0 <= old(self).tickets()[k].size);
            }
        }
        let del = self.ticket_manager.delete(ctx.ticket_id);
        proof {
            crate::ticket::lemma_remove_ticket_id_subset(old(self).tickets(), ctx.ticket_id as int);
            assert forall|i: int| 0 <= i < self.tickets().len() implies (
            #[trigger] self.tickets()[i]).ticket_id
                < self.budget_spec().ticket_counter_spec() by {
                if del is Ok {
                    let rem = crate::ticket::remove_ticket_id(
                        old(self).tickets(),
                        ctx.ticket_id as int,
                    );
                    let k = choose|k: int|
                        0 <= k < old(self).tickets().len() && #[trigger] old(self).tickets()[k]
                            == rem[i];
                }
            }
        }
        match del {
            Ok(size) => {
                proof {
                    assert(0 <= size);
                }
                let _ = self.budget.dec_allocated(size);
                Ok(size)
            },
            Err(e) => Err(e),
        }
    }

    /// Lets every expired ticket go: each one's bytes return from
    /// allocated to free, in ticket order, skipping any that no longer fit.
    pub fn reap_expired_tickets(&mut self, now: u64) -> (r: Result<(), WorkerError>)
        requires
            old(self).wf(),
        ensures
            final(self).wf(),
            r is Ok,
            final(self).tickets() == tickets_where(
                old(self).tickets(),
                |t: TicketV| !crate::ticket::ticket_expired(t, now as int, old(self).ticket_ttl_spec()),
            ),
            final(self).allocated_spec() == release_fold(
                tickets_where(
                    old(self).tickets(),
                    |t: TicketV| crate::ticket::ticket_expired(t, now as int, old(self).ticket_ttl_spec()),
                ),
                old(self).allocated_spec(),
            ),
            final(self).used_spec() == old(self).used_spec(),
            final(self).entries() == old(self).entries(),
            final(self).capacity_spec() == old(self).capacity_spec(),
            final(self).inflight_spec() == old(self).inflight_spec(),
            final(self).ticket_ttl_spec() == old(self).ticket_ttl_spec(),
    {
        let ghost oldt = old(self).tickets();
        let ghost ttl0 = old(self).ticket_ttl_spec();
        let expired = self.ticket_manager.reap_expired(now);
        proof {
            let keep_pred = |t: TicketV| !crate::ticket::ticket_expired(t, now as int, ttl0);
            crate::ticket::lemma_tickets_where_wf(oldt, keep_pred);
            let fin = crate::ticket::tickets_where(oldt, keep_pred);
            assert forall|i: int| 0 <= i < self.tickets().len() implies (
            #[trigger] self.tickets()[i]).ticket_id
                < self.budget_spec().ticket_counter_spec() by {
                let k = choose|k: int| 0 <= k < oldt.len() && #[trigger] oldt[k] == fin[i];
            }
        }
        self.release_ticket_sizes(expired);
        Ok(())
    }

    /// Returns each ticket's bytes to free, in order, skipping any that no
    /// longer fit under `allocated`.
    fn release_ticket_sizes(&mut self, tickets: Vec<Ticket>)
        requires
            old(self).wf(),
            forall|i: int|
                0 <= i < crate::ticket::ticket_views(tickets@).len() ==> 0 <= (
                #[trigger] crate::ticket::ticket_views(tickets@)[i]).size,
        ensures
            final(self).wf(),
            final(self).allocated_spec() == release_fold(
                crate::ticket::ticket_views(tickets@),
                old(self).allocated_spec(),
            ),
            final(self).used_spec() == old(self).used_spec(),
            final(self).entries() == old(self).entries(),
            final(self).tickets() == old(self).tickets(),
            final(self).capacity_spec() == old(self).capacity_spec(),
            final(self).inflight_spec() == old(self).inflight_spec(),
            final(self).ticket_ttl_spec() == old(self).ticket_ttl_spec(),
    {
        let ghost tv = crate::ticket::ticket_views(tickets@);
        let mut k: usize = 0;
        proof {
            assert(tv.skip(0) =~= tv);
        }
        while k < tickets.len()
            invariant
                k <= tickets.len(),
                tv == crate::ticket::ticket_views(tickets@),
                forall|i: int| 0 <= i < tv.len() ==> 0 <= (#[trigger] tv[i]).size,
                self.wf(),
                release_fold(tv, old(self).allocated_spec()) == release_fold(
                    tv.skip(k as int),
                    self.allocated_spec(),
                ),
                self.used_spec() == old(self).used_spec(),
                self.entries() == old(self).entries(),
                self.tickets() == old(self).tickets(),
                self.capacity_spec() == old(self).capacity_spec(),
                self.inflight_spec() == old(self).inflight_spec(),
                self.ticket_ttl_spec() == old(self).ticket_ttl_spec(),
            decreases tickets.len() - k,
        {
            proof {
                assert(tv.skip(k as int).len() == tv.len() - k);
                assert(tv.skip(k as int)[0] == tv[k as int]);
                assert(tv[k as int] == tickets@[k as int]@);
                assert(tv.skip(k as int).drop_first() =~= tv.skip(k as int + 1));
            }
            let size = tickets[k].size;
            let _ = self.budget.dec_allocated(size);
            k = k + 1;
        }
        proof {
            assert(tv.skip(tickets@.len() as int) =~= Seq::<TicketV>::empty());
        }
    }
}

/// A found position holds the looked-up id.
pub proof fn lemma_find_entry_pos_valid(s: Seq<BufferEntry>, uid: UidV)
    ensures
        find_entry_pos(s, uid) matches Some(k) ==> 0 <= k < s.len() && s[k].uid@ == uid,
    decreases s.len(),
{
    if s.len() > 0 && s[0].uid@ != uid {
        lemma_find_entry_pos_valid(s.drop_first(), uid);
        match find_entry_pos(s.drop_first(), uid) {
            Some(k) => {
                assert(s.drop_first()[k] == s[k + 1]);
            },
            None => {},
        }
    }
}


/// What a read sees of one partition: its combined view, or nothing.
pub open spec fn read_view(s: Seq<BufferEntry>, uid: UidV) -> Seq<BlockV> {
    match buffer_of(s, uid) {
        Some(b) => b.combined_view(),
        None => Seq::empty(),
    }
}

/// Segment descriptors mirror the blocks: same metadata, offsets running
/// over the blocks' lengths in order.
pub open spec fn segments_match(segs: Seq<DataSegment>, blocks: Seq<BlockV>) -> bool {
    &&& segs.len() == blocks.len()
    &&& forall|i: int|
        0 <= i < segs.len() ==> ((#[trigger] segs[i]).block_id == blocks[i].block_id
            && segs[i].length == blocks[i].length && segs[i].uncompress_length
            == blocks[i].uncompress_length && segs[i].crc == blocks[i].crc
            && segs[i].task_attempt_id == blocks[i].task_attempt_id && segs[i].offset
            == sum_lengths(blocks.take(i)))
}

/// Renders read blocks as segment descriptors over one byte buffer.
fn build_memory_response(blocks: &Vec<Block>, read_len: i64) -> (r: PartitionedMemoryData)
    requires
        blocks_wf(views_of(blocks@)),
        read_len == sum_lengths(views_of(blocks@)),
    ensures
        segments_match(r.shuffle_data_block_segments@, views_of(blocks@)),
        r.data@ == crate::block::concat_data(views_of(blocks@)),
{
    let ghost bv = views_of(blocks@);
    let mut segments: Vec<DataSegment> = Vec::new();
    let mut data: Vec<u8> = Vec::new();
    let mut offset: i64 = 0;
    let mut i: usize = 0;
    proof {
        assert(bv.take(0) =~= Seq::<BlockV>::empty());
        assert(data@ =~= crate::block::concat_data(bv.take(0)));
    }
    while i < blocks.len()
        invariant
            i <= blocks.len(),
            bv == views_of(blocks@),
            blocks_wf(bv),
            sum_lengths(bv) <= i64::MAX,
            offset == sum_lengths(bv.take(i as int)),
            segments_match(segments@, bv.take(i as int)),
            data@ == crate::block::concat_data(bv.take(i as int)),
        decreases blocks.len() - i,
    {
        proof {
            assert(bv.take(i as int + 1).drop_last() =~= bv.take(i as int));
            assert(bv.take(i as int + 1).last() == bv[i as int]);
            assert(bv[i as int] == blocks@[i as int]@);
            lemma_sum_lengths_take_le(bv, i as int);
            lemma_sum_lengths_take_le(bv, i as int + 1);
            crate::block::lemma_concat_data_take_step(bv, i as int);
        }
        let block = &blocks[i];
        let ghost psegs = segments@;
        segments.push(
            DataSegment {
                block_id: block.block_id,
                offset,
                length: block.length,
                uncompress_length: block.uncompress_length,
                crc: block.crc,
                task_attempt_id: block.task_attempt_id,
            },
        );
        append_bytes_to(&mut data, &block.data);
        offset = offset + block.length as i64;
        proof {
            assert forall|j: int| 0 <= j < segments@.len() implies ((
            #[trigger] segments@[j]).block_id == bv.take(i as int + 1)[j].block_id
                && segments@[j].length == bv.take(i as int + 1)[j].length
                && segments@[j].uncompress_length == bv.take(i as int + 1)[j].uncompress_length
                && segments@[j].crc == bv.take(i as int + 1)[j].crc && segments@[j].task_attempt_id
                == bv.take(i as int + 1)[j].task_attempt_id && segments@[j].offset == sum_lengths(
                bv.take(i as int + 1).take(j),
            )) by {
                assert(bv.take(i as int + 1).take(j) =~= bv.take(j));
                if j < i as int {
                    assert(segments@[j] == psegs[j]);
                    assert(bv.take(i as int + 1)[j] == bv.take(i as int)[j]);
                    assert(bv.take(i as int)[j] == bv[j]);
                    assert(bv.take(i as int).take(j) =~= bv.take(j));
                }
            }
        }
        i = i + 1;
    }
    proof {
        assert(bv.take(blocks@.len() as int) =~= bv);
    }
    PartitionedMemoryData { shuffle_data_block_segments: segments, data }
}

/// Appends `src`'s bytes to `dst`.
fn append_bytes_to(dst: &mut Vec<u8>, src: &Vec<u8>)
    ensures
        final(dst)@ == old(dst)@ + src@,
{
    crate::block::append_bytes(dst, src)
}

proof fn lemma_entries_where_push(s: Seq<BufferEntry>, e: BufferEntry, pred: spec_fn(BufferEntry) -> bool)
    ensures
        entries_where(s.push(e), pred) == if pred(e) {
            entries_where(s, pred).push(e)
        } else {
            entries_where(s, pred)
        },
{
    assert(s.push(e).drop_last() =~= s);
}

/// Selection keeps distinct ids, and every kept entry was present before.
proof fn lemma_entries_where_wf(s: Seq<BufferEntry>, pred: spec_fn(BufferEntry) -> bool)
    requires
        forall|i: int, j: int| 0 <= i < j < s.len() ==> (#[trigger] s[i]).uid@ != (#[trigger] s[j]).uid@,
    ensures
        forall|i: int, j: int|
            0 <= i < j < entries_where(s, pred).len() ==> (#[trigger] entries_where(s, pred)[i]).uid@
                != (#[trigger] entries_where(s, pred)[j]).uid@,
        forall|i: int| #![trigger entries_where(s, pred)[i]]
            0 <= i < entries_where(s, pred).len() ==> exists|k: int|
                0 <= k < s.len() && #[trigger] s[k] == entries_where(s, pred)[i],
    decreases s.len(),
{
    if s.len() > 0 {
        let d = s.drop_last();
        assert(forall|i: int, j: int|
            0 <= i < j < d.len() ==> (#[trigger] d[i]).uid@ != (#[trigger] d[j]).uid@);
        lemma_entries_where_wf(d, pred);
        let w = entries_where(s, pred);
        let wd = entries_where(d, pred);
        if pred(s.last()) {
            assert(w == wd.push(s.last()));
            assert forall|i: int, j: int| 0 <= i < j < w.len() implies (#[trigger] w[i]).uid@ != (
            #[trigger] w[j]).uid@ by {
                if j < w.len() - 1 {
                } else {
                    let k = choose|k: int| 0 <= k < d.len() && #[trigger] d[k] == wd[i];
                    assert(s[k] == w[i]);
                    assert(s.last() == s[s.len() - 1]);
                }
            }
            assert forall|i: int| #![trigger w[i]] 0 <= i < w.len() implies exists|k: int|
                0 <= k < s.len() && #[trigger] s[k] == w[i] by {
                if i < w.len() - 1 {
                    let k = choose|k: int| 0 <= k < d.len() && #[trigger] d[k] == wd[i];
                    assert(s[k] == w[i]);
                } else {
                    assert(s[s.len() - 1] == w[i]);
                }
            }
        } else {
            assert forall|i: int| #![trigger w[i]] 0 <= i < w.len() implies exists|k: int|
                0 <= k < s.len() && #[trigger] s[k] == w[i] by {
                let k = choose|k: int| 0 <= k < d.len() && #[trigger] d[k] == wd[i];
                assert(s[k] == w[i]);
            }
        }
    }
}

/// The buffered bytes of a split add up to those of the whole.
proof fn lemma_entries_total_split(s: Seq<BufferEntry>, pred: spec_fn(BufferEntry) -> bool)
    ensures
        entries_total(entries_where(s, pred)) + entries_total(
            entries_where(s, |e: BufferEntry| !(pred(e))),
        ) == entries_total(s),
    decreases s.len(),
{
    if s.len() > 0 {
        let d = s.drop_last();
        lemma_entries_total_split(d, pred);
        if pred(s.last()) {
            lemma_entries_total_push_entry(entries_where(d, pred), s.last());
        } else {
            lemma_entries_total_push_entry(entries_where(d, |e: BufferEntry| !(pred(e))), s.last());
        }
    }
}

proof fn lemma_entries_total_push_entry(s: Seq<BufferEntry>, e: BufferEntry)
    ensures
        entries_total(s.push(e)) == entries_total(s) + e.buffer.total_size_spec(),
{
    assert(s.push(e).drop_last() =~= s);
}

/// The buffered bytes of any selection are nonnegative, for well-formed
/// buffers.
proof fn lemma_entries_total_where_nonneg(s: Seq<BufferEntry>, pred: spec_fn(BufferEntry) -> bool)
    requires
        forall|i: int| 0 <= i < s.len() ==> (#[trigger] s[i]).buffer.wf(),
    ensures
        0 <= entries_total(entries_where(s, pred)),
    decreases s.len(),
{
    if s.len() == 0 {
    } else {
        let d = s.drop_last();
        assert(forall|i: int| 0 <= i < d.len() ==> (#[trigger] d[i]).buffer.wf());
        lemma_entries_total_where_nonneg(d, pred);
        if pred(s.last()) {
            lemma_entries_total_push_entry(entries_where(d, pred), s.last());
            let b = s.last().buffer;
            crate::buffer::lemma_buffer_total_nonneg(&b);
        }
    }
}

/// One candidate for spilling, in executable form.
struct SpillPair {
    uid: PartitionedUId,
    staging: i64,
}

spec fn pair_views(s: Seq<SpillPair>) -> Seq<SpillPairV> {
    Seq::new(s.len(), |i: int| SpillPairV { uid: s[i].uid@, staging: s[i].staging as int })
}

/// The executable form of `pick_candidates`: repeatedly take the first
/// largest staging region until `needed` is covered.
fn pick_spill_rec(pairs: Vec<SpillPair>, needed: i64, out: &mut Vec<PartitionedUId>)
    requires
        forall|i: int|
            0 <= i < pair_views(pairs@).len() ==> 0 <= (#[trigger] pair_views(pairs@)[i]).staging,
    ensures
        uid_views(final(out)@) == uid_views(old(out)@) + pick_candidates(
            pair_views(pairs@),
            needed as int,
        ),
    decreases pairs@.len(),
{
    let ghost pv = pair_views(pairs@);
    if needed <= 0 || pairs.len() == 0 {
        proof {
            assert(uid_views(out@) + Seq::<UidV>::empty() =~= uid_views(out@));
        }
        return ;
    }
    let m = find_first_max(&pairs);
    proof {
        lemma_first_max_in_range(pv);
    }
    let mut pairs = pairs;
    let ghost old_pairs = pairs@;
    let pair = pairs.remove(m);
    let ghost pmid = pv[m as int];
    proof {
        assert(pair.uid@ == pv[m as int].uid && pair.staging as int == pv[m as int].staging);
        assert forall|j: int| 0 <= j < pairs@.len() implies pair_views(pairs@)[j] == pv.remove(
            m as int,
        )[j] by {
            if j < m as int {
                assert(pairs@[j] == old_pairs[j]);
            } else {
                assert(pairs@[j] == old_pairs[j + 1]);
            }
        }
        assert(pair_views(pairs@) =~= pv.remove(m as int));
    }
    let ghost pout = uid_views(out@);
    out.push(pair.uid);
    proof {
        assert(uid_views(out@) =~= pout.push(pmid.uid));
        assert(0 <= pmid.staging);
        assert forall|i: int|
            0 <= i < pair_views(pairs@).len() implies 0 <= (
        #[trigger] pair_views(pairs@)[i]).staging by {
            if i < m as int {
                assert(pair_views(pairs@)[i] == pv[i]);
            } else {
                assert(pair_views(pairs@)[i] == pv[i + 1]);
            }
        }
    }
    pick_spill_rec(pairs, needed - pair.staging, out);
    proof {
        assert(pout.push(pmid.uid) + pick_candidates(pv.remove(m as int), needed - pmid.staging)
            =~= pout + (seq![pmid.uid] + pick_candidates(
            pv.remove(m as int),
            needed - pmid.staging,
        )));
    }
}

/// Finds the first index with the largest staging size.
fn find_first_max(pairs: &Vec<SpillPair>) -> (r: usize)
    requires
        pairs@.len() > 0,
    ensures
        r as int == first_max_idx(pair_views(pairs@)),
        (r as int) < pairs@.len(),
    {
    let ghost pv = pair_views(pairs@);
    let mut m: usize = 0;
    let mut j: usize = 1;
    proof {
        assert(pv.take(1).len() == 1);
        assert(first_max_idx(pv.take(1)) == 0);
    }
    while j < pairs.len()
        invariant
            1 <= j <= pairs.len(),
            m < j,
            pv == pair_views(pairs@),
            m as int == first_max_idx(pv.take(j as int)),
        decreases pairs.len() - j,
    {
        proof {
            assert(pv.take(j as int + 1).drop_last() =~= pv.take(j as int));
            assert(pv.take(j as int + 1).last() == pv[j as int]);
            lemma_first_max_in_range(pv.take(j as int));
            assert(pv.take(j as int)[m as int] == pv[m as int]);
            assert(pv[j as int].staging == pairs@[j as int].staging as int);
            assert(pv[m as int].staging == pairs@[m as int].staging as int);
        }
        if pairs[j].staging > pairs[m].staging {
            m = j;
        }
        j = j + 1;
    }
    proof {
        assert(pv.take(pairs@.len() as int) =~= pv);
    }
    m
}

/// The total buffered bytes over a vector of entries.
fn entries_total_size(entries: &Vec<BufferEntry>) -> (r: i64)
    requires
        forall|i: int| 0 <= i < entries@.len() ==> (#[trigger] entries@[i]).buffer.wf(),
        entries_total(entries@) <= i64::MAX,
    ensures
        r == entries_total(entries@),
{
    let mut acc: i64 = 0;
    let mut k: usize = 0;
    proof {
        assert(entries@.take(0) =~= Seq::<BufferEntry>::empty());
    }
    while k < entries.len()
        invariant
            k <= entries.len(),
            forall|i: int| 0 <= i < entries@.len() ==> (#[trigger] entries@[i]).buffer.wf(),
            entries_total(entries@) <= i64::MAX,
            acc == entries_total(entries@.take(k as int)),
        decreases entries.len() - k,
    {
        proof {
            assert(entries@.take(k as int + 1).drop_last() =~= entries@.take(k as int));
            assert(entries@.take(k as int + 1).last() == entries@[k as int]);
            lemma_entries_total_take_le(entries@, k as int);
            lemma_entries_total_take_le(entries@, k as int + 1);
            let b = entries@[k as int].buffer;
            crate::buffer::lemma_buffer_total_nonneg(&b);
        }
        acc = acc + entries[k].buffer.total_size();
        k = k + 1;
    }
    proof {
        assert(entries@.take(entries@.len() as int) =~= entries@);
    }
    acc
}

proof fn lemma_entries_total_take_le(s: Seq<BufferEntry>, k: int)
    requires
        forall|i: int| 0 <= i < s.len() ==> (#[trigger] s[i]).buffer.wf(),
        0 <= k <= s.len(),
    ensures
        entries_total(s.take(k)) <= entries_total(s),
        0 <= entries_total(s.take(k)),
    decreases s.len() - k,
{
    assert(forall|i: int| 0 <= i < s.take(k).len() ==> (#[trigger] s.take(k)[i]).buffer.wf());
    lemma_entries_total_nonneg(s.take(k));
    if k < s.len() {
        assert(s.take(k + 1).drop_last() =~= s.take(k));
        assert(s.take(k + 1).last() == s[k]);
        let b = s[k].buffer;
        crate::buffer::lemma_buffer_total_nonneg(&b);
        lemma_entries_total_take_le(s, k + 1);
        assert(s.take(s.len() as int) =~= s);
    } else {
        assert(s.take(k) =~= s);
    }
}

/// Purging twice is idempotent: after one purge removed the scope, a
/// second purge of the same scope selects nothing (its removed total is
/// the empty selection's, zero) and keeps the entries unchanged.
pub proof fn lemma_purge_idempotent(s: Seq<BufferEntry>, app_id: Seq<char>, shuffle_id: Option<i32>)
    ensures
        entries_where(
            entries_where(s, |e: BufferEntry| !entry_in_purge_scope(e, app_id, shuffle_id)),
            |e: BufferEntry| entry_in_purge_scope(e, app_id, shuffle_id),
        ) == Seq::<BufferEntry>::empty(),
        entries_total(
            entries_where(
                entries_where(s, |e: BufferEntry| !entry_in_purge_scope(e, app_id, shuffle_id)),
                |e: BufferEntry| entry_in_purge_scope(e, app_id, shuffle_id),
            ),
        ) == 0,
        entries_where(
            entries_where(s, |e: BufferEntry| !entry_in_purge_scope(e, app_id, shuffle_id)),
            |e: BufferEntry| !entry_in_purge_scope(e, app_id, shuffle_id),
        ) == entries_where(s, |e: BufferEntry| !entry_in_purge_scope(e, app_id, shuffle_id)),
{
    let np = |e: BufferEntry| !entry_in_purge_scope(e, app_id, shuffle_id);
    let p = |e: BufferEntry| entry_in_purge_scope(e, app_id, shuffle_id);
    let kept = entries_where(s, np);
    lemma_entries_where_satisfy(s, np);
    lemma_entries_where_none(kept, p);
    lemma_entries_where_all(kept, np);
}

/// Every selected entry satisfies the selecting predicate.
proof fn lemma_entries_where_satisfy(s: Seq<BufferEntry>, pred: spec_fn(BufferEntry) -> bool)
    ensures
        forall|i: int|
            0 <= i < entries_where(s, pred).len() ==> pred(#[trigger] entries_where(s, pred)[i]),
    decreases s.len(),
{
    if s.len() > 0 {
        let d = s.drop_last();
        lemma_entries_where_satisfy(d, pred);
        let w = entries_where(s, pred);
        let wd = entries_where(d, pred);
        if pred(s.last()) {
            assert forall|i: int| 0 <= i < w.len() implies pred(#[trigger] w[i]) by {
                if i < w.len() - 1 {
                    assert(w[i] == wd[i]);
                }
            }
        }
    }
}

proof fn lemma_entries_where_none(s: Seq<BufferEntry>, pred: spec_fn(BufferEntry) -> bool)
    requires
        forall|j: int| 0 <= j < s.len() ==> !pred(#[trigger] s[j]),
    ensures
        entries_where(s, pred) == Seq::<BufferEntry>::empty(),
        entries_total(entries_where(s, pred)) == 0,
    decreases s.len(),
{
    if s.len() > 0 {
        let d = s.drop_last();
        assert(forall|j: int| 0 <= j < d.len() ==> !pred(#[trigger] d[j]));
        lemma_entries_where_none(d, pred);
        assert(!pred(s.last()));
    }
}

proof fn lemma_entries_where_all(s: Seq<BufferEntry>, pred: spec_fn(BufferEntry) -> bool)
    requires
        forall|j: int| 0 <= j < s.len() ==> pred(#[trigger] s[j]),
    ensures
        entries_where(s, pred) == s,
    decreases s.len(),
{
    if s.len() > 0 {
        let d = s.drop_last();
        assert(forall|j: int| 0 <= j < d.len() ==> pred(#[trigger] d[j]));
        lemma_entries_where_all(d, pred);
        assert(pred(s.last()));
        assert(entries_where(s, pred) =~= s);
    }
}

/// Replacing an entry with one of the same partition id moves no
/// partition: every lookup lands where it did.
pub proof fn lemma_find_entry_update_same_uid(s: Seq<BufferEntry>, k: int, e: BufferEntry)
    requires
        0 <= k < s.len(),
        e.uid@ == s[k].uid@,
    ensures
        forall|u: UidV| #[trigger] find_entry_pos(s.update(k, e), u) == find_entry_pos(s, u),
{
    assert forall|u: UidV| #[trigger] find_entry_pos(s.update(k, e), u) == find_entry_pos(
        s,
        u,
    ) by {
        lemma_find_entry_update_same_uid_one(s, k, e, u);
    }
}

proof fn lemma_find_entry_update_same_uid_one(s: Seq<BufferEntry>, k: int, e: BufferEntry, u: UidV)
    requires
        0 <= k < s.len(),
        e.uid@ == s[k].uid@,
    ensures
        find_entry_pos(s.update(k, e), u) == find_entry_pos(s, u),
    decreases s.len(),
{
    let w = s.update(k, e);
    if k == 0 {
        assert(w[0].uid@ == s[0].uid@);
        assert(w.drop_first() =~= s.drop_first());
    } else {
        assert(w[0] == s[0]);
        assert(w.drop_first() =~= s.drop_first().update(k - 1, e));
        assert(s.drop_first()[k - 1] == s[k]);
        lemma_find_entry_update_same_uid_one(s.drop_first(), k - 1, e, u);
    }
}

/// Appending an entry with a fresh partition id leaves every other lookup
/// unchanged and makes the new id land on the appended entry.
pub proof fn lemma_find_entry_push(s: Seq<BufferEntry>, e: BufferEntry)
    requires
        forall|j: int| 0 <= j < s.len() ==> (#[trigger] s[j]).uid@ != e.uid@,
    ensures
        find_entry_pos(s.push(e), e.uid@) == Some(s.len() as int),
        forall|u: UidV|
            u != e.uid@ ==> #[trigger] find_entry_pos(s.push(e), u) == find_entry_pos(s, u),
    decreases s.len(),
{
    lemma_find_entry_at(s.push(e), e.uid@, s.len() as int);
    assert forall|u: UidV| u != e.uid@ implies #[trigger] find_entry_pos(s.push(e), u)
        == find_entry_pos(s, u) by {
        lemma_find_entry_push_other(s, e, u);
    }
}

proof fn lemma_find_entry_push_other(s: Seq<BufferEntry>, e: BufferEntry, u: UidV)
    requires
        u != e.uid@,
    ensures
        find_entry_pos(s.push(e), u) == find_entry_pos(s, u),
    decreases s.len(),
{
    let w = s.push(e);
    if s.len() == 0 {
        assert(w[0] == e);
        assert(w.drop_first() =~= Seq::<BufferEntry>::empty());
    } else {
        assert(w[0] == s[0]);
        assert(w.drop_first() =~= s.drop_first().push(e));
        lemma_find_entry_push_other(s.drop_first(), e, u);
    }
}

proof fn lemma_find_entry_at(s: Seq<BufferEntry>, uid: UidV, i: int)
    requires
        0 <= i < s.len(),
        s[i].uid@ == uid,
        forall|j: int| 0 <= j < i ==> (#[trigger] s[j]).uid@ != uid,
    ensures
        find_entry_pos(s, uid) == Some(i),
    decreases s.len(),
{
    if i == 0 {
    } else {
        let d = s.drop_first();
        assert(d[i - 1] == s[i]);
        assert(forall|j: int| 0 <= j < i - 1 ==> (#[trigger] d[j]).uid@ != uid);
        lemma_find_entry_at(d, uid, i - 1);
    }
}

proof fn lemma_find_entry_none(s: Seq<BufferEntry>, uid: UidV)
    requires
        forall|j: int| 0 <= j < s.len() ==> (#[trigger] s[j]).uid@ != uid,
    ensures
        find_entry_pos(s, uid) is None,
    decreases s.len(),
{
    if s.len() > 0 {
        let d = s.drop_first();
        assert(forall|j: int| 0 <= j < d.len() ==> (#[trigger] d[j]).uid@ != uid);
        lemma_find_entry_none(d, uid);
    }
}

proof fn lemma_find_none_absent_entries(s: Seq<BufferEntry>, uid: UidV)
    requires
        find_entry_pos(s, uid) is None,
    ensures
        forall|j: int| 0 <= j < s.len() ==> (#[trigger] s[j]).uid@ != uid,
    decreases s.len(),
{
    if s.len() > 0 {
        lemma_find_none_absent_entries(s.drop_first(), uid);
        assert forall|j: int| 0 <= j < s.len() implies (#[trigger] s[j]).uid@ != uid by {
            if j > 0 {
                assert(s.drop_first()[j - 1] == s[j]);
            }
        }
    }
}

pub proof fn lemma_entries_total_nonneg(s: Seq<BufferEntry>)
    requires
        forall|i: int| 0 <= i < s.len() ==> (#[trigger] s[i]).buffer.wf(),
    ensures
        0 <= entries_total(s),
    decreases s.len(),
{
    if s.len() > 0 {
        let d = s.drop_last();
        assert(forall|i: int| 0 <= i < d.len() ==> (#[trigger] d[i]).buffer.wf());
        lemma_entries_total_nonneg(d);
        let b = s.last().buffer;
        crate::buffer::lemma_buffer_total_nonneg(&b);
    }
}

pub proof fn lemma_entries_total_update(s: Seq<BufferEntry>, k: int, e: BufferEntry)
    requires
        0 <= k < s.len(),
    ensures
        entries_total(s.update(k, e)) == entries_total(s) - s[k].buffer.total_size_spec()
            + e.buffer.total_size_spec(),
    decreases s.len(),
{
    if s.len() > 0 {
        if k == s.len() - 1 {
            assert(s.update(k, e).drop_last() =~= s.drop_last());
            assert(s.update(k, e).last() == e);
        } else {
            assert(s.update(k, e).drop_last() =~= s.drop_last().update(k, e));
            assert(s.update(k, e).last() == s.last());
            assert(s.drop_last()[k] == s[k]);
            lemma_entries_total_update(s.drop_last(), k, e);
        }
    }
}

pub proof fn lemma_entries_total_push(s: Seq<BufferEntry>, e: BufferEntry)
    ensures
        entries_total(s.push(e)) == entries_total(s) + e.buffer.total_size_spec(),
{
    assert(s.push(e).drop_last() =~= s);
}

/// One entry's buffered bytes never exceed the total, when buffers are
/// well formed.
pub proof fn lemma_entries_total_member_le(s: Seq<BufferEntry>, k: int)
    requires
        0 <= k < s.len(),
        forall|i: int| 0 <= i < s.len() ==> (#[trigger] s[i]).buffer.wf(),
    ensures
        s[k].buffer.total_size_spec() <= entries_total(s),
    decreases s.len(),
{
    let d = s.drop_last();
    assert(forall|i: int| 0 <= i < d.len() ==> (#[trigger] d[i]).buffer.wf());
    if k == s.len() - 1 {
        lemma_entries_total_nonneg(d);
    } else {
        lemma_entries_total_member_le(d, k);
        let b = s.last().buffer;
        crate::buffer::lemma_buffer_total_nonneg(&b);
        assert(d[k] == s[k]);
    }
}

} // verus!
