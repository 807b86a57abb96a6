use crate::block::{blocks_wf, clone_string, sum_lengths, views_of, BlockV, PartitionedUId, UidV};
use crate::budget::CapacitySnapshot;
use crate::config::{Config, HybridStoreConfig, StorageType};
use crate::context::{
    PartitionedMemoryData, PurgeDataContext, ReadingIndexViewContext, ReadingOptions,
    ReadingViewContext, RegisterAppContext, ReleaseBufferContext, ReleaseTicketContext,
    RequireBufferContext, RequireBufferResponse, SpillWritingViewContext, WritingViewContext,
};
use crate::error::WorkerError;
use crate::event_bus::EventBus;
use crate::localfile::{LocalAppendPlan, LocalFileStore, LocalReadPlan};
use crate::memstore::MemoryStore;
use crate::remote::{HdfsStore, RemoteAppendPlan};
use vstd::prelude::*;

verus! {

/// A tier that persists spilled data: the local-disk store or the remote
/// filesystem store, held as a tagged handle.
pub enum PersistentTierStore {
    LOCALFILE(LocalFileStore),
    HDFS(HdfsStore),
}

/// The capability every persistent tier offers: it names its storage
/// kind, so the hybrid store can compose tagged handles.
pub trait PersistentStore {
    fn storage_kind(&self) -> StorageType;
}

impl PersistentStore for LocalFileStore {
    fn storage_kind(&self) -> (r: StorageType)
        ensures
            r == StorageType::LOCALFILE,
    {
        StorageType::LOCALFILE
    }
}

impl PersistentStore for HdfsStore {
    fn storage_kind(&self) -> (r: StorageType)
        ensures
            r == StorageType::HDFS,
    {
        StorageType::HDFS
    }
}

impl PersistentTierStore {
    pub open spec fn wf(&self) -> bool {
        match self {
            PersistentTierStore::LOCALFILE(s) => s.wf(),
            PersistentTierStore::HDFS(s) => s.wf(),
        }
    }

    /// A local tier is healthy while a disk is alive; the remote tier is
    /// taken to be always healthy.
    pub open spec fn healthy_spec(&self) -> bool {
        match self {
            PersistentTierStore::LOCALFILE(s) => crate::localfile::alive_indices(
                s.disks_spec(),
            ).len() > 0,
            PersistentTierStore::HDFS(_) => true,
        }
    }

    pub fn is_healthy(&self) -> (r: Result<bool, WorkerError>)
        ensures
            r == Ok::<bool, WorkerError>(self.healthy_spec()),
    {
        match self {
            PersistentTierStore::LOCALFILE(s) => s.is_healthy(),
            PersistentTierStore::HDFS(s) => s.is_healthy(),
        }
    }

    pub fn name(&self) -> (r: StorageType)
        ensures
            r == (match self {
                PersistentTierStore::LOCALFILE(_) => StorageType::LOCALFILE,
                PersistentTierStore::HDFS(_) => StorageType::HDFS,
            }),
    {
        match self {
            PersistentTierStore::LOCALFILE(_) => StorageType::LOCALFILE,
            PersistentTierStore::HDFS(_) => StorageType::HDFS,
        }
    }
}

/// One spill hand-off in transit: the partition, its blocks, the byte
/// size, how often the write failed, the tier the last attempt used and
/// the flight id that releases the memory once a tier acknowledged.
pub struct SpillMessage {
    pub ctx: SpillWritingViewContext,
    pub size: i64,
    pub retry_cnt: u16,
    pub previous_spilled_storage: Option<StorageType>,
    pub flight_id: u64,
}

/// A queued spill message carries well-formed blocks whose lengths sum to
/// its size.
pub open spec fn spill_message_wf(m: SpillMessage) -> bool {
    &&& blocks_wf(views_of(m.ctx.data_blocks@))
    &&& m.size == sum_lengths(views_of(m.ctx.data_blocks@))
}

/// What one spill delivery writes, on the tier that was selected.
pub enum SpillPlan {
    LOCALFILE(LocalAppendPlan),
    HDFS(RemoteAppendPlan),
}

/// A read response: bytes straight from memory, or the file location the
/// caller reads from local disk.
pub enum ResponseData {
    Mem(PartitionedMemoryData),
    Local(LocalReadPlan),
}

/// Which tier a spill delivery goes to.
#[allow(non_camel_case_types)]
#[derive(Clone, Copy, Debug, PartialEq, Eq, Structural)]
pub enum SpillTier {
    WARM,
    COLD,
}

/// Tier selection for one spill delivery: a retried message always goes
/// cold; otherwise a healthy warm tier takes it unless it is larger than
/// the cold threshold.
pub open spec fn select_tier_spec(
    warm_healthy: bool,
    size: int,
    threshold: Option<u64>,
    retry_cnt: int,
) -> SpillTier {
    if retry_cnt >= 1 {
        SpillTier::COLD
    } else if warm_healthy && (match threshold {
        Some(t) => size <= t,
        None => true,
    }) {
        SpillTier::WARM
    } else {
        SpillTier::COLD
    }
}

/// Executable tier selection, exactly `select_tier_spec`.
pub fn select_spill_tier(warm_healthy: bool, size: i64, threshold: Option<u64>, retry_cnt: u16) -> (r:
    SpillTier)
    requires
        0 <= size,
    ensures
        r == select_tier_spec(warm_healthy, size as int, threshold, retry_cnt as int),
{
    if retry_cnt >= 1 {
        SpillTier::COLD
    } else if warm_healthy {
        match threshold {
            Some(t) => {
                if (size as u64) <= t {
                    SpillTier::WARM
                } else {
                    SpillTier::COLD
                }
            },
            None => SpillTier::WARM,
        }
    } else {
        SpillTier::COLD
    }
}

/// Composes the hot (memory), warm and cold tiers: admission and reads go
/// hot; a watermark crossing drains staged buffers into spill messages;
/// each message is delivered to the selected persistent tier by the
/// caller, who reports the outcome back.
pub struct HybridStore {
    hot_store: MemoryStore,
    warm_store: Option<PersistentTierStore>,
    cold_store: Option<PersistentTierStore>,
    config: HybridStoreConfig,
    memory_spill_event_num: u64,
    event_bus: EventBus<SpillMessage>,
}

impl HybridStore {
    pub closed spec fn hot_spec(&self) -> MemoryStore {
        self.hot_store
    }

    pub closed spec fn warm_spec(&self) -> Option<PersistentTierStore> {
        self.warm_store
    }

    pub closed spec fn cold_spec(&self) -> Option<PersistentTierStore> {
        self.cold_store
    }

    pub closed spec fn config_spec(&self) -> HybridStoreConfig {
        self.config
    }

    pub closed spec fn event_num_spec(&self) -> int {
        self.memory_spill_event_num as int
    }

    pub closed spec fn queue_spec(&self) -> Seq<SpillMessage> {
        self.event_bus.queue_spec()
    }

    pub open spec fn wf(&self) -> bool {
        &&& self.hot_spec().wf()
        &&& (self.warm_spec() matches Some(w) ==> w.wf())
        &&& (self.cold_spec() matches Some(c) ==> c.wf())
        &&& self.config_spec().memory_spill_high_watermark_permille <= 1000
        &&& self.config_spec().memory_spill_low_watermark_permille <= 1000
        &&& queued_messages_wf(self.queue_spec())
        &&& self.queue_spec().len() <= self.event_bus_capacity_spec()
    }

    /// Builds the tiers the storage type names.  Memory is required; the
    /// first configured persistent tier is warm, the second cold.
    pub fn from(config: Config) -> (r: Result<HybridStore, WorkerError>)
        requires
            config.store_type.has_memory(),
            config.memory_store matches Some(m) && 0 <= m.capacity,
            config.hybrid_store.memory_spill_high_watermark_permille <= 1000,
            config.hybrid_store.memory_spill_low_watermark_permille <= 1000,
            0 <= config.hybrid_store.memory_spill_max_concurrency,
            config.store_type.has_localfile() ==> (config.localfile_store matches Some(l)
                && l.disk_high_watermark_permille <= 1000 && l.disk_low_watermark_permille <= 1000),
            config.store_type.has_hdfs() ==> config.hdfs_store is Some,
        ensures
            r matches Ok(s) ==> s.wf() && s.hot_spec().entries() == Seq::<
                crate::memstore::BufferEntry,
            >::empty() && s.hot_spec().capacity_spec() == config.memory_store->0.capacity
                && s.hot_spec().used_spec() == 0 && s.hot_spec().allocated_spec() == 0
                && s.hot_spec().tickets() == Seq::<crate::ticket::TicketV>::empty()
                && s.hot_spec().budget_spec().ticket_counter_spec() == 0
                && s.hot_spec().inflight_spec() == 0 && s.queue_spec() == Seq::<
                SpillMessage,
            >::empty() && s.event_num_spec() == 0 && s.event_bus_capacity_spec()
                == config.hybrid_store.memory_spill_max_concurrency && s.config_spec()
                == config.hybrid_store,
            r matches Ok(s) ==> ({
                // the first configured persistent tier is warm, the second cold
                &&& (config.store_type.has_localfile() ==> (s.warm_spec() matches Some(w)
                    && w is LOCALFILE))
                &&& (config.store_type.has_localfile() && config.store_type.has_hdfs() ==> (
                s.cold_spec() matches Some(c) && c is HDFS))
                &&& (!config.store_type.has_localfile() && config.store_type.has_hdfs() ==> (
                s.warm_spec() matches Some(w) && w is HDFS) && s.cold_spec() is None)
                &&& (!config.store_type.has_localfile() && !config.store_type.has_hdfs()
                    ==> s.warm_spec() is None && s.cold_spec() is None)
                &&& (config.store_type.has_localfile() && !config.store_type.has_hdfs()
                    ==> s.cold_spec() is None)
                &&& (s.warm_spec() matches Some(w) ==> (w matches
                PersistentTierStore::LOCALFILE(l) ==> l.partitions_spec() == Seq::<
                    crate::localfile::FileEntry,
                >::empty() && (forall|i: int|
                    0 <= i < l.disks_spec().len() ==> (#[trigger] l.disks_spec()[i]).healthy_spec()
                        && !l.disks_spec()[i].corrupted_spec())))
                &&& (s.cold_spec() matches Some(c) ==> (c matches PersistentTierStore::HDFS(d)
                    ==> d.clients_spec() == Seq::<crate::remote::HdfsClientInfo>::empty()
                        && d.metas_spec() == Seq::<crate::remote::RemoteMetaEntry>::empty()))
            }),
            r is Ok,
    {
        let Config { store_type, memory_store, localfile_store, hdfs_store, hybrid_store } = config;
        let hot = match memory_store {
            Some(m) => MemoryStore::from(m),
            None => {
                return Err(WorkerError::INTERNAL_ERROR);
            },
        };
        let mut warm: Option<PersistentTierStore> = None;
        let mut cold: Option<PersistentTierStore> = None;
        if store_type.contains_localfile() {
            match localfile_store {
                Some(l) => {
                    match LocalFileStore::from(l) {
                        Ok(s) => {
                            warm = Some(PersistentTierStore::LOCALFILE(s));
                        },
                        Err(e) => {
                            return Err(e);
                        },
                    }
                },
                None => {
                    return Err(WorkerError::INTERNAL_ERROR);
                },
            }
        }
        if store_type.contains_hdfs() {
            match hdfs_store {
                Some(h) => {
                    let s = PersistentTierStore::HDFS(HdfsStore::from(h));
                    if warm.is_none() {
                        warm = Some(s);
                    } else {
                        cold = Some(s);
                    }
                },
                None => {
                    return Err(WorkerError::INTERNAL_ERROR);
                },
            }
        }
        let capacity = hybrid_store.memory_spill_max_concurrency as usize;
        let r = HybridStore {
            hot_store: hot,
            warm_store: warm,
            cold_store: cold,
            config: hybrid_store,
            memory_spill_event_num: 0,
            event_bus: EventBus::new(capacity),
        };
        proof {
            assert(queued_messages_wf(r.queue_spec()));
        }
        Ok(r)
    }

    pub fn is_memory_only(&self) -> (r: bool)
        ensures
            r == (self.warm_spec() is None && self.cold_spec() is None),
    {
        self.cold_store.is_none() && self.warm_store.is_none()
    }

    /// Admits the write into the hot store; then, when usage has crossed
    /// the high watermark, runs one watermark spill pass.  The write's own
    /// effect on the hot store is exactly the memory store's `insert`; a
    /// spill pass moves staged bytes in flight but never changes what a
    /// reader of any partition sees.
    pub fn insert(&mut self, ctx: WritingViewContext) -> (r: Result<(), WorkerError>)
        requires
            old(self).wf(),
            ctx.wf(),
        ensures
            final(self).wf(),
            r is Ok <==> ctx.data_size <= old(self).hot_spec().allocated_spec(),
            r is Ok ==> final(self).hot_spec().used_spec() == old(self).hot_spec().used_spec()
                + ctx.data_size && final(self).hot_spec().allocated_spec() == old(self).hot_spec().allocated_spec() - ctx.data_size,
            r is Err ==> final(self).hot_spec().used_spec() == old(self).hot_spec().used_spec()
                && final(self).hot_spec().allocated_spec() == old(self).hot_spec().allocated_spec(),
            r is Ok ==> forall|u: crate::block::UidV| #[trigger]
                crate::memstore::read_view(final(self).hot_spec().entries(), u) == (
            if u == ctx.uid@ {
                crate::memstore::read_view(old(self).hot_spec().entries(), u) + views_of(
                    ctx.data_blocks@,
                )
            } else {
                crate::memstore::read_view(old(self).hot_spec().entries(), u)
            }),
            r is Err ==> forall|u: crate::block::UidV| #[trigger]
                crate::memstore::read_view(final(self).hot_spec().entries(), u)
                == crate::memstore::read_view(old(self).hot_spec().entries(), u),
            final(self).warm_spec() == old(self).warm_spec(),
            final(self).cold_spec() == old(self).cold_spec(),
            final(self).config_spec() == old(self).config_spec(),
            // the write's own effect is the hot store's insert; a
            // watermark crossing then runs exactly one spill pass over the
            // post-insert state, else nothing more happens
            exists|mid: HybridStore|
                {
                    &&& crate::memstore::insert_post(
                        old(self).hot_spec(),
                        #[trigger] mid.hot_spec(),
                        ctx,
                        r,
                    )
                    &&& mid.warm_spec() == old(self).warm_spec()
                    &&& mid.cold_spec() == old(self).cold_spec()
                    &&& mid.config_spec() == old(self).config_spec()
                    &&& mid.queue_spec() == old(self).queue_spec()
                    &&& mid.event_num_spec() == old(self).event_num_spec()
                    &&& mid.event_bus_capacity_spec() == old(self).event_bus_capacity_spec()
                    &&& (if (old(self).warm_spec() is None && old(self).cold_spec() is None)
                        || !usage_exceeds_high(
                        mid.hot_spec(),
                        old(self).config_spec().memory_spill_high_watermark_permille as int,
                    ) {
                        *final(self) == mid
                    } else {
                        spill_pass_post(mid, *final(self))
                    })
                },
    {
        let insert_result = self.hot_store.insert(ctx);
        let ghost mid = *self;
        if self.is_memory_only() {
            proof {
                assert(*self == mid);
            }
            return insert_result;
        }
        let high = self.config.memory_spill_high_watermark_permille;
        if self.hot_store.usage_ratio_exceeds(high) {
            let _ = self.watermark_spill();
            proof {
                assert(spill_pass_post(mid, *self));
            }
        } else {
            proof {
                assert(*self == mid);
            }
        }
        insert_result
    }

    /// One watermark spill pass: picks the partitions whose staged bytes
    /// cover `used - capacity * low_watermark / 1000`, drains each picked
    /// partition's staging region into a fresh flight, publishes one
    /// message per drained flight (its blocks, byte size, a zero retry
    /// count and the flight id) while the bounded queue has room, and adds
    /// the drained bytes to the in-flight count.  Budget counters and
    /// every partition's reader-visible view are untouched.
    #[verifier::rlimit(80)]
    pub fn watermark_spill(&mut self) -> (r: Result<(), WorkerError>)
        requires
            old(self).wf(),
        ensures
            final(self).wf(),
            r is Ok,
            spill_pass_post(*old(self), *final(self)),
    {
        let ghost oe = self.hot_spec().entries();
        let ghost q0 = self.queue_spec();
        let ghost num0 = self.event_num_spec();
        let ghost cap = self.event_bus_capacity_spec();
        let capacity = match self.hot_store.get_capacity() {
            Ok(c) => c,
            Err(_) => {
                proof {
                    assert(false);
                }
                return Err(WorkerError::INTERNAL_ERROR);
            },
        };
        proof {
            crate::budget::lemma_budget_counters_in_range(self.hot_spec().budget_spec());
        }
        let low = self.config.memory_spill_low_watermark_permille;
        proof {
            assert((capacity as int) * (low as int) <= (i64::MAX as int) * 1000 && 0 <= (
            capacity as int) * (low as int)) by (nonlinear_arith)
                requires
                    0 <= capacity as int <= i64::MAX as int,
                    0 <= low as int <= 1000,
            ;
            assert(0 <= (capacity as int) * (low as int) / 1000 <= (capacity as int) * (low
                as int)) by (nonlinear_arith)
                requires
                    0 <= (capacity as int) * (low as int),
            ;
            assert((capacity as int) * (low as int) / 1000 <= i64::MAX as int) by (nonlinear_arith)
                requires
                    0 <= (capacity as int) * (low as int) <= (i64::MAX as int) * 1000,
            ;
        }
        let target_wide: i128 = (capacity as i128) * (low as i128) / 1000;
        let mem_target: i64 = target_wide as i64;
        let uids = self.hot_store.pickup_spill_blocks(mem_target);
        let ghost picked = crate::memstore::uid_views(uids@);
        proof {
            assert(mem_target as int == spill_target(
                old(self).hot_spec().capacity_spec(),
                old(self).config_spec().memory_spill_low_watermark_permille as int,
            ));
            assert forall|a: int, b: int|
                0 <= a < b < crate::memstore::spill_pairs(oe).len() implies (
            #[trigger] crate::memstore::spill_pairs(oe)[a]).uid != (
            #[trigger] crate::memstore::spill_pairs(oe)[b]).uid by {
                assert(crate::memstore::spill_pairs(oe)[a].uid == oe[a].uid@);
                assert(crate::memstore::spill_pairs(oe)[b].uid == oe[b].uid@);
            }
            crate::memstore::lemma_pick_candidates_distinct(
                crate::memstore::spill_pairs(oe),
                old(self).hot_spec().used_spec() - mem_target,
            );
            assert(picked.take(0) =~= Seq::<UidV>::empty());
        }
        let mut flushed: u64 = 0;
        let mut i: usize = 0;
        while i < uids.len()
            invariant
                self.wf(),
                i <= uids.len(),
                picked == crate::memstore::uid_views(uids@),
                picked == crate::memstore::pick_candidates(
                    crate::memstore::spill_pairs(oe),
                    old(self).hot_spec().used_spec() - spill_target(
                        old(self).hot_spec().capacity_spec(),
                        old(self).config_spec().memory_spill_low_watermark_permille as int,
                    ),
                ),
                forall|a: int, b: int|
                    0 <= a < b < picked.len() ==> #[trigger] picked[a] != #[trigger] picked[b],
                oe == old(self).hot_spec().entries(),
                q0 == old(self).queue_spec(),
                num0 == old(self).event_num_spec(),
                cap == old(self).event_bus_capacity_spec(),
                q0.len() <= cap,
                self.event_bus_capacity_spec() == cap,
                spill_pass_buffers_ok(
                    oe,
                    self.hot_spec().entries(),
                    crate::memstore::drainable_uids(oe, picked.take(i as int)),
                ),
                spill_pass_messages_ok(
                    oe,
                    q0,
                    self.queue_spec(),
                    crate::memstore::drainable_uids(oe, picked.take(i as int)),
                    cap,
                ),
                self.event_num_spec() == ({
                    let dr = crate::memstore::drainable_uids(oe, picked.take(i as int));
                    let published = if dr.len() <= cap - q0.len() {
                        dr.len() as int
                    } else {
                        cap - q0.len()
                    };
                    if num0 + published <= u64::MAX {
                        num0 + published
                    } else {
                        u64::MAX as int
                    }
                }),
                flushed as int == ({
                    let s = crate::memstore::staged_sum(
                        oe,
                        crate::memstore::drainable_uids(oe, picked.take(i as int)),
                    );
                    if s <= u64::MAX {
                        s
                    } else {
                        u64::MAX as int
                    }
                }),
                0 <= crate::memstore::staged_sum(
                    oe,
                    crate::memstore::drainable_uids(oe, picked.take(i as int)),
                ),
                forall|u: UidV| #[trigger]
                    crate::memstore::read_view(self.hot_spec().entries(), u)
                    == crate::memstore::read_view(oe, u),
                self.hot_spec().used_spec() == old(self).hot_spec().used_spec(),
                self.hot_spec().allocated_spec() == old(self).hot_spec().allocated_spec(),
                self.hot_spec().capacity_spec() == old(self).hot_spec().capacity_spec(),
                self.hot_spec().tickets() == old(self).hot_spec().tickets(),
                self.hot_spec().budget_spec().ticket_counter_spec() == old(self).hot_spec().budget_spec().ticket_counter_spec(),
                self.hot_spec().inflight_spec() == old(self).hot_spec().inflight_spec(),
                self.warm_spec() == old(self).warm_spec(),
                self.cold_spec() == old(self).cold_spec(),
                self.config_spec() == old(self).config_spec(),
            decreases uids.len() - i,
        {
            let ghost dr = crate::memstore::drainable_uids(oe, picked.take(i as int));
            let ghost ce = self.hot_spec().entries();
            let uid = uids[i].clone_uid();
            proof {
                assert(picked[i as int] == uids@[i as int]@);
                assert(picked.take(i as int + 1).drop_last() =~= picked.take(i as int));
                assert(picked.take(i as int + 1).last() == picked[i as int]);
                lemma_drainable_uids_subset(oe, picked.take(i as int));
                assert forall|j: int| 0 <= j < dr.len() implies #[trigger] dr[j]
                    != picked[i as int] by {
                    let k = choose|k: int|
                        0 <= k < picked.take(i as int).len() && #[trigger] picked.take(
                            i as int,
                        )[k] == dr[j];
                    assert(picked[k] == dr[j]);
                }
                assert(crate::memstore::buffer_of(ce, picked[i as int])
                    == crate::memstore::buffer_of(oe, picked[i as int]));
            }
            match self.hot_store.spill_partition(&uid) {
                Ok(res) => {
                    proof {
                        assert(crate::memstore::drainable(oe, picked[i as int]));
                        assert(crate::memstore::drainable_uids(oe, picked.take(i as int + 1))
                            =~= dr.push(picked[i as int]));
                        crate::memstore::lemma_find_entry_pos_valid(ce, uid@);
                    }
                    let ghost b0 = crate::memstore::buffer_of(oe, picked[i as int])->0;
                    proof {
                        // the drained buffer's staged bytes are well formed
                        // and bounded, so the message below carries them
                        // faithfully
                        match crate::memstore::find_entry_pos(ce, uid@) {
                            Some(k) => {
                                assert(ce[k].buffer == b0);
                                assert(ce[k].buffer.wf());
                            },
                            None => {
                                assert(false);
                            },
                        }
                        crate::buffer::lemma_buffer_total_nonneg(&b0);
                        crate::block::lemma_sum_lengths_nonneg(b0.staging_view());
                    }
                    let flight_len = res.flight_len;
                    let size_i64: i64 = flight_len as i64;
                    let message = SpillMessage {
                        ctx: SpillWritingViewContext { uid, data_blocks: res.blocks },
                        size: size_i64,
                        retry_cnt: 0,
                        previous_spilled_storage: None,
                        flight_id: res.flight_id,
                    };
                    proof {
                        assert(spill_message_wf(message));
                        assert(spilled_message_for(message, picked[i as int], oe));
                    }
                    let ghost qpre = self.queue_spec();
                    let ghost numpre = self.event_num_spec();
                    let publish_result = self.publish_spill_event(message);
                    proof {
                        let dr2 = crate::memstore::drainable_uids(oe, picked.take(i as int + 1));
                        // the buffers: the freshly drained one and everything
                        // already settled
                        assert forall|j: int| 0 <= j < dr2.len() implies drained_buffer_for(
                            oe,
                            self.hot_spec().entries(),
                            #[trigger] dr2[j],
                        ) by {
                            if j < dr.len() {
                                assert(dr2[j] == dr[j]);
                                assert(dr[j] != picked[i as int]);
                                match crate::memstore::find_entry_pos(ce, uid@) {
                                    Some(k) => {
                                        crate::memstore::lemma_buffer_of_update_preserved(
                                            ce,
                                            self.hot_spec().entries(),
                                            k,
                                            dr[j],
                                        );
                                    },
                                    None => {
                                        assert(false);
                                    },
                                }
                            } else {
                                assert(dr2[j] == picked[i as int]);
                                match crate::memstore::find_entry_pos(ce, uid@) {
                                    Some(k) => {
                                        crate::memstore::lemma_find_entry_update_same_uid(
                                            ce,
                                            k,
                                            self.hot_spec().entries()[k],
                                        );
                                        assert(crate::memstore::find_entry_pos(
                                            self.hot_spec().entries(),
                                            uid@,
                                        ) == Some(k));
                                        assert(ce[k].buffer == b0);
                                        assert(crate::memstore::buffer_of(
                                            self.hot_spec().entries(),
                                            picked[i as int],
                                        ) == Some(self.hot_spec().entries()[k].buffer));
                                    },
                                    None => {
                                        assert(false);
                                    },
                                }
                            }
                        }
                        assert forall|u: UidV|
                            (forall|j: int| 0 <= j < dr2.len() ==> #[trigger] dr2[j] != u)
                                implies #[trigger] crate::memstore::buffer_of(
                                self.hot_spec().entries(),
                                u,
                            ) == crate::memstore::buffer_of(oe, u) by {
                            assert(dr2[dr2.len() - 1] == picked[i as int]);
                            assert(u != picked[i as int]);
                            assert forall|j: int| 0 <= j < dr.len() implies #[trigger] dr[j]
                                != u by {
                                assert(dr2[j] == dr[j]);
                            }
                            assert(crate::memstore::buffer_of(ce, u)
                                == crate::memstore::buffer_of(oe, u));
                            match crate::memstore::find_entry_pos(ce, uid@) {
                                Some(k) => {
                                    crate::memstore::lemma_buffer_of_update_preserved(
                                        ce,
                                        self.hot_spec().entries(),
                                        k,
                                        u,
                                    );
                                },
                                None => {
                                    assert(false);
                                },
                            }
                            assert(crate::memstore::buffer_of(self.hot_spec().entries(), u)
                                == crate::memstore::buffer_of(ce, u));
                        }
                        // the queue: one more message when it had room
                        crate::block::lemma_sum_lengths_nonneg(b0.staging_view());
                        assert(dr2.drop_last() =~= dr);
                        assert(dr2.last() == picked[i as int]);
                        assert(crate::memstore::staged_bytes(oe, picked[i as int])
                            == b0.staging_size_spec());
                        assert(crate::memstore::staged_sum(oe, dr2)
                            == crate::memstore::staged_sum(oe, dr) + b0.staging_size_spec());
                        if publish_result is Ok {
                            assert(self.queue_spec() =~= qpre.push(message));
                        }
                    }
                    if flight_len <= u64::MAX - flushed {
                        flushed = flushed + flight_len;
                    } else {
                        flushed = u64::MAX;
                    }
                },
                Err(_) => {
                    proof {
                        assert(!crate::memstore::drainable(oe, picked[i as int]));
                        assert(crate::memstore::drainable_uids(oe, picked.take(i as int + 1))
                            =~= dr);
                    }
                },
            }
            i = i + 1;
        }
        proof {
            assert(picked.take(uids@.len() as int) =~= picked);
            crate::memstore::lemma_inflight_in_range(self.hot_spec());
        }
        self.hot_store.inc_inflight(flushed);
        Ok(())
    }

    /// Selects the tier for one spill message and builds the bytes its
    /// delivery writes.  A message that failed more often than the retry
    /// limit allows surfaces the exhaustion error with the app's id; a
    /// worker without a warm tier cannot spill.
    pub fn memory_spill_to_persistent_store(&mut self, message: &SpillMessage) -> (r: Result<
        SpillPlan,
        WorkerError,
    >)
        requires
            old(self).wf(),
            spill_message_wf(*message),
        ensures
            final(self).wf(),
            final(self).hot_spec() == old(self).hot_spec(),
            final(self).config_spec() == old(self).config_spec(),
            final(self).queue_spec() == old(self).queue_spec(),
            message.retry_cnt > 3 ==> (r matches Err(e) && (e matches
            WorkerError::SPILL_EVENT_EXCEED_RETRY_MAX_LIMIT(a) && a@ == message.ctx.uid@.app_id))
                && *final(self) == *old(self),
            message.retry_cnt <= 3 && old(self).warm_spec() is None ==> r == Err::<
                SpillPlan,
                WorkerError,
            >(WorkerError::INTERNAL_ERROR) && *final(self) == *old(self),
            message.retry_cnt <= 3 && old(self).warm_spec() is Some ==> ({
                let tier = select_tier_spec(
                    old(self).warm_spec()->0.healthy_spec(),
                    message.size as int,
                    old(self).config_spec().memory_spill_to_cold_threshold_size,
                    message.retry_cnt as int,
                );
                &&& (tier == SpillTier::COLD && old(self).cold_spec() is Some ==> final(self).warm_spec() == old(self).warm_spec() && (match final(self).cold_spec() {
                    Some(c1) => tier_spill_prepare_post(
                        old(self).cold_spec()->0,
                        c1,
                        message.ctx.uid@,
                        views_of(message.ctx.data_blocks@),
                        r,
                    ),
                    None => false,
                }))
                &&& (!(tier == SpillTier::COLD && old(self).cold_spec() is Some) ==> final(self).cold_spec() == old(self).cold_spec() && (match final(self).warm_spec() {
                    Some(w1) => tier_spill_prepare_post(
                        old(self).warm_spec()->0,
                        w1,
                        message.ctx.uid@,
                        views_of(message.ctx.data_blocks@),
                        r,
                    ),
                    None => false,
                }))
            }),
    {
        if message.retry_cnt > 3 {
            let app_id = clone_string(&message.ctx.uid.app_id);
            return Err(WorkerError::SPILL_EVENT_EXCEED_RETRY_MAX_LIMIT(app_id));
        }
        let warm_healthy = match &self.warm_store {
            Some(w) => match w.is_healthy() {
                Ok(h) => h,
                Err(_) => false,
            },
            None => {
                return Err(WorkerError::INTERNAL_ERROR);
            },
        };
        proof {
            crate::block::lemma_sum_lengths_nonneg(views_of(message.ctx.data_blocks@));
        }
        let tier = select_spill_tier(
            warm_healthy,
            message.size,
            self.config.memory_spill_to_cold_threshold_size,
            message.retry_cnt,
        );
        let use_cold = match tier {
            SpillTier::COLD => true,
            SpillTier::WARM => false,
        };
        if use_cold && self.cold_store.is_some() {
            let mut cold = self.cold_store.take();
            let r = match cold {
                Some(ref mut c) => Self::spill_into_tier(c, message),
                None => Err(WorkerError::INTERNAL_ERROR),
            };
            self.cold_store = cold;
            r
        } else {
            let mut warm = self.warm_store.take();
            let r = match warm {
                Some(ref mut w) => Self::spill_into_tier(w, message),
                None => Err(WorkerError::INTERNAL_ERROR),
            };
            self.warm_store = warm;
            r
        }
    }

    /// Delivers one spill message's bytes-to-write against one tier.
    fn spill_into_tier(tier: &mut PersistentTierStore, message: &SpillMessage) -> (r: Result<
        SpillPlan,
        WorkerError,
    >)
        requires
            old(tier).wf(),
            spill_message_wf(*message),
        ensures
            final(tier).wf(),
            tier_spill_prepare_post(
                *old(tier),
                *final(tier),
                message.ctx.uid@,
                views_of(message.ctx.data_blocks@),
                r,
            ),
    {
        proof {
            crate::block::lemma_sum_lengths_nonneg(views_of(message.ctx.data_blocks@));
        }
        match tier {
            PersistentTierStore::LOCALFILE(s) => {
                match s.prepare_spill_insert(&message.ctx.uid, &message.ctx.data_blocks) {
                    Ok(plan) => Ok(SpillPlan::LOCALFILE(plan)),
                    Err(e) => Err(e),
                }
            },
            PersistentTierStore::HDFS(s) => {
                match s.prepare_data_insert(&message.ctx.uid, &message.ctx.data_blocks) {
                    Ok(plan) => Ok(SpillPlan::HDFS(plan)),
                    Err(e) => Err(e),
                }
            },
        }
    }

    /// Reports one successful spill delivery: the flight leaves the
    /// partition's buffer, its bytes leave `used` and the in-flight count.
    pub fn release_data_in_memory(&mut self, data_size: i64, message: &SpillMessage) -> (r: Result<
        (),
        WorkerError,
    >)
        requires
            old(self).wf(),
        ensures
            final(self).wf(),
            r is Ok ==> ({
                // the flight leaves the partition's buffer and its bytes
                // leave `used` and the in-flight count (stopping at zero)
                &&& final(self).hot_spec().used_spec() == old(self).hot_spec().used_spec() - (
                data_size as u64)
                &&& (match crate::memstore::find_entry_pos(
                    old(self).hot_spec().entries(),
                    message.ctx.uid@,
                ) {
                    Some(k) => final(self).hot_spec().entries() == old(self).hot_spec().entries().update(
                        k,
                        final(self).hot_spec().entries()[k],
                    ) && final(self).hot_spec().entries()[k].uid@ == message.ctx.uid@ && final(self).hot_spec().entries()[k].buffer.flights_view()
                        == crate::buffer::remove_flight_id(
                        old(self).hot_spec().entries()[k].buffer.flights_view(),
                        message.flight_id as int,
                    ) && final(self).hot_spec().entries()[k].buffer.staging_view() == old(self).hot_spec().entries()[k].buffer.staging_view() && final(self).hot_spec().entries()[k].buffer.total_size_spec() == old(self).hot_spec().entries()[k].buffer.total_size_spec() - (data_size as u64),
                    None => false,
                })
                &&& final(self).hot_spec().allocated_spec() == old(self).hot_spec().allocated_spec()
                &&& final(self).hot_spec().tickets() == old(self).hot_spec().tickets()
                &&& final(self).hot_spec().inflight_spec() == (if data_size as u64 <= old(self).hot_spec().inflight_spec() {
                    old(self).hot_spec().inflight_spec() - (data_size as u64)
                } else {
                    0int
                })
            }),
            r is Ok <==> (match crate::memstore::buffer_of(
                old(self).hot_spec().entries(),
                message.ctx.uid@,
            ) {
                Some(b) => (match crate::buffer::find_flight(
                    b.flights_view(),
                    message.flight_id as int,
                ) {
                    Some(f) => data_size as u64 == sum_lengths(f.blocks),
                    None => false,
                }),
                None => false,
            }),
            r is Err ==> final(self).hot_spec().entries() == old(self).hot_spec().entries()
                && final(self).hot_spec().used_spec() == old(self).hot_spec().used_spec() && final(self).hot_spec().inflight_spec() == old(self).hot_spec().inflight_spec(),
            final(self).warm_spec() == old(self).warm_spec(),
            final(self).cold_spec() == old(self).cold_spec(),
            final(self).config_spec() == old(self).config_spec(),
            final(self).queue_spec() == old(self).queue_spec(),
            final(self).event_num_spec() == old(self).event_num_spec(),
            final(self).event_bus_capacity_spec() == old(self).event_bus_capacity_spec(),
    {
        let flight_len = data_size as u64;
        let ghost mid_hot: MemoryStore;
        let cleared = self.hot_store.clear_spilled_memory_buffer(
            &message.ctx.uid,
            message.flight_id,
            flight_len,
        );
        proof {
            mid_hot = self.hot_spec();
        }
        match cleared {
            Ok(_) => {
                self.hot_store.dec_inflight(flight_len);
                Ok(())
            },
            Err(e) => Err(e),
        }
    }

    /// Reports one failed spill delivery: below the retry limit the
    /// message goes back on the bus with its count raised and the tried
    /// tier recorded; at the limit the exhaustion error surfaces and the
    /// flight stays resident.
    pub fn on_spill_failure(&mut self, message: SpillMessage, tried: StorageType) -> (r: Result<
        (),
        WorkerError,
    >)
        requires
            old(self).wf(),
            spill_message_wf(message),
        ensures
            final(self).wf(),
            final(self).hot_spec() == old(self).hot_spec(),
            message.retry_cnt >= 3 ==> (r matches Err(e) && (e matches
            WorkerError::SPILL_EVENT_EXCEED_RETRY_MAX_LIMIT(a) && a@ == message.ctx.uid@.app_id))
                && final(self).queue_spec() == old(self).queue_spec(),
            message.retry_cnt < 3 ==> (r is Ok <==> old(self).queue_spec().len() < old(self).event_bus_capacity_spec()),
            message.retry_cnt < 3 && r is Ok ==> final(self).queue_spec().len() == old(self).queue_spec().len() + 1 && final(self).queue_spec().last().retry_cnt
                == message.retry_cnt + 1 && final(self).queue_spec().last().flight_id
                == message.flight_id && final(self).queue_spec().last().previous_spilled_storage
                == Some(tried),
    {
        if message.retry_cnt >= 3 {
            let app_id = clone_string(&message.ctx.uid.app_id);
            return Err(WorkerError::SPILL_EVENT_EXCEED_RETRY_MAX_LIMIT(app_id));
        }
        let SpillMessage { ctx, size, retry_cnt, previous_spilled_storage, flight_id } = message;
        let retried = SpillMessage {
            ctx,
            size,
            retry_cnt: retry_cnt + 1,
            previous_spilled_storage: Some(tried),
            flight_id,
        };
        proof {
            assert(spill_message_wf(retried));
        }
        let ghost q = self.queue_spec();
        let res = self.event_bus.publish(retried);
        proof {
            if res is Ok {
                assert forall|i: int| 0 <= i < self.queue_spec().len() implies spill_message_wf(
                    #[trigger] self.queue_spec()[i],
                ) by {
                    if i < q.len() {
                        assert(self.queue_spec()[i] == q[i]);
                    }
                }
            }
        }
        match res {
            Ok(_) => Ok(()),
            Err(e) => Err(e),
        }
    }

    pub closed spec fn event_bus_capacity_spec(&self) -> int {
        self.event_bus.capacity_spec()
    }

    /// Queues one spill message for the handler pool.
    pub fn publish_spill_event(&mut self, message: SpillMessage) -> (r: Result<(), WorkerError>)
        requires
            old(self).wf(),
            spill_message_wf(message),
        ensures
            final(self).wf(),
            final(self).hot_spec() == old(self).hot_spec(),
            final(self).warm_spec() == old(self).warm_spec(),
            final(self).cold_spec() == old(self).cold_spec(),
            final(self).config_spec() == old(self).config_spec(),
            r is Ok <==> old(self).queue_spec().len() < old(self).event_bus_capacity_spec(),
            r is Ok ==> final(self).queue_spec() == old(self).queue_spec().push(message) && final(self).event_num_spec() == (if old(self).event_num_spec() + 1 <= u64::MAX {
                old(self).event_num_spec() + 1
            } else {
                old(self).event_num_spec()
            }),
            r is Err ==> final(self).queue_spec() == old(self).queue_spec() && final(self).event_num_spec() == old(self).event_num_spec() && r == Err::<
                (),
                WorkerError,
            >(WorkerError::EVENT_BUS_FULL),
            final(self).event_bus_capacity_spec() == old(self).event_bus_capacity_spec(),
    {
        let ghost q = self.queue_spec();
        let res = self.event_bus.publish(message);
        match res {
            Ok(_) => {
                proof {
                    assert forall|i: int|
                        0 <= i < self.queue_spec().len() implies spill_message_wf(
                        #[trigger] self.queue_spec()[i],
                    ) by {
                        if i < q.len() {
                            assert(self.queue_spec()[i] == q[i]);
                        }
                    }
                }
                if self.memory_spill_event_num < u64::MAX {
                    self.memory_spill_event_num = self.memory_spill_event_num + 1;
                }
                Ok(())
            },
            Err(e) => Err(e),
        }
    }

    /// Takes the oldest queued spill message for delivery.
    pub fn poll_spill_event(&mut self) -> (r: Option<SpillMessage>)
        requires
            old(self).wf(),
        ensures
            final(self).wf(),
            final(self).hot_spec() == old(self).hot_spec(),
            final(self).warm_spec() == old(self).warm_spec(),
            final(self).cold_spec() == old(self).cold_spec(),
            final(self).config_spec() == old(self).config_spec(),
            old(self).queue_spec().len() == 0 ==> r is None && final(self).queue_spec() == old(self).queue_spec(),
            old(self).queue_spec().len() > 0 ==> (r matches Some(m) && m == old(self).queue_spec()[0] && spill_message_wf(m) && final(self).queue_spec() == old(self).queue_spec().drop_first()),
    {
        let ghost q = self.queue_spec();
        let r = self.event_bus.poll();
        proof {
            if q.len() > 0 {
                assert(spill_message_wf(q[0]));
                assert forall|i: int| 0 <= i < self.queue_spec().len() implies spill_message_wf(
                    #[trigger] self.queue_spec()[i],
                ) by {
                    assert(self.queue_spec()[i] == q[i + 1]);
                }
            }
        }
        r
    }

    pub fn memory_spill_event_num(&self) -> (r: Result<u64, WorkerError>)
        ensures
            r == Ok::<u64, WorkerError>((self.event_num_spec()) as u64),
    {
        Ok(self.memory_spill_event_num)
    }

    /// Lowers the outstanding spill event count, stopping at zero.
    pub fn dec_spill_event_num(&mut self, delta: u64)
        requires
            old(self).wf(),
        ensures
            final(self).wf(),
            final(self).event_num_spec() == if delta <= old(self).event_num_spec() {
                old(self).event_num_spec() - delta
            } else {
                0
            },
            final(self).hot_spec() == old(self).hot_spec(),
            final(self).warm_spec() == old(self).warm_spec(),
            final(self).cold_spec() == old(self).cold_spec(),
            final(self).queue_spec() == old(self).queue_spec(),
            final(self).config_spec() == old(self).config_spec(),
    {
        if delta <= self.memory_spill_event_num {
            self.memory_spill_event_num = self.memory_spill_event_num - delta;
        } else {
            self.memory_spill_event_num = 0;
        }
    }

    pub fn inc_used(&mut self, size: i64) -> (r: Result<bool, WorkerError>)
        requires
            old(self).wf(),
            0 <= size,
        ensures
            final(self).wf(),
            r is Ok <==> old(self).hot_spec().used_spec() + old(self).hot_spec().allocated_spec()
                + size <= old(self).hot_spec().budget_spec().capacity_spec(),
            r is Ok ==> final(self).hot_spec().used_spec() == old(self).hot_spec().used_spec()
                + size,
            r is Err ==> final(self).hot_spec().used_spec() == old(self).hot_spec().used_spec(),
            final(self).hot_spec().allocated_spec() == old(self).hot_spec().allocated_spec(),
            final(self).hot_spec().capacity_spec() == old(self).hot_spec().capacity_spec(),
            final(self).hot_spec().tickets() == old(self).hot_spec().tickets(),
            final(self).hot_spec().entries() == old(self).hot_spec().entries(),
            final(self).hot_spec().inflight_spec() == old(self).hot_spec().inflight_spec(),
            final(self).hot_spec().budget_spec().ticket_counter_spec() == old(self).hot_spec().budget_spec().ticket_counter_spec(),
            final(self).warm_spec() == old(self).warm_spec(),
            final(self).cold_spec() == old(self).cold_spec(),
            final(self).config_spec() == old(self).config_spec(),
            final(self).queue_spec() == old(self).queue_spec(),
            final(self).event_num_spec() == old(self).event_num_spec(),
            final(self).event_bus_capacity_spec() == old(self).event_bus_capacity_spec(),
    {
        self.hot_store.inc_used(size)
    }

    pub fn move_allocated_to_used_from_hot_store(&mut self, size: i64) -> (r: Result<
        bool,
        WorkerError,
    >)
        requires
            old(self).wf(),
            0 <= size,
        ensures
            final(self).wf(),
            r is Ok <==> size <= old(self).hot_spec().allocated_spec(),
            r is Ok ==> final(self).hot_spec().used_spec() == old(self).hot_spec().used_spec()
                + size && final(self).hot_spec().allocated_spec() == old(self).hot_spec().allocated_spec() - size,
            r is Err ==> final(self).hot_spec().used_spec() == old(self).hot_spec().used_spec()
                && final(self).hot_spec().allocated_spec() == old(self).hot_spec().allocated_spec()
                && r == Err::<bool, WorkerError>(WorkerError::INTERNAL_ERROR),
            final(self).hot_spec().capacity_spec() == old(self).hot_spec().capacity_spec(),
            final(self).hot_spec().tickets() == old(self).hot_spec().tickets(),
            final(self).hot_spec().entries() == old(self).hot_spec().entries(),
            final(self).hot_spec().inflight_spec() == old(self).hot_spec().inflight_spec(),
            final(self).hot_spec().budget_spec().ticket_counter_spec() == old(self).hot_spec().budget_spec().ticket_counter_spec(),
            final(self).warm_spec() == old(self).warm_spec(),
            final(self).cold_spec() == old(self).cold_spec(),
            final(self).config_spec() == old(self).config_spec(),
            final(self).queue_spec() == old(self).queue_spec(),
            final(self).event_num_spec() == old(self).event_num_spec(),
            final(self).event_bus_capacity_spec() == old(self).event_bus_capacity_spec(),
    {
        self.hot_store.move_allocated_to_used(size)
    }

    pub fn release_allocated_from_hot_store(&mut self, size: i64) -> (r: Result<bool, WorkerError>)
        requires
            old(self).wf(),
            0 <= size,
        ensures
            final(self).wf(),
            r is Ok <==> size <= old(self).hot_spec().allocated_spec(),
            r is Ok ==> final(self).hot_spec().allocated_spec() == old(self).hot_spec().allocated_spec() - size,
            r is Err ==> final(self).hot_spec().allocated_spec() == old(self).hot_spec().allocated_spec() && r == Err::<bool, WorkerError>(WorkerError::INTERNAL_ERROR),
            final(self).hot_spec().used_spec() == old(self).hot_spec().used_spec(),
            final(self).hot_spec().capacity_spec() == old(self).hot_spec().capacity_spec(),
            final(self).hot_spec().tickets() == old(self).hot_spec().tickets(),
            final(self).hot_spec().entries() == old(self).hot_spec().entries(),
            final(self).hot_spec().inflight_spec() == old(self).hot_spec().inflight_spec(),
            final(self).hot_spec().budget_spec().ticket_counter_spec() == old(self).hot_spec().budget_spec().ticket_counter_spec(),
            final(self).warm_spec() == old(self).warm_spec(),
            final(self).cold_spec() == old(self).cold_spec(),
            final(self).config_spec() == old(self).config_spec(),
            final(self).queue_spec() == old(self).queue_spec(),
            final(self).event_num_spec() == old(self).event_num_spec(),
            final(self).event_bus_capacity_spec() == old(self).event_bus_capacity_spec(),
    {
        self.hot_store.dec_allocated(size)
    }

    pub fn mem_snapshot(&self) -> (r: Result<CapacitySnapshot, WorkerError>)
        ensures
            r matches Ok(s) && s.capacity == self.hot_spec().budget_spec().capacity_spec()
                && s.allocated == self.hot_spec().allocated_spec() && s.used
                == self.hot_spec().used_spec(),
    {
        self.hot_store.memory_snapshot()
    }

    pub fn get_hot_store_memory_partitioned_buffer_size(&self, uid: &PartitionedUId) -> (r: Result<
        u64,
        WorkerError,
    >)
        requires
            self.wf(),
        ensures
            match crate::memstore::buffer_of(self.hot_spec().entries(), uid@) {
                Some(b) => r == Ok::<u64, WorkerError>((b.total_size_spec()) as u64),
                None => r == Err::<u64, WorkerError>(WorkerError::PARTITION_DATA_NOT_FOUND),
            },
    {
        self.hot_store.get_partitioned_buffer_size(uid)
    }

    /// Memory-mode reads serve the hot store's cursor read; file-offset
    /// reads name the warm file location the caller reads; the cold tier
    /// serves no reads.
    pub fn get(&self, ctx: ReadingViewContext) -> (r: Result<ResponseData, WorkerError>)
        requires
            self.wf(),
        ensures
            match ctx.reading_options {
                ReadingOptions::MEMORY_LAST_BLOCK_ID_AND_MAX_SIZE(last, max) => r is Ok && (
                match r {
                    Ok(ResponseData::Mem(out)) => ({
                        let cv = crate::memstore::read_view(self.hot_spec().entries(), ctx.uid@);
                        let sel = crate::buffer::selected_blocks(
                            cv.skip(crate::buffer::cursor_start(cv, last as int)),
                            ctx.serialized_expected_task_ids_bitmap,
                            max as int,
                            0,
                        );
                        crate::memstore::segments_match(out.shuffle_data_block_segments@, sel)
                            && out.data@ == crate::block::concat_data(sel)
                    }),
                    _ => false,
                }),
                ReadingOptions::FILE_OFFSET_AND_LEN(_, _) => (match self.warm_spec() {
                    Some(w) => (match w {
                        PersistentTierStore::LOCALFILE(s) => (match crate::localfile::meta_of(
                            s.partitions_spec(),
                            ctx.uid@,
                        ) {
                            Some(m) => (match r {
                                Ok(ResponseData::Local(plan)) => plan.disk_index == m.disk_index
                                    && plan.next_offset == m.next_offset && plan.uid@ == ctx.uid@
                                    && plan.root@ == s.disks_spec()[
                                    m.disk_index as int].root_spec(),
                                _ => false,
                            }),
                            None => r == Err::<ResponseData, WorkerError>(
                                WorkerError::PARTITION_DATA_NOT_FOUND,
                            ),
                        }),
                        PersistentTierStore::HDFS(_) => r == Err::<ResponseData, WorkerError>(
                            WorkerError::NOT_READ_HDFS_DATA_FROM_SERVER,
                        ),
                    }),
                    None => r == Err::<ResponseData, WorkerError>(WorkerError::INTERNAL_ERROR),
                }),
            },
    {
        match ctx.reading_options {
            ReadingOptions::MEMORY_LAST_BLOCK_ID_AND_MAX_SIZE(_, _) => {
                match self.hot_store.get(ctx) {
                    Ok(d) => Ok(ResponseData::Mem(d)),
                    Err(_) => {
                        proof {
                            assert(false);
                        }
                        Err(WorkerError::INTERNAL_ERROR)
                    },
                }
            },
            ReadingOptions::FILE_OFFSET_AND_LEN(_, _) => {
                match &self.warm_store {
                    Some(PersistentTierStore::LOCALFILE(s)) => {
                        match s.read_plan(&ctx.uid) {
                            Ok(plan) => Ok(ResponseData::Local(plan)),
                            Err(e) => Err(e),
                        }
                    },
                    Some(PersistentTierStore::HDFS(s)) => {
                        match s.get() {
                            Ok(_) => Err(WorkerError::INTERNAL_ERROR),
                            Err(e) => Err(e),
                        }
                    },
                    None => Err(WorkerError::INTERNAL_ERROR),
                }
            },
        }
    }

    /// Index reads go to the warm tier's file location; the cold tier
    /// serves none.
    pub fn get_index(&self, ctx: ReadingIndexViewContext) -> (r: Result<LocalReadPlan, WorkerError>)
        requires
            self.wf(),
        ensures
            match self.warm_spec() {
                Some(w) => (match w {
                    PersistentTierStore::LOCALFILE(s) => (match crate::localfile::meta_of(
                        s.partitions_spec(),
                        ctx.partition_id@,
                    ) {
                        Some(m) => r matches Ok(plan) && plan.disk_index == m.disk_index
                            && plan.next_offset == m.next_offset && plan.uid@ == ctx.partition_id@,
                        None => r == Err::<LocalReadPlan, WorkerError>(
                            WorkerError::PARTITION_DATA_NOT_FOUND,
                        ),
                    }),
                    PersistentTierStore::HDFS(_) => r == Err::<LocalReadPlan, WorkerError>(
                        WorkerError::NOT_READ_HDFS_DATA_FROM_SERVER,
                    ),
                }),
                None => r == Err::<LocalReadPlan, WorkerError>(WorkerError::INTERNAL_ERROR),
            },
    {
        match &self.warm_store {
            Some(PersistentTierStore::LOCALFILE(s)) => s.read_plan(&ctx.partition_id),
            Some(PersistentTierStore::HDFS(s)) => {
                match s.get_index() {
                    Ok(_) => Err(WorkerError::INTERNAL_ERROR),
                    Err(e) => Err(e),
                }
            },
            None => Err(WorkerError::INTERNAL_ERROR),
        }
    }

    /// Drops the app's (or one shuffle's) data in every tier and returns
    /// the bytes removed, saturating at the i64 limit.
    /// Drops the app's (or one shuffle's) data in every tier: the hot
    /// buffers and the app's tickets go, each persistent tier forgets the
    /// scope's files, and the returned byte count is the tiers' removed
    /// sums, saturating at the i64 limit.
    pub fn purge(&mut self, ctx: PurgeDataContext) -> (r: Result<i64, WorkerError>)
        requires
            old(self).wf(),
        ensures
            final(self).wf(),
            r is Ok,
            final(self).hot_spec().entries() == crate::memstore::entries_where(
                old(self).hot_spec().entries(),
                |e: crate::memstore::BufferEntry| !crate::memstore::entry_in_purge_scope(
                    e,
                    ctx.app_id@,
                    ctx.shuffle_id,
                ),
            ),
            final(self).hot_spec().tickets() == crate::ticket::tickets_where(
                old(self).hot_spec().tickets(),
                |t: crate::ticket::TicketV| !crate::ticket::ticket_of_app(t, ctx.app_id@),
            ),
            tier_purge_post(old(self).warm_spec(), final(self).warm_spec(), ctx.app_id@, ctx.shuffle_id),
            tier_purge_post(old(self).cold_spec(), final(self).cold_spec(), ctx.app_id@, ctx.shuffle_id),
            r matches Ok(removed) ==> ({
                let total = crate::memstore::memory_purge_removed(
                    old(self).hot_spec().entries(),
                    ctx.app_id@,
                    ctx.shuffle_id,
                ) + tier_purge_removed(old(self).warm_spec(), ctx.app_id@, ctx.shuffle_id)
                    + tier_purge_removed(old(self).cold_spec(), ctx.app_id@, ctx.shuffle_id);
                removed == if total <= i64::MAX {
                    total
                } else {
                    i64::MAX as int
                }
            }),
            final(self).config_spec() == old(self).config_spec(),
            final(self).queue_spec() == old(self).queue_spec(),
            final(self).event_num_spec() == old(self).event_num_spec(),
            final(self).event_bus_capacity_spec() == old(self).event_bus_capacity_spec(),
    {
        let PurgeDataContext { app_id, shuffle_id } = ctx;
        proof {
            crate::memstore::lemma_entries_total_nonneg(old(self).hot_spec().entries());
        }
        let hot_removed = match self.hot_store.purge(
            PurgeDataContext { app_id: clone_string(&app_id), shuffle_id },
        ) {
            Ok(n) => n,
            Err(_) => 0,
        };
        let mut total: i128 = hot_removed as i128;
        let mut warm = self.warm_store.take();
        match warm {
            Some(ref mut w) => {
                let n = Self::purge_tier(w, &app_id, shuffle_id);
                total = total + n as i128;
            },
            None => {},
        }
        self.warm_store = warm;
        let mut cold = self.cold_store.take();
        match cold {
            Some(ref mut c) => {
                let n = Self::purge_tier(c, &app_id, shuffle_id);
                total = total + n as i128;
            },
            None => {},
        }
        self.cold_store = cold;
        if total > i64::MAX as i128 {
            Ok(i64::MAX)
        } else {
            Ok(total as i64)
        }
    }

    /// How many disks the warm local tier has; a worker without a local
    /// warm tier has none.
    pub fn warm_disk_count(&self) -> (r: usize)
        ensures
            r == (match self.warm_spec() {
                Some(PersistentTierStore::LOCALFILE(s)) => s.disks_spec().len(),
                _ => 0,
            }),
    {
        match &self.warm_store {
            Some(PersistentTierStore::LOCALFILE(s)) => s.disk_count(),
            _ => 0,
        }
    }

    /// The root directory of one warm disk.
    pub fn warm_disk_root(&self, i: usize) -> (r: Option<String>)
        requires
            self.wf(),
        ensures
            (match self.warm_spec() {
                Some(PersistentTierStore::LOCALFILE(s)) => i < s.disks_spec().len(),
                _ => false,
            }) ==> (r matches Some(root) && (match self.warm_spec() {
                Some(PersistentTierStore::LOCALFILE(s)) => root@ == s.disks_spec()[
                    i as int].root_spec(),
                _ => false,
            })),
    {
        match &self.warm_store {
            Some(PersistentTierStore::LOCALFILE(s)) => {
                if i < s.disk_count() {
                    match s.read_disk_root(i) {
                        Some(root) => Some(root),
                        None => None,
                    }
                } else {
                    None
                }
            },
            _ => None,
        }
    }

    /// Feeds one round of capacity and canary observations into a warm
    /// disk's health transitions.
    pub fn run_warm_disk_periodic_check(
        &mut self,
        i: usize,
        capacity: u64,
        available: u64,
        written: &Vec<u8>,
        read_back: &Vec<u8>,
    ) -> (r: Result<(), WorkerError>)
        requires
            old(self).wf(),
            available <= capacity,
        ensures
            final(self).wf(),
            final(self).hot_spec() == old(self).hot_spec(),
            final(self).cold_spec() == old(self).cold_spec(),
            final(self).config_spec() == old(self).config_spec(),
            final(self).queue_spec() == old(self).queue_spec(),
            final(self).event_num_spec() == old(self).event_num_spec(),
            final(self).event_bus_capacity_spec() == old(self).event_bus_capacity_spec(),
            r is Ok <==> (match old(self).warm_spec() {
                Some(PersistentTierStore::LOCALFILE(s)) => (i as int) < s.disks_spec().len(),
                _ => false,
            }),
            r is Ok ==> (match (old(self).warm_spec(), final(self).warm_spec()) {
                (
                    Some(PersistentTierStore::LOCALFILE(s0)),
                    Some(PersistentTierStore::LOCALFILE(s1)),
                ) => crate::localfile::local_disk_check_post(
                    s0,
                    s1,
                    i as int,
                    capacity as int,
                    available as int,
                    written@,
                    read_back@,
                ),
                _ => false,
            }),
            r is Err ==> final(self).warm_spec() == old(self).warm_spec() && r == Err::<
                (),
                WorkerError,
            >(WorkerError::INTERNAL_ERROR),
    {
        let mut warm = self.warm_store.take();
        let r = match warm {
            Some(PersistentTierStore::LOCALFILE(ref mut s)) => {
                if i < s.disk_count() {
                    s.run_disk_periodic_check(i, capacity, available, written, read_back)
                } else {
                    Err(WorkerError::INTERNAL_ERROR)
                }
            },
            _ => Err(WorkerError::INTERNAL_ERROR),
        };
        self.warm_store = warm;
        r
    }

    /// Marks one disk of the warm local tier unhealthy, as its capacity
    /// checker would when usage crosses the high watermark.
    pub fn mark_warm_disk_unhealthy(&mut self, i: usize) -> (r: Result<(), WorkerError>)
        requires
            old(self).wf(),
        ensures
            final(self).wf(),
            final(self).hot_spec() == old(self).hot_spec(),
            final(self).cold_spec() == old(self).cold_spec(),
            final(self).config_spec() == old(self).config_spec(),
            final(self).queue_spec() == old(self).queue_spec(),
            final(self).event_num_spec() == old(self).event_num_spec(),
            final(self).event_bus_capacity_spec() == old(self).event_bus_capacity_spec(),
            r is Ok <==> (match old(self).warm_spec() {
                Some(PersistentTierStore::LOCALFILE(s)) => (i as int) < s.disks_spec().len(),
                _ => false,
            }),
            r is Ok ==> (match (old(self).warm_spec(), final(self).warm_spec()) {
                (
                    Some(PersistentTierStore::LOCALFILE(s0)),
                    Some(PersistentTierStore::LOCALFILE(s1)),
                ) => ({
                    &&& s1.partitions_spec() == s0.partitions_spec()
                    &&& s1.disks_spec() == s0.disks_spec().update(
                        i as int,
                        s1.disks_spec()[i as int],
                    )
                    &&& !s1.disks_spec()[i as int].healthy_spec()
                    &&& s1.disks_spec()[i as int].corrupted_spec() == s0.disks_spec()[
                        i as int].corrupted_spec()
                    &&& s1.disks_spec()[i as int].root_spec() == s0.disks_spec()[
                        i as int].root_spec()
                }),
                _ => false,
            }),
            r is Err ==> final(self).warm_spec() == old(self).warm_spec() && r == Err::<
                (),
                WorkerError,
            >(WorkerError::INTERNAL_ERROR),
    {
        let mut warm = self.warm_store.take();
        let r = match warm {
            Some(PersistentTierStore::LOCALFILE(ref mut s)) => {
                if i < s.disk_count() {
                    s.mark_disk_unhealthy(i)
                } else {
                    Err(WorkerError::INTERNAL_ERROR)
                }
            },
            _ => Err(WorkerError::INTERNAL_ERROR),
        };
        self.warm_store = warm;
        r
    }

    /// Marks one disk of the warm local tier corrupted, as a failed canary
    /// check would.
    pub fn mark_warm_disk_corrupted(&mut self, i: usize) -> (r: Result<(), WorkerError>)
        requires
            old(self).wf(),
        ensures
            final(self).wf(),
            final(self).hot_spec() == old(self).hot_spec(),
            final(self).cold_spec() == old(self).cold_spec(),
            final(self).config_spec() == old(self).config_spec(),
            final(self).queue_spec() == old(self).queue_spec(),
            final(self).event_num_spec() == old(self).event_num_spec(),
            final(self).event_bus_capacity_spec() == old(self).event_bus_capacity_spec(),
            r is Ok <==> (match old(self).warm_spec() {
                Some(PersistentTierStore::LOCALFILE(s)) => (i as int) < s.disks_spec().len(),
                _ => false,
            }),
            r is Ok ==> (match (old(self).warm_spec(), final(self).warm_spec()) {
                (
                    Some(PersistentTierStore::LOCALFILE(s0)),
                    Some(PersistentTierStore::LOCALFILE(s1)),
                ) => ({
                    &&& s1.partitions_spec() == s0.partitions_spec()
                    &&& s1.disks_spec() == s0.disks_spec().update(
                        i as int,
                        s1.disks_spec()[i as int],
                    )
                    &&& s1.disks_spec()[i as int].corrupted_spec()
                    &&& s1.disks_spec()[i as int].healthy_spec() == s0.disks_spec()[
                        i as int].healthy_spec()
                }),
                _ => false,
            }),
            r is Err ==> final(self).warm_spec() == old(self).warm_spec() && r == Err::<
                (),
                WorkerError,
            >(WorkerError::INTERNAL_ERROR),
    {
        let mut warm = self.warm_store.take();
        let r = match warm {
            Some(PersistentTierStore::LOCALFILE(ref mut s)) => {
                if i < s.disk_count() {
                    s.mark_disk_corrupted(i)
                } else {
                    Err(WorkerError::INTERNAL_ERROR)
                }
            },
            _ => Err(WorkerError::INTERNAL_ERROR),
        };
        self.warm_store = warm;
        r
    }

    /// Records the successful append a spill plan described, on the tier
    /// kind that built it (the warm tier first for local plans, the cold
    /// tier first for remote ones): the tier's cached offset becomes the
    /// plan's new length.  A worker without such a tier, a negative
    /// length, or a partition the tier no longer knows is refused without
    /// change.
    pub fn commit_spill_plan(&mut self, plan: &SpillPlan) -> (r: Result<(), WorkerError>)
        requires
            old(self).wf(),
        ensures
            final(self).wf(),
            final(self).hot_spec() == old(self).hot_spec(),
            final(self).config_spec() == old(self).config_spec(),
            final(self).queue_spec() == old(self).queue_spec(),
            final(self).event_num_spec() == old(self).event_num_spec(),
            final(self).event_bus_capacity_spec() == old(self).event_bus_capacity_spec(),
            (match plan {
                SpillPlan::LOCALFILE(p) => ({
                    &&& (p.new_next_offset < 0 ==> r == Err::<(), WorkerError>(
                        WorkerError::INTERNAL_ERROR,
                    ) && final(self).warm_spec() == old(self).warm_spec() && final(self).cold_spec()
                        == old(self).cold_spec())
                    &&& (p.new_next_offset >= 0 ==> (match (
                        old(self).warm_spec(),
                        final(self).warm_spec(),
                    ) {
                        (
                            Some(PersistentTierStore::LOCALFILE(s0)),
                            Some(PersistentTierStore::LOCALFILE(s1)),
                        ) => crate::localfile::commit_append_post(
                            s0,
                            s1,
                            p.uid@,
                            p.new_next_offset as int,
                            r,
                        ) && final(self).cold_spec() == old(self).cold_spec(),
                        _ => (match (old(self).cold_spec(), final(self).cold_spec()) {
                            (
                                Some(PersistentTierStore::LOCALFILE(s0)),
                                Some(PersistentTierStore::LOCALFILE(s1)),
                            ) => crate::localfile::commit_append_post(
                                s0,
                                s1,
                                p.uid@,
                                p.new_next_offset as int,
                                r,
                            ) && final(self).warm_spec() == old(self).warm_spec(),
                            _ => r == Err::<(), WorkerError>(WorkerError::INTERNAL_ERROR)
                                && final(self).warm_spec() == old(self).warm_spec() && final(self).cold_spec() == old(self).cold_spec(),
                        }),
                    }))
                }),
                SpillPlan::HDFS(p) => ({
                    &&& (p.new_data_len < 0 ==> r == Err::<(), WorkerError>(
                        WorkerError::INTERNAL_ERROR,
                    ) && final(self).warm_spec() == old(self).warm_spec() && final(self).cold_spec()
                        == old(self).cold_spec())
                    &&& (p.new_data_len >= 0 ==> (match (
                        old(self).cold_spec(),
                        final(self).cold_spec(),
                    ) {
                        (
                            Some(PersistentTierStore::HDFS(s0)),
                            Some(PersistentTierStore::HDFS(s1)),
                        ) => crate::remote::commit_remote_post(
                            s0,
                            s1,
                            p.uid@,
                            p.new_data_len as int,
                            r,
                        ) && final(self).warm_spec() == old(self).warm_spec(),
                        _ => (match (old(self).warm_spec(), final(self).warm_spec()) {
                            (
                                Some(PersistentTierStore::HDFS(s0)),
                                Some(PersistentTierStore::HDFS(s1)),
                            ) => crate::remote::commit_remote_post(
                                s0,
                                s1,
                                p.uid@,
                                p.new_data_len as int,
                                r,
                            ) && final(self).cold_spec() == old(self).cold_spec(),
                            _ => r == Err::<(), WorkerError>(WorkerError::INTERNAL_ERROR)
                                && final(self).warm_spec() == old(self).warm_spec() && final(self).cold_spec() == old(self).cold_spec(),
                        }),
                    }))
                }),
            }),
    {
        match plan {
            SpillPlan::LOCALFILE(p) => {
                if p.new_next_offset < 0 {
                    return Err(WorkerError::INTERNAL_ERROR);
                }
                let warm_is_local = match &self.warm_store {
                    Some(PersistentTierStore::LOCALFILE(_)) => true,
                    _ => false,
                };
                if warm_is_local {
                    let mut warm = self.warm_store.take();
                    let r = match warm {
                        Some(PersistentTierStore::LOCALFILE(ref mut s)) => s.commit_append(
                            &p.uid,
                            p.new_next_offset,
                        ),
                        _ => Err(WorkerError::INTERNAL_ERROR),
                    };
                    self.warm_store = warm;
                    r
                } else {
                    let mut cold = self.cold_store.take();
                    let r = match cold {
                        Some(PersistentTierStore::LOCALFILE(ref mut s)) => s.commit_append(
                            &p.uid,
                            p.new_next_offset,
                        ),
                        _ => Err(WorkerError::INTERNAL_ERROR),
                    };
                    self.cold_store = cold;
                    r
                }
            },
            SpillPlan::HDFS(p) => {
                if p.new_data_len < 0 {
                    return Err(WorkerError::INTERNAL_ERROR);
                }
                let cold_is_hdfs = match &self.cold_store {
                    Some(PersistentTierStore::HDFS(_)) => true,
                    _ => false,
                };
                if cold_is_hdfs {
                    let mut cold = self.cold_store.take();
                    let r = match cold {
                        Some(PersistentTierStore::HDFS(ref mut s)) => s.commit_data_insert(
                            &p.uid,
                            p.new_data_len,
                        ),
                        _ => Err(WorkerError::INTERNAL_ERROR),
                    };
                    self.cold_store = cold;
                    r
                } else {
                    let mut warm = self.warm_store.take();
                    let r = match warm {
                        Some(PersistentTierStore::HDFS(ref mut s)) => s.commit_data_insert(
                            &p.uid,
                            p.new_data_len,
                        ),
                        _ => Err(WorkerError::INTERNAL_ERROR),
                    };
                    self.warm_store = warm;
                    r
                }
            },
        }
    }

    fn purge_tier(tier: &mut PersistentTierStore, app_id: &String, shuffle_id: Option<i32>) -> (r:
        i64)
        requires
            old(tier).wf(),
        ensures
            final(tier).wf(),
            tier_purge_post(Some(*old(tier)), Some(*final(tier)), app_id@, shuffle_id),
            r == tier_purge_removed(Some(*old(tier)), app_id@, shuffle_id),
            0 <= r,
    {
        match tier {
            PersistentTierStore::LOCALFILE(s) => {
                match s.purge(app_id, shuffle_id) {
                    Ok(n) => n,
                    Err(_) => 0,
                }
            },
            PersistentTierStore::HDFS(s) => {
                match s.purge(app_id, shuffle_id) {
                    Ok(n) => n,
                    Err(_) => 0,
                }
            },
        }
    }

    /// Lets every expired reservation ticket go, returning its bytes from
    /// allocated to free, as the periodic reaper does.
    pub fn reap_expired_tickets(&mut self, now: u64) -> (r: Result<(), WorkerError>)
        requires
            old(self).wf(),
        ensures
            final(self).wf(),
            r is Ok,
            final(self).hot_spec().tickets() == crate::ticket::tickets_where(
                old(self).hot_spec().tickets(),
                |t: crate::ticket::TicketV| !crate::ticket::ticket_expired(
                    t,
                    now as int,
                    old(self).hot_spec().ticket_ttl_spec(),
                ),
            ),
            final(self).hot_spec().allocated_spec() == crate::memstore::release_fold(
                crate::ticket::tickets_where(
                    old(self).hot_spec().tickets(),
                    |t: crate::ticket::TicketV| crate::ticket::ticket_expired(
                        t,
                        now as int,
                        old(self).hot_spec().ticket_ttl_spec(),
                    ),
                ),
                old(self).hot_spec().allocated_spec(),
            ),
            final(self).hot_spec().used_spec() == old(self).hot_spec().used_spec(),
            final(self).hot_spec().entries() == old(self).hot_spec().entries(),
            final(self).warm_spec() == old(self).warm_spec(),
            final(self).cold_spec() == old(self).cold_spec(),
            final(self).config_spec() == old(self).config_spec(),
            final(self).queue_spec() == old(self).queue_spec(),
            final(self).event_num_spec() == old(self).event_num_spec(),
            final(self).event_bus_capacity_spec() == old(self).event_bus_capacity_spec(),
    {
        self.hot_store.reap_expired_tickets(now)
    }

    /// The hybrid is healthy while the hot tier is and some persistent
    /// tier is (a missing tier counts as healthy, as in a memory-only
    /// worker).
    pub fn is_healthy(&self) -> (r: Result<bool, WorkerError>)
        ensures
            r == Ok::<bool, WorkerError>(
                (match self.warm_spec() {
                    Some(w) => w.healthy_spec(),
                    None => true,
                }) || (match self.cold_spec() {
                    Some(c) => c.healthy_spec(),
                    None => true,
                }),
            ),
    {
        let warm = match &self.warm_store {
            Some(w) => match w.is_healthy() {
                Ok(h) => h,
                Err(_) => false,
            },
            None => true,
        };
        let cold = match &self.cold_store {
            Some(c) => match c.is_healthy() {
                Ok(h) => h,
                Err(_) => false,
            },
            None => true,
        };
        let hot = match self.hot_store.is_healthy() {
            Ok(h) => h,
            Err(_) => false,
        };
        Ok(hot && (warm || cold))
    }

    /// Reserves bytes against the hot store's budget.
    pub fn require_buffer(&mut self, ctx: RequireBufferContext, now: u64) -> (r: Result<
        RequireBufferResponse,
        WorkerError,
    >)
        requires
            old(self).wf(),
            0 <= ctx.size,
        ensures
            final(self).wf(),
            r is Ok <==> (old(self).hot_spec().used_spec() + old(self).hot_spec().allocated_spec()
                + ctx.size <= old(self).hot_spec().budget_spec().capacity_spec() && old(self).hot_spec().budget_spec().ticket_counter_spec() < u64::MAX),
            r is Err ==> final(self).hot_spec().allocated_spec() == old(self).hot_spec().allocated_spec() && final(self).hot_spec().used_spec() == old(self).hot_spec().used_spec() && r == Err::<RequireBufferResponse, WorkerError>(
                WorkerError::NO_ENOUGH_MEMORY_TO_BE_ALLOCATED,
            ),
            r is Ok ==> final(self).hot_spec().allocated_spec() == old(self).hot_spec().allocated_spec() + ctx.size && final(self).hot_spec().used_spec() == old(self).hot_spec().used_spec(),
            r matches Ok(resp) ==> final(self).hot_spec().tickets() == old(self).hot_spec().tickets().push(
                crate::ticket::TicketV {
                    ticket_id: resp.ticket_id as int,
                    size: ctx.size as int,
                    created_at: now as int,
                    app_id: ctx.uid@.app_id,
                },
            ),
            final(self).warm_spec() == old(self).warm_spec(),
            final(self).cold_spec() == old(self).cold_spec(),
            final(self).config_spec() == old(self).config_spec(),
    {
        self.hot_store.require_buffer(ctx, now)
    }

    /// Releases a reservation ticket through the hot store.
    pub fn release_ticket(&mut self, ctx: ReleaseTicketContext) -> (r: Result<i64, WorkerError>)
        requires
            old(self).wf(),
        ensures
            final(self).wf(),
            r is Ok <==> crate::ticket::find_ticket(
                old(self).hot_spec().tickets(),
                ctx.ticket_id as int,
            ) is Some,
            r matches Ok(size) ==> size == crate::ticket::find_ticket(
                old(self).hot_spec().tickets(),
                ctx.ticket_id as int,
            )->0.size && final(self).hot_spec().allocated_spec() == (
            if size <= old(self).hot_spec().allocated_spec() {
                old(self).hot_spec().allocated_spec() - size
            } else {
                old(self).hot_spec().allocated_spec()
            }),
            r is Err ==> r == Err::<i64, WorkerError>(WorkerError::TICKET_ID_NOT_EXIST),
            final(self).hot_spec().used_spec() == old(self).hot_spec().used_spec(),
            final(self).warm_spec() == old(self).warm_spec(),
            final(self).cold_spec() == old(self).cold_spec(),
            final(self).config_spec() == old(self).config_spec(),
    {
        self.hot_store.release_buffer(ReleaseBufferContext { ticket_id: ctx.ticket_id })
    }

    /// Registers an app in every tier.  The memory and local tiers need no
    /// per-app state; the remote tier (the cold store when present, else a
    /// remote warm store) builds its client from the remote storage
    /// config: success exactly when that config is present and its root
    /// URL parses, with nothing owed on a worker without a remote tier.
    pub fn register_app(&mut self, ctx: RegisterAppContext) -> (r: Result<(), WorkerError>)
        requires
            old(self).wf(),
        ensures
            final(self).wf(),
            final(self).hot_spec() == old(self).hot_spec(),
            final(self).config_spec() == old(self).config_spec(),
            final(self).queue_spec() == old(self).queue_spec(),
            final(self).event_num_spec() == old(self).event_num_spec(),
            final(self).event_bus_capacity_spec() == old(self).event_bus_capacity_spec(),
            (match old(self).cold_spec() {
                Some(PersistentTierStore::HDFS(_)) => (match (
                    old(self).cold_spec(),
                    final(self).cold_spec(),
                ) {
                    (
                        Some(PersistentTierStore::HDFS(c0)),
                        Some(PersistentTierStore::HDFS(c1)),
                    ) => crate::remote::register_app_post(
                        c0,
                        c1,
                        ctx.app_id@,
                        ctx.remote_storage_config_option,
                        r,
                    ) && final(self).warm_spec() == old(self).warm_spec(),
                    _ => false,
                }),
                _ => (match old(self).warm_spec() {
                    Some(PersistentTierStore::HDFS(_)) => (match (
                        old(self).warm_spec(),
                        final(self).warm_spec(),
                    ) {
                        (
                            Some(PersistentTierStore::HDFS(w0)),
                            Some(PersistentTierStore::HDFS(w1)),
                        ) => crate::remote::register_app_post(
                            w0,
                            w1,
                            ctx.app_id@,
                            ctx.remote_storage_config_option,
                            r,
                        ) && final(self).cold_spec() == old(self).cold_spec(),
                        _ => false,
                    }),
                    _ => r is Ok && final(self).warm_spec() == old(self).warm_spec() && final(self).cold_spec() == old(self).cold_spec(),
                }),
            }),
    {
        let _ = self.hot_store.register_app(&ctx.app_id);
        let cold_is_hdfs = match &self.cold_store {
            Some(PersistentTierStore::HDFS(_)) => true,
            _ => false,
        };
        if cold_is_hdfs {
            let mut cold = self.cold_store.take();
            let r = match cold {
                Some(PersistentTierStore::HDFS(ref mut s)) => s.register_app(ctx),
                _ => Err(WorkerError::INTERNAL_ERROR),
            };
            self.cold_store = cold;
            return r;
        }
        let warm_is_hdfs = match &self.warm_store {
            Some(PersistentTierStore::HDFS(_)) => true,
            _ => false,
        };
        if warm_is_hdfs {
            let mut warm = self.warm_store.take();
            let r = match warm {
                Some(PersistentTierStore::HDFS(ref mut s)) => s.register_app(ctx),
                _ => Err(WorkerError::INTERNAL_ERROR),
            };
            self.warm_store = warm;
            return r;
        }
        Ok(())
    }
}




/// The spill target in bytes: capacity times the low watermark, in
/// integer thousandths.
pub open spec fn spill_target(capacity: int, low_permille: int) -> int {
    capacity * low_permille / 1000
}


/// Whether hot usage `(used + allocated - in-flight) / capacity` lies
/// strictly above the high watermark given in thousandths.
pub open spec fn usage_exceeds_high(hot: MemoryStore, high_permille: int) -> bool {
    (hot.used_spec() + hot.allocated_spec() - hot.inflight_spec()) * 1000 > hot.capacity_spec()
        * high_permille
}

/// What one watermark spill pass does, from one store state to the next:
/// the picked partitions drain, the drained flights' messages join the
/// queue while it has room, the drained bytes go in flight, and the
/// budget counters, tiers and every reader-visible view are untouched.
pub open spec fn spill_pass_post(pre: HybridStore, post: HybridStore) -> bool {
    let picked = crate::memstore::pick_candidates(
        crate::memstore::spill_pairs(pre.hot_spec().entries()),
        pre.hot_spec().used_spec() - spill_target(
            pre.hot_spec().capacity_spec(),
            pre.config_spec().memory_spill_low_watermark_permille as int,
        ),
    );
    let drained = crate::memstore::drainable_uids(pre.hot_spec().entries(), picked);
    let published = if drained.len() <= pre.event_bus_capacity_spec() - pre.queue_spec().len() {
        drained.len() as int
    } else {
        pre.event_bus_capacity_spec() - pre.queue_spec().len()
    };
    &&& post.hot_spec().used_spec() == pre.hot_spec().used_spec()
    &&& post.hot_spec().allocated_spec() == pre.hot_spec().allocated_spec()
    &&& post.hot_spec().capacity_spec() == pre.hot_spec().capacity_spec()
    &&& post.hot_spec().tickets() == pre.hot_spec().tickets()
    &&& post.hot_spec().budget_spec().ticket_counter_spec() == pre.hot_spec().budget_spec().ticket_counter_spec()
    &&& post.warm_spec() == pre.warm_spec()
    &&& post.cold_spec() == pre.cold_spec()
    &&& post.config_spec() == pre.config_spec()
    &&& post.event_bus_capacity_spec() == pre.event_bus_capacity_spec()
    &&& (forall|u: UidV| #[trigger]
        crate::memstore::read_view(post.hot_spec().entries(), u) == crate::memstore::read_view(
            pre.hot_spec().entries(),
            u,
        ))
    &&& spill_pass_buffers_ok(pre.hot_spec().entries(), post.hot_spec().entries(), drained)
    &&& spill_pass_messages_ok(
        pre.hot_spec().entries(),
        pre.queue_spec(),
        post.queue_spec(),
        drained,
        pre.event_bus_capacity_spec(),
    )
    &&& post.event_num_spec() == (if pre.event_num_spec() + published <= u64::MAX {
        pre.event_num_spec() + published
    } else {
        u64::MAX as int
    })
    &&& post.hot_spec().inflight_spec() == (if pre.hot_spec().inflight_spec()
        + crate::memstore::staged_sum(pre.hot_spec().entries(), drained) <= u64::MAX {
        pre.hot_spec().inflight_spec() + crate::memstore::staged_sum(
            pre.hot_spec().entries(),
            drained,
        )
    } else {
        u64::MAX as int
    })
}

/// The message one drained flight publishes: the partition's staged
/// blocks, their byte size, a fresh retry count and the flight id that
/// later releases the memory.
pub open spec fn spilled_message_for(
    m: SpillMessage,
    u: UidV,
    entries: Seq<crate::memstore::BufferEntry>,
) -> bool {
    match crate::memstore::buffer_of(entries, u) {
        Some(b) => m.ctx.uid@ == u && views_of(m.ctx.data_blocks@) == b.staging_view() && m.size
            == b.staging_size_spec() && m.retry_cnt == 0 && m.previous_spilled_storage is None
            && m.flight_id == b.counter_spec(),
        None => false,
    }
}

/// One drained partition: staging moved whole into a fresh flight, the
/// byte total untouched.
pub open spec fn drained_buffer_for(
    old_entries: Seq<crate::memstore::BufferEntry>,
    new_entries: Seq<crate::memstore::BufferEntry>,
    u: UidV,
) -> bool {
    match (
        crate::memstore::buffer_of(old_entries, u),
        crate::memstore::buffer_of(new_entries, u),
    ) {
        (Some(b0), Some(b1)) => b1.staging_view() == Seq::<BlockV>::empty() && b1.flights_view()
            == b0.flights_view().push(
            (crate::buffer::FlightV { flight_id: b0.counter_spec(), blocks: b0.staging_view() }),
        ) && b1.counter_spec() == b0.counter_spec() + 1 && b1.total_size_spec()
            == b0.total_size_spec() && b1.staging_size_spec() == 0,
        _ => false,
    }
}

/// What one watermark pass does to the buffers: every drained partition's
/// staging moved into a fresh flight, and every other partition's buffer
/// stands untouched.
pub open spec fn spill_pass_buffers_ok(
    old_entries: Seq<crate::memstore::BufferEntry>,
    new_entries: Seq<crate::memstore::BufferEntry>,
    drained: Seq<UidV>,
) -> bool {
    &&& (forall|j: int|
        0 <= j < drained.len() ==> drained_buffer_for(
            old_entries,
            new_entries,
            #[trigger] drained[j],
        ))
    &&& (forall|u: UidV|
        (forall|j: int| 0 <= j < drained.len() ==> #[trigger] drained[j] != u)
            ==> #[trigger] crate::memstore::buffer_of(new_entries, u)
            == crate::memstore::buffer_of(old_entries, u))
}

/// What one watermark pass does to the spill queue: the old messages keep
/// their places, and one message per drained flight joins in drain order
/// while the bounded queue has room.
pub open spec fn spill_pass_messages_ok(
    old_entries: Seq<crate::memstore::BufferEntry>,
    old_queue: Seq<SpillMessage>,
    new_queue: Seq<SpillMessage>,
    drained: Seq<UidV>,
    bus_capacity: int,
) -> bool {
    let published = if drained.len() <= bus_capacity - old_queue.len() {
        drained.len() as int
    } else {
        bus_capacity - old_queue.len()
    };
    &&& new_queue.len() == old_queue.len() + published
    &&& (forall|j: int| 0 <= j < old_queue.len() ==> #[trigger] new_queue[j] == old_queue[j])
    &&& (forall|j: int|
        0 <= j < published ==> spilled_message_for(
            new_queue[old_queue.len() + j],
            #[trigger] drained[j],
            old_entries,
        ))
}


/// Every drainable pick is one of the picks.
proof fn lemma_drainable_uids_subset(
    entries: Seq<crate::memstore::BufferEntry>,
    uids: Seq<UidV>,
)
    ensures
        forall|i: int| #![trigger crate::memstore::drainable_uids(entries, uids)[i]]
            0 <= i < crate::memstore::drainable_uids(entries, uids).len() ==> exists|k: int|
                0 <= k < uids.len() && #[trigger] uids[k] == crate::memstore::drainable_uids(
                    entries,
                    uids,
                )[i],
    decreases uids.len(),
{
    if uids.len() > 0 {
        let d = uids.drop_last();
        lemma_drainable_uids_subset(entries, d);
        let w = crate::memstore::drainable_uids(entries, uids);
        let wd = crate::memstore::drainable_uids(entries, d);
        assert forall|i: int| #![trigger w[i]] 0 <= i < w.len() implies exists|k: int|
            0 <= k < uids.len() && #[trigger] uids[k] == w[i] by {
            if crate::memstore::drainable(entries, uids.last()) && i == w.len() - 1 {
                assert(uids[uids.len() - 1] == w[i]);
            } else {
                let k = choose|k: int| 0 <= k < d.len() && #[trigger] d[k] == wd[i];
                assert(uids[k] == w[i]);
            }
        }
    }
}

/// What one spill delivery's plan-building does on the selected tier:
/// exactly the tier's own prepare contract, with the plan carried in the
/// matching variant.
pub open spec fn tier_spill_prepare_post(
    pre: PersistentTierStore,
    post: PersistentTierStore,
    uid: UidV,
    blocks: Seq<BlockV>,
    r: Result<SpillPlan, WorkerError>,
) -> bool {
    match (pre, post) {
        (
            PersistentTierStore::LOCALFILE(s0),
            PersistentTierStore::LOCALFILE(s1),
        ) => (match r {
            Ok(SpillPlan::LOCALFILE(p)) => crate::localfile::prepare_spill_post(
                s0,
                s1,
                uid,
                blocks,
                Ok::<LocalAppendPlan, WorkerError>(p),
            ),
            Ok(SpillPlan::HDFS(_)) => false,
            Err(e) => crate::localfile::prepare_spill_post(
                s0,
                s1,
                uid,
                blocks,
                Err::<LocalAppendPlan, WorkerError>(e),
            ),
        }),
        (PersistentTierStore::HDFS(s0), PersistentTierStore::HDFS(s1)) => (match r {
            Ok(SpillPlan::HDFS(p)) => crate::remote::prepare_remote_post(
                s0,
                s1,
                uid,
                blocks,
                Ok::<RemoteAppendPlan, WorkerError>(p),
            ),
            Ok(SpillPlan::LOCALFILE(_)) => false,
            Err(e) => crate::remote::prepare_remote_post(
                s0,
                s1,
                uid,
                blocks,
                Err::<RemoteAppendPlan, WorkerError>(e),
            ),
        }),
        _ => false,
    }
}

/// The bytes one tier's purge removes for the scope.
pub open spec fn tier_purge_removed(
    tier: Option<PersistentTierStore>,
    app_id: Seq<char>,
    shuffle_id: Option<i32>,
) -> int {
    match tier {
        Some(PersistentTierStore::LOCALFILE(s)) => crate::localfile::local_purge_removed(
            s.partitions_spec(),
            app_id,
            shuffle_id,
        ),
        Some(PersistentTierStore::HDFS(s)) => crate::remote::remote_purge_removed(
            s,
            app_id,
            shuffle_id,
        ),
        None => 0,
    }
}

/// What one tier's purge does to its state.
pub open spec fn tier_purge_post(
    pre: Option<PersistentTierStore>,
    post: Option<PersistentTierStore>,
    app_id: Seq<char>,
    shuffle_id: Option<i32>,
) -> bool {
    match (pre, post) {
        (
            Some(PersistentTierStore::LOCALFILE(s0)),
            Some(PersistentTierStore::LOCALFILE(s1)),
        ) => ({
            &&& s1.disks_spec() == s0.disks_spec()
            &&& s1.partitions_spec() == crate::localfile::file_entries_where(
                s0.partitions_spec(),
                |e: crate::localfile::FileEntry| !crate::localfile::file_in_purge_scope(
                    e,
                    app_id,
                    shuffle_id,
                ),
            )
        }),
        (Some(PersistentTierStore::HDFS(s0)), Some(PersistentTierStore::HDFS(s1))) => ({
            &&& (crate::remote::find_client_pos(s0.clients_spec(), app_id) is None
                ==> s1.metas_spec() == s0.metas_spec() && s1.clients_spec() == s0.clients_spec())
            &&& (crate::remote::find_client_pos(s0.clients_spec(), app_id) is Some ==> ({
                &&& s1.metas_spec() == crate::remote::remote_entries_where(
                    s0.metas_spec(),
                    |e: crate::remote::RemoteMetaEntry| !crate::remote::remote_in_purge_scope(
                        e,
                        app_id,
                        shuffle_id,
                    ),
                )
                &&& (shuffle_id is None ==> s1.clients_spec() == crate::remote::remove_client(
                    s0.clients_spec(),
                    app_id,
                ))
                &&& (shuffle_id is Some ==> s1.clients_spec() == s0.clients_spec())
            }))
        }),
        (None, None) => true,
        _ => false,
    }
}

pub open spec fn queued_messages_wf(q: Seq<SpillMessage>) -> bool {
    forall|i: int| 0 <= i < q.len() ==> spill_message_wf(#[trigger] q[i])
}

} // verus!
