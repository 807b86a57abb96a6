use crate::block::{
    blocks_wf, concat_data, lemma_sum_lengths_nonneg, sum_lengths, views_of, Block, BlockV,
    PartitionedUId, UidV,
};
use crate::codec::{index_bytes, records_for, IndexRecord};
use crate::config::LocalfileStoreConfig;
use crate::disk::{watermarks_wf, LocalDiskDelegator};
use crate::error::WorkerError;
use vstd::prelude::*;

verus! {

/// Where one partition's file pair lives and how long its data file is.
pub struct PartitionFileMeta {
    pub disk_index: usize,
    pub next_offset: i64,
}

/// One partition's local-file bookkeeping, keyed by its id.
pub struct FileEntry {
    pub uid: PartitionedUId,
    pub meta: PartitionFileMeta,
}

/// Position of the entry with the given partition id, if any.
pub open spec fn find_file_pos(s: Seq<FileEntry>, uid: UidV) -> Option<int>
    decreases s.len(),
{
    if s.len() == 0 {
        None
    } else if s[0].uid@ == uid {
        Some(0int)
    } else {
        match find_file_pos(s.drop_first(), uid) {
            Some(k) => Some(k + 1),
            None => None,
        }
    }
}

/// The meta stored under the given partition id, if any.
pub open spec fn meta_of(s: Seq<FileEntry>, uid: UidV) -> Option<PartitionFileMeta> {
    match find_file_pos(s, uid) {
        Some(k) => Some(s[k].meta),
        None => None,
    }
}

/// The entries satisfying `pred`, in order.
pub open spec fn file_entries_where(s: Seq<FileEntry>, pred: spec_fn(FileEntry) -> bool) -> Seq<
    FileEntry,
>
    decreases s.len(),
{
    if s.len() == 0 {
        s
    } else if pred(s.last()) {
        file_entries_where(s.drop_last(), pred).push(s.last())
    } else {
        file_entries_where(s.drop_last(), pred)
    }
}

/// Whether an entry belongs to the purge scope.
pub open spec fn file_in_purge_scope(e: FileEntry, app_id: Seq<char>, shuffle_id: Option<i32>) -> bool {
    e.uid@.app_id == app_id && match shuffle_id {
        Some(s) => e.uid@.shuffle_id == s as int,
        None => true,
    }
}

/// Total data-file bytes over entries.
pub open spec fn file_entries_total(s: Seq<FileEntry>) -> int
    decreases s.len(),
{
    if s.len() == 0 {
        0
    } else {
        file_entries_total(s.drop_last()) + s.last().meta.next_offset
    }
}

/// A stable hash of the partition id, used to pin the partition to a disk.
pub open spec fn uid_disk_hash(uid: UidV) -> int {
    let h = uid.shuffle_id * 31 + uid.partition_id;
    if h < 0 {
        -h
    } else {
        h
    }
}

/// The indices of the healthy, non-corrupted disks, in order.
pub open spec fn alive_indices(disks: Seq<LocalDiskDelegator>) -> Seq<int>
    decreases disks.len(),
{
    if disks.len() == 0 {
        Seq::empty()
    } else if disks.last().healthy_spec() && !disks.last().corrupted_spec() {
        alive_indices(disks.drop_last()).push(disks.len() - 1)
    } else {
        alive_indices(disks.drop_last())
    }
}

/// Which disk a new partition is assigned: the hash of its id modulo the
/// alive-disk count at that moment, or none when no disk is alive.
pub open spec fn assigned_disk(disks: Seq<LocalDiskDelegator>, uid: UidV) -> Option<int> {
    let alive = alive_indices(disks);
    if alive.len() == 0 {
        None
    } else {
        Some(alive[uid_disk_hash(uid) % (alive.len() as int)])
    }
}

pub open spec fn usizes_as_ints(s: Seq<usize>) -> Seq<int> {
    Seq::new(s.len(), |i: int| s[i] as int)
}

/// What one local append writes: the file pair of a partition on one disk
/// root, the data and index bytes, and the data length afterwards.
pub struct LocalAppendPlan {
    pub disk_index: usize,
    pub root: String,
    pub uid: PartitionedUId,
    pub newly_assigned: bool,
    pub data: Vec<u8>,
    pub index: Vec<u8>,
    pub new_next_offset: i64,
}

/// Where to read one partition's file pair.
pub struct LocalReadPlan {
    pub disk_index: usize,
    pub root: String,
    pub uid: PartitionedUId,
    pub next_offset: i64,
}


/// What one `prepare_spill_insert` call does: on success the plan carries
/// the blocks' bytes and index records from the cached base offset, the
/// partition is pinned (freshly, when new) and the meta is untouched until
/// commit; failure (no alive disk for a new partition, or an i64 overflow
/// on a known one) changes nothing.
pub open spec fn prepare_spill_post(
    pre: LocalFileStore,
    post: LocalFileStore,
    uid: UidV,
    blocks: Seq<BlockV>,
    r: Result<LocalAppendPlan, WorkerError>,
) -> bool {
    &&& post.wf()
    &&& post.disks_spec() == pre.disks_spec()
    &&& (r matches Ok(plan) ==> ({
        let base = (match meta_of(pre.partitions_spec(), uid) {
            Some(m) => m.next_offset as int,
            None => 0int,
        });
        &&& plan.data@ == concat_data(blocks)
        &&& plan.index@ == index_bytes(records_for(blocks, base))
        &&& plan.new_next_offset == base + sum_lengths(blocks)
        &&& plan.uid@ == uid
        &&& (plan.disk_index as int) < post.disks_spec().len()
        &&& plan.root@ == post.disks_spec()[plan.disk_index as int].root_spec()
        &&& (meta_of(post.partitions_spec(), uid) matches Some(m) && m.disk_index
            == plan.disk_index && m.next_offset as int == base)
        &&& plan.newly_assigned == (meta_of(pre.partitions_spec(), uid) is None)
        &&& (plan.newly_assigned ==> assigned_disk(pre.disks_spec(), uid) == Some(
            plan.disk_index as int,
        ) && post.partitions_spec() == pre.partitions_spec().push(
            post.partitions_spec().last(),
        ))
        &&& (!plan.newly_assigned ==> post.partitions_spec() == pre.partitions_spec())
    }))
    &&& (match meta_of(pre.partitions_spec(), uid) {
        Some(m) => r is Ok <==> m.next_offset + sum_lengths(blocks) <= i64::MAX,
        None => r is Ok <==> assigned_disk(pre.disks_spec(), uid) is Some,
    })
    &&& (r is Err ==> post.partitions_spec() == pre.partitions_spec() && (r == Err::<
        LocalAppendPlan,
        WorkerError,
    >(WorkerError::NO_AVAILABLE_LOCAL_DISK) || r == Err::<LocalAppendPlan, WorkerError>(
        WorkerError::INTERNAL_ERROR,
    )))
}

/// What one `commit_append` call does: the known partition's cached data
/// length becomes the committed one; an unknown partition is refused
/// without change.
pub open spec fn commit_append_post(
    pre: LocalFileStore,
    post: LocalFileStore,
    uid: UidV,
    new_next_offset: int,
    r: Result<(), WorkerError>,
) -> bool {
    &&& post.wf()
    &&& post.disks_spec() == pre.disks_spec()
    &&& (r is Ok <==> meta_of(pre.partitions_spec(), uid) is Some)
    &&& (r is Err ==> post.partitions_spec() == pre.partitions_spec() && r == Err::<
        (),
        WorkerError,
    >(WorkerError::PARTITION_DATA_NOT_FOUND))
    &&& (r is Ok ==> (match find_file_pos(pre.partitions_spec(), uid) {
        Some(k) => post.partitions_spec() == pre.partitions_spec().update(
            k,
            post.partitions_spec()[k],
        ) && post.partitions_spec()[k].uid@ == uid && post.partitions_spec()[k].meta.disk_index
            == pre.partitions_spec()[k].meta.disk_index && post.partitions_spec()[
            k].meta.next_offset == new_next_offset,
        None => false,
    }))
}

/// The data-file bytes one purge scope covers, saturated at the i64 limit.
pub open spec fn local_purge_removed(
    partitions: Seq<FileEntry>,
    app_id: Seq<char>,
    shuffle_id: Option<i32>,
) -> int {
    let total = file_entries_total(
        file_entries_where(partitions, |e: FileEntry| file_in_purge_scope(e, app_id, shuffle_id)),
    );
    if total <= i64::MAX {
        total
    } else {
        i64::MAX as int
    }
}

/// What one `run_disk_periodic_check` call does: disk `i` takes one
/// health transition from the observations; everything else stands.
pub open spec fn local_disk_check_post(
    pre: LocalFileStore,
    post: LocalFileStore,
    i: int,
    capacity: int,
    available: int,
    written: Seq<u8>,
    read_back: Seq<u8>,
) -> bool {
    &&& post.wf()
    &&& post.partitions_spec() == pre.partitions_spec()
    &&& post.disks_spec() == pre.disks_spec().update(i, post.disks_spec()[i])
    &&& crate::disk::periodic_check_post(
        pre.disks_spec()[i],
        post.disks_spec()[i],
        capacity,
        available,
        written,
        read_back,
    )
}

/// The local-disk tier: shards partitions across the alive disks, pins the
/// assignment on first write, and tracks each data file's length.  The
/// caller performs the file I/O the plans describe.
pub struct LocalFileStore {
    disks: Vec<LocalDiskDelegator>,
    partitions: Vec<FileEntry>,
}

impl LocalFileStore {
    pub closed spec fn disks_spec(&self) -> Seq<LocalDiskDelegator> {
        self.disks@
    }

    pub closed spec fn partitions_spec(&self) -> Seq<FileEntry> {
        self.partitions@
    }

    /// Distinct partition ids, disk indices in range, nonnegative file
    /// lengths, and watermark fractions on every disk.
    pub open spec fn wf(&self) -> bool {
        &&& forall|i: int, j: int|
            0 <= i < j < self.partitions_spec().len() ==> (
            #[trigger] self.partitions_spec()[i]).uid@ != (#[trigger] self.partitions_spec()[j]).uid@
        &&& forall|i: int|
            0 <= i < self.partitions_spec().len() ==> (
            #[trigger] self.partitions_spec()[i]).meta.disk_index < self.disks_spec().len() && 0
                <= self.partitions_spec()[i].meta.next_offset
        &&& forall|i: int|
            0 <= i < self.disks_spec().len() ==> watermarks_wf(&#[trigger] self.disks_spec()[i])
    }

    pub fn from(config: LocalfileStoreConfig) -> (r: Result<LocalFileStore, WorkerError>)
        requires
            config.disk_high_watermark_permille <= 1000,
            config.disk_low_watermark_permille <= 1000,
        ensures
            r matches Ok(store) ==> store.wf() && store.partitions_spec() == Seq::<
                FileEntry,
            >::empty() && store.disks_spec().len() == config.data_paths@.len() && (forall|i: int|
                0 <= i < store.disks_spec().len() ==> (#[trigger] store.disks_spec()[i]).healthy_spec()
                    && !store.disks_spec()[i].corrupted_spec() && store.disks_spec()[i].root_spec()
                    == config.data_paths@[i]@),
            r is Ok,
    {
        let mut disks: Vec<LocalDiskDelegator> = Vec::new();
        let mut i: usize = 0;
        let ghost paths = config.data_paths@;
        while i < config.data_paths.len()
            invariant
                i <= config.data_paths.len(),
                paths == config.data_paths@,
                config.disk_high_watermark_permille <= 1000,
                config.disk_low_watermark_permille <= 1000,
                disks@.len() == i,
                forall|j: int|
                    0 <= j < i ==> (#[trigger] disks@[j]).healthy_spec()
                        && !disks@[j].corrupted_spec() && disks@[j].root_spec() == paths[j]@
                        && watermarks_wf(&disks@[j]),
            decreases config.data_paths.len() - i,
        {
            let root = crate::block::clone_string(&config.data_paths[i]);
            disks.push(
                LocalDiskDelegator::new(
                    root,
                    config.disk_high_watermark_permille,
                    config.disk_low_watermark_permille,
                ),
            );
            i = i + 1;
        }
        let r = LocalFileStore { disks, partitions: Vec::new() };
        proof {
            assert(r.partitions_spec() =~= Seq::<FileEntry>::empty());
        }
        Ok(r)
    }

    pub fn disk_count(&self) -> (r: usize)
        ensures
            r == self.disks_spec().len(),
    {
        self.disks.len()
    }

    /// The root directory of one disk.
    pub fn read_disk_root(&self, i: usize) -> (r: Option<String>)
        ensures
            i < self.disks_spec().len() ==> (r matches Some(root) && root@ == self.disks_spec()[
                i as int].root_spec()),
            i >= self.disks_spec().len() ==> r is None,
    {
        if i < self.disks.len() {
            Some(crate::block::clone_string(self.disks[i].root()))
        } else {
            None
        }
    }

    /// Runs one periodic health check on disk `i` with the caller's
    /// observations.
    pub fn run_disk_periodic_check(
        &mut self,
        i: usize,
        capacity: u64,
        available: u64,
        written: &Vec<u8>,
        read_back: &Vec<u8>,
    ) -> (r: Result<(), WorkerError>)
        requires
            old(self).wf(),
            i < old(self).disks_spec().len(),
            available <= capacity,
        ensures
            r is Ok,
            local_disk_check_post(
                *old(self),
                *final(self),
                i as int,
                capacity as int,
                available as int,
                written@,
                read_back@,
            ),
    {
        let ghost ds = self.disks_spec();
        let mut d = self.disks.remove(i);
        let _ = d.periodic_check(capacity, available, written, read_back);
        self.disks.insert(i, d);
        proof {
            assert(self.disks_spec() =~= ds.update(i as int, self.disks_spec()[i as int]));
            assert(self.partitions_spec() =~= old(self).partitions_spec());
            assert forall|j: int| 0 <= j < self.partitions_spec().len() implies (
            #[trigger] self.partitions_spec()[j]).meta.disk_index < self.disks_spec().len() && 0
                <= self.partitions_spec()[j].meta.next_offset by {
                assert(self.partitions_spec()[j] == old(self).partitions_spec()[j]);
            }
            assert forall|a: int, b: int|
                0 <= a < b < self.partitions_spec().len() implies (
            #[trigger] self.partitions_spec()[a]).uid@ != (
            #[trigger] self.partitions_spec()[b]).uid@ by {
                assert(self.partitions_spec()[a] == old(self).partitions_spec()[a]);
                assert(self.partitions_spec()[b] == old(self).partitions_spec()[b]);
            }
            assert forall|j: int| 0 <= j < self.disks_spec().len() implies watermarks_wf(
                &#[trigger] self.disks_spec()[j],
            ) by {
                if j != i as int {
                    assert(self.disks_spec()[j] == ds[j]);
                }
            }
        }
        Ok(())
    }

    /// Marks disk `i` unhealthy, as the capacity checker would.
    pub fn mark_disk_unhealthy(&mut self, i: usize) -> (r: Result<(), WorkerError>)
        requires
            old(self).wf(),
            i < old(self).disks_spec().len(),
        ensures
            final(self).wf(),
            r is Ok,
            final(self).partitions_spec() == old(self).partitions_spec(),
            final(self).disks_spec() == old(self).disks_spec().update(
                i as int,
                final(self).disks_spec()[i as int],
            ),
            !final(self).disks_spec()[i as int].healthy_spec(),
            final(self).disks_spec()[i as int].corrupted_spec() == old(self).disks_spec()[
                i as int].corrupted_spec(),
            final(self).disks_spec()[i as int].root_spec() == old(self).disks_spec()[
                i as int].root_spec(),
            final(self).disks_spec()[i as int].high_spec() == old(self).disks_spec()[
                i as int].high_spec(),
            final(self).disks_spec()[i as int].low_spec() == old(self).disks_spec()[
                i as int].low_spec(),
    {
        let ghost ds = self.disks_spec();
        let mut d = self.disks.remove(i);
        let _ = d.mark_unhealthy();
        self.disks.insert(i, d);
        proof {
            assert(self.disks_spec() =~= ds.update(i as int, self.disks_spec()[i as int]));
            assert(self.partitions_spec() =~= old(self).partitions_spec());
            assert forall|j: int| 0 <= j < self.partitions_spec().len() implies (
            #[trigger] self.partitions_spec()[j]).meta.disk_index < self.disks_spec().len() && 0
                <= self.partitions_spec()[j].meta.next_offset by {
                assert(self.partitions_spec()[j] == old(self).partitions_spec()[j]);
            }
            assert forall|a: int, b: int|
                0 <= a < b < self.partitions_spec().len() implies (
            #[trigger] self.partitions_spec()[a]).uid@ != (
            #[trigger] self.partitions_spec()[b]).uid@ by {
                assert(self.partitions_spec()[a] == old(self).partitions_spec()[a]);
                assert(self.partitions_spec()[b] == old(self).partitions_spec()[b]);
            }
            assert forall|j: int| 0 <= j < self.disks_spec().len() implies watermarks_wf(
                &#[trigger] self.disks_spec()[j],
            ) by {
                if j != i as int {
                    assert(self.disks_spec()[j] == ds[j]);
                }
            }
        }
        Ok(())
    }

    /// Marks disk `i` corrupted, as a failed canary check would.
    pub fn mark_disk_corrupted(&mut self, i: usize) -> (r: Result<(), WorkerError>)
        requires
            old(self).wf(),
            i < old(self).disks_spec().len(),
        ensures
            final(self).wf(),
            r is Ok,
            final(self).partitions_spec() == old(self).partitions_spec(),
            final(self).disks_spec() == old(self).disks_spec().update(
                i as int,
                final(self).disks_spec()[i as int],
            ),
            final(self).disks_spec()[i as int].corrupted_spec(),
            final(self).disks_spec()[i as int].healthy_spec() == old(self).disks_spec()[
                i as int].healthy_spec(),
    {
        let ghost ds = self.disks_spec();
        let mut d = self.disks.remove(i);
        let _ = d.mark_corrupted();
        self.disks.insert(i, d);
        proof {
            assert(self.disks_spec() =~= ds.update(i as int, self.disks_spec()[i as int]));
            assert(self.partitions_spec() =~= old(self).partitions_spec());
            assert forall|j: int| 0 <= j < self.partitions_spec().len() implies (
            #[trigger] self.partitions_spec()[j]).meta.disk_index < self.disks_spec().len() && 0
                <= self.partitions_spec()[j].meta.next_offset by {
                assert(self.partitions_spec()[j] == old(self).partitions_spec()[j]);
            }
            assert forall|a: int, b: int|
                0 <= a < b < self.partitions_spec().len() implies (
            #[trigger] self.partitions_spec()[a]).uid@ != (
            #[trigger] self.partitions_spec()[b]).uid@ by {
                assert(self.partitions_spec()[a] == old(self).partitions_spec()[a]);
                assert(self.partitions_spec()[b] == old(self).partitions_spec()[b]);
            }
            assert forall|j: int| 0 <= j < self.disks_spec().len() implies watermarks_wf(
                &#[trigger] self.disks_spec()[j],
            ) by {
                if j != i as int {
                    assert(self.disks_spec()[j] == ds[j]);
                }
            }
        }
        Ok(())
    }

    pub fn is_corrupted(&self, i: usize) -> (r: Result<bool, WorkerError>)
        requires
            i < self.disks_spec().len(),
        ensures
            r == Ok::<bool, WorkerError>(self.disks_spec()[i as int].corrupted_spec()),
    {
        self.disks[i].is_corrupted()
    }

    /// The tier is healthy while some disk is alive.
    pub fn is_healthy(&self) -> (r: Result<bool, WorkerError>)
        ensures
            r == Ok::<bool, WorkerError>(alive_indices(self.disks_spec()).len() > 0),
    {
        let mut i: usize = 0;
        let ghost ds = self.disks_spec();
        proof {
            assert(alive_indices(ds.take(0)) =~= Seq::<int>::empty());
        }
        while i < self.disks.len()
            invariant
                i <= self.disks.len(),
                ds == self.disks_spec(),
                alive_indices(ds.take(i as int)).len() == 0,
            decreases self.disks.len() - i,
        {
            proof {
                assert(ds.take(i as int + 1).drop_last() =~= ds.take(i as int));
                assert(ds.take(i as int + 1).last() == ds[i as int]);
            }
            let healthy = match self.disks[i].is_healthy() {
                Ok(h) => h,
                Err(_) => false,
            };
            let corrupted = match self.disks[i].is_corrupted() {
                Ok(c) => c,
                Err(_) => true,
            };
            if healthy && !corrupted {
                proof {
                    lemma_alive_prefix_le(ds, i as int + 1);
                }
                return Ok(true);
            }
            i = i + 1;
        }
        proof {
            assert(ds.take(ds.len() as int) =~= ds);
        }
        Ok(false)
    }

    /// The disk a new partition would be assigned right now.
    fn select_disk(&self, uid: &PartitionedUId) -> (r: Option<usize>)
        requires
            self.wf(),
        ensures
            match r {
                Some(d) => assigned_disk(self.disks_spec(), uid@) == Some(d as int) && (d as int)
                    < self.disks_spec().len(),
                None => assigned_disk(self.disks_spec(), uid@) is None,
            },
    {
        let ghost ds = self.disks_spec();
        let mut alive: Vec<usize> = Vec::new();
        let mut i: usize = 0;
        proof {
            assert(alive_indices(ds.take(0)) =~= Seq::<int>::empty());
            assert(usizes_as_ints(alive@) =~= alive_indices(ds.take(0)));
        }
        while i < self.disks.len()
            invariant
                i <= self.disks.len(),
                ds == self.disks_spec(),
                usizes_as_ints(alive@) == alive_indices(ds.take(i as int)),
                forall|j: int| 0 <= j < alive@.len() ==> (#[trigger] alive@[j]) < i,
            decreases self.disks.len() - i,
        {
            proof {
                assert(ds.take(i as int + 1).drop_last() =~= ds.take(i as int));
                assert(ds.take(i as int + 1).last() == ds[i as int]);
            }
            let healthy = match self.disks[i].is_healthy() {
                Ok(h) => h,
                Err(_) => false,
            };
            let corrupted = match self.disks[i].is_corrupted() {
                Ok(c) => c,
                Err(_) => true,
            };
            if healthy && !corrupted {
                let ghost pa = alive@;
                alive.push(i);
                proof {
                    assert(usizes_as_ints(alive@) =~= usizes_as_ints(pa).push(i as int));
                }
            }
            i = i + 1;
        }
        proof {
            assert(ds.take(ds.len() as int) =~= ds);
        }
        if alive.len() == 0 {
            return None;
        }
        let h: i64 = self.partitions_hash_input(uid);
        let n = alive.len();
        let idx = ((h as u64) % (n as u64)) as usize;
        proof {
            assert(0 <= uid_disk_hash(uid@));
            assert(usizes_as_ints(alive@).len() == alive@.len());
            assert(((h as u64) % (n as u64)) as int == uid_disk_hash(uid@) % (alive_indices(
                ds,
            ).len() as int));
            assert(usizes_as_ints(alive@)[idx as int] == alive@[idx as int] as int);
            assert(alive_indices(ds)[idx as int] == alive@[idx as int] as int);
        }
        Some(alive[idx])
    }

    /// The pinning hash of a partition id.
    fn partitions_hash_input(&self, uid: &PartitionedUId) -> (r: i64)
        ensures
            r == uid_disk_hash(uid@),
            0 <= r,
    {
        let h: i64 = (uid.shuffle_id as i64) * 31 + (uid.partition_id as i64);
        if h < 0 {
            -h
        } else {
            h
        }
    }

    /// Builds the bytes one append writes for this partition, assigning it
    /// a disk on first write.  The meta is updated only by
    /// `commit_append`, once the caller has performed the writes.
    pub fn prepare_spill_insert(&mut self, uid: &PartitionedUId, blocks: &Vec<Block>) -> (r: Result<
        LocalAppendPlan,
        WorkerError,
    >)
        requires
            old(self).wf(),
            blocks_wf(views_of(blocks@)),
            sum_lengths(views_of(blocks@)) <= i64::MAX,
        ensures
            prepare_spill_post(*old(self), *final(self), uid@, views_of(blocks@), r),
    {
        let ghost ps = self.partitions_spec();
        proof {
            lemma_sum_lengths_nonneg(views_of(blocks@));
        }
        let size = crate::block::blocks_total_size(blocks);
        match self.find_partition(uid) {
            Some(k) => {
                proof {
                    lemma_find_file_pos_valid(ps, uid@);
                }
                let base = self.partitions[k].meta.next_offset;
                let disk_index = self.partitions[k].meta.disk_index;
                if base > i64::MAX - size {
                    return Err(WorkerError::INTERNAL_ERROR);
                }
                let batch = crate::codec::build_append_batch(blocks, base);
                let root = crate::block::clone_string(self.disks[disk_index].root());
                Ok(
                    LocalAppendPlan {
                        disk_index,
                        root,
                        uid: uid.clone_uid(),
                        newly_assigned: false,
                        data: batch.data,
                        index: batch.index,
                        new_next_offset: batch.next_offset,
                    },
                )
            },
            None => {
                match self.select_disk(uid) {
                    Some(d) => {
                        let e = FileEntry {
                            uid: uid.clone_uid(),
                            meta: PartitionFileMeta { disk_index: d, next_offset: 0 },
                        };
                        self.partitions.push(e);
                        proof {
                            assert(self.partitions_spec() =~= ps.push(
                                self.partitions_spec().last(),
                            ));
                            lemma_find_none_absent_files(ps, uid@);
                            lemma_find_file_at(
                                self.partitions_spec(),
                                uid@,
                                self.partitions_spec().len() - 1,
                            );
                            assert forall|i: int, j: int|
                                0 <= i < j < self.partitions_spec().len() implies (
                            #[trigger] self.partitions_spec()[i]).uid@ != (
                            #[trigger] self.partitions_spec()[j]).uid@ by {
                                if j < ps.len() {
                                    assert(self.partitions_spec()[i] == ps[i]);
                                    assert(self.partitions_spec()[j] == ps[j]);
                                } else {
                                    assert(self.partitions_spec()[i] == ps[i]);
                                }
                            }
                        }
                        let batch = crate::codec::build_append_batch(blocks, 0);
                        let root = crate::block::clone_string(self.disks[d].root());
                        Ok(
                            LocalAppendPlan {
                                disk_index: d,
                                root,
                                uid: uid.clone_uid(),
                                newly_assigned: true,
                                data: batch.data,
                                index: batch.index,
                                new_next_offset: batch.next_offset,
                            },
                        )
                    },
                    None => Err(WorkerError::NO_AVAILABLE_LOCAL_DISK),
                }
            },
        }
    }

    fn find_partition(&self, uid: &PartitionedUId) -> (r: Option<usize>)
        ensures
            match r {
                Some(k) => find_file_pos(self.partitions_spec(), uid@) == Some(k as int) && (
                k as int) < self.partitions_spec().len(),
                None => find_file_pos(self.partitions_spec(), uid@) is None,
            },
    {
        let ghost ps = self.partitions_spec();
        let mut i: usize = 0;
        while i < self.partitions.len()
            invariant
                i <= self.partitions.len(),
                ps == self.partitions_spec(),
                forall|j: int| 0 <= j < i ==> (#[trigger] ps[j]).uid@ != uid@,
            decreases self.partitions.len() - i,
        {
            if self.partitions[i].uid.eq_uid(uid) {
                proof {
                    lemma_find_file_at(ps, uid@, i as int);
                }
                return Some(i);
            }
            i = i + 1;
        }
        proof {
            lemma_find_file_none(ps, uid@);
        }
        None
    }

    /// Records that the caller appended up to `new_next_offset` bytes of
    /// data file for this partition.
    pub fn commit_append(&mut self, uid: &PartitionedUId, new_next_offset: i64) -> (r: Result<
        (),
        WorkerError,
    >)
        requires
            old(self).wf(),
            0 <= new_next_offset,
        ensures
            commit_append_post(*old(self), *final(self), uid@, new_next_offset as int, r),
    {
        let ghost ps = self.partitions_spec();
        match self.find_partition(uid) {
            Some(k) => {
                proof {
                    lemma_find_file_pos_valid(ps, uid@);
                }
                let mut e = self.partitions.remove(k);
                e.meta.next_offset = new_next_offset;
                self.partitions.insert(k, e);
                proof {
                    assert(self.partitions_spec() =~= ps.update(
                        k as int,
                        self.partitions_spec()[k as int],
                    ));
                    assert forall|i: int, j: int|
                        0 <= i < j < self.partitions_spec().len() implies (
                    #[trigger] self.partitions_spec()[i]).uid@ != (
                    #[trigger] self.partitions_spec()[j]).uid@ by {
                        assert(self.partitions_spec()[i].uid@ == ps[i].uid@);
                        assert(self.partitions_spec()[j].uid@ == ps[j].uid@);
                    }
                }
                Ok(())
            },
            None => Err(WorkerError::PARTITION_DATA_NOT_FOUND),
        }
    }

    /// Where to read this partition's files, for a file-offset or index
    /// read.
    pub fn read_plan(&self, uid: &PartitionedUId) -> (r: Result<LocalReadPlan, WorkerError>)
        requires
            self.wf(),
        ensures
            match meta_of(self.partitions_spec(), uid@) {
                Some(m) => r matches Ok(plan) && plan.disk_index == m.disk_index && plan.next_offset
                    == m.next_offset && plan.uid@ == uid@ && plan.root@ == self.disks_spec()[
                    m.disk_index as int].root_spec(),
                None => r == Err::<LocalReadPlan, WorkerError>(WorkerError::PARTITION_DATA_NOT_FOUND),
            },
    {
        let ghost ps = self.partitions_spec();
        match self.find_partition(uid) {
            Some(k) => {
                proof {
                    lemma_find_file_pos_valid(ps, uid@);
                }
                let disk_index = self.partitions[k].meta.disk_index;
                Ok(
                    LocalReadPlan {
                        disk_index,
                        root: crate::block::clone_string(self.disks[disk_index].root()),
                        uid: uid.clone_uid(),
                        next_offset: self.partitions[k].meta.next_offset,
                    },
                )
            },
            None => Err(WorkerError::PARTITION_DATA_NOT_FOUND),
        }
    }

    /// Restores a partition's meta from a recovered index file: the file is
    /// truncated to whole records and the data length is the sum of the
    /// record lengths.
    pub fn recover_partition(&mut self, uid: &PartitionedUId, disk_index: usize, index_file: &Vec<
        u8,
    >) -> (r: Result<(), WorkerError>)
        requires
            old(self).wf(),
            disk_index < old(self).disks_spec().len(),
            meta_of(old(self).partitions_spec(), uid@) is None,
        ensures
            final(self).wf(),
            final(self).disks_spec() == old(self).disks_spec(),
            r is Ok <==> 0 <= recovered_offset_sum(index_file@) <= i64::MAX,
            r is Err ==> final(self).partitions_spec() == old(self).partitions_spec() && r == Err::<
                (),
                WorkerError,
            >(WorkerError::INTERNAL_ERROR),
            r is Ok ==> final(self).partitions_spec() == old(self).partitions_spec().push(
                final(self).partitions_spec().last(),
            ) && final(self).partitions_spec().last().uid@ == uid@ && final(self).partitions_spec().last().meta.disk_index == disk_index && final(self).partitions_spec().last().meta.next_offset == recovered_offset_sum(index_file@),
    {
        let ghost ps = self.partitions_spec();
        let records = crate::codec::parse_index(index_file);
        let nrecords = records.len();
        let mut total: i128 = 0;
        let mut k: usize = 0;
        proof {
            assert(record_length_sum(records@.take(0)) == 0);
        }
        while k < nrecords
            invariant
                k <= nrecords,
                nrecords == records@.len(),
                records@.len() <= usize::MAX,
                total == record_length_sum(records@.take(k as int)),
            decreases nrecords - k,
        {
            proof {
                assert(records@.take(k as int + 1).drop_last() =~= records@.take(k as int));
                assert(records@.take(k as int + 1).last() == records@[k as int]);
                lemma_record_length_sum_bound(records@.take(k as int));
                lemma_record_length_sum_bound(records@.take(k as int + 1));
                assert((k as int) * 0x8000_0000 <= (usize::MAX as int) * 0x8000_0000)
                    by (nonlinear_arith)
                    requires
                        0 <= k as int <= usize::MAX as int,
                ;
                assert((k as int + 1) * 0x8000_0000 <= (usize::MAX as int) * 0x8000_0000 + 0x8000_0000)
                    by (nonlinear_arith)
                    requires
                        0 <= k as int <= usize::MAX as int,
                ;
            }
            total = total + records[k].length as i128;
            k = k + 1;
        }
        proof {
            assert(records@.take(records@.len() as int) =~= records@);
            assert(records@ =~= Seq::new(
                index_file@.len() / 40,
                |i: int| crate::codec::decode_record(index_file@.subrange(40 * i, 40 * i + 40)),
            ));
            assert(record_length_sum(records@) == recovered_offset_sum(index_file@));
        }
        if total < 0 || total > i64::MAX as i128 {
            return Err(WorkerError::INTERNAL_ERROR);
        }
        let e = FileEntry {
            uid: uid.clone_uid(),
            meta: PartitionFileMeta { disk_index, next_offset: total as i64 },
        };
        self.partitions.push(e);
        proof {
            assert(self.partitions_spec() =~= ps.push(self.partitions_spec().last()));
            lemma_find_none_absent_files(ps, uid@);
            assert forall|i: int, j: int|
                0 <= i < j < self.partitions_spec().len() implies (
            #[trigger] self.partitions_spec()[i]).uid@ != (
            #[trigger] self.partitions_spec()[j]).uid@ by {
                if j < ps.len() {
                    assert(self.partitions_spec()[i] == ps[i]);
                    assert(self.partitions_spec()[j] == ps[j]);
                } else {
                    assert(self.partitions_spec()[i] == ps[i]);
                }
            }
        }
        Ok(())
    }

    /// Drops every partition in the purge scope and returns the data-file
    /// bytes removed, saturating at the i64 limit.
    pub fn purge(&mut self, app_id: &String, shuffle_id: Option<i32>) -> (r: Result<
        i64,
        WorkerError,
    >)
        requires
            old(self).wf(),
        ensures
            final(self).wf(),
            r is Ok,
            final(self).disks_spec() == old(self).disks_spec(),
            final(self).partitions_spec() == file_entries_where(
                old(self).partitions_spec(),
                |e: FileEntry| !file_in_purge_scope(e, app_id@, shuffle_id),
            ),
            r matches Ok(removed) ==> removed == local_purge_removed(
                old(self).partitions_spec(),
                app_id@,
                shuffle_id,
            ) && 0 <= removed,
    {
        let ghost ps = self.partitions_spec();
        let ghost pred = |e: FileEntry| file_in_purge_scope(e, app_id@, shuffle_id);
        let mut kept: Vec<FileEntry> = Vec::new();
        let mut removed: i128 = 0;
        let ghost pslen = ps.len() as int;
        let _ = self.partitions.len();
        proof {
            assert(ps.take(0) =~= Seq::<FileEntry>::empty());
            assert(kept@ =~= file_entries_where(ps.take(0), |e: FileEntry| !(pred(e))));
            assert(file_entries_total(file_entries_where(ps.take(0), pred)) == 0);
        }
        while self.partitions.len() > 0
            invariant
                pred == (|e: FileEntry| file_in_purge_scope(e, app_id@, shuffle_id)),
                kept@ == file_entries_where(
                    ps.take(ps.len() - self.partitions_spec().len()),
                    (|e: FileEntry| !(pred(e))),
                ),
                removed == file_entries_total(
                    file_entries_where(ps.take(ps.len() - self.partitions_spec().len()), pred),
                ),
                self.partitions_spec() == ps.skip(ps.len() - self.partitions_spec().len()),
                self.partitions_spec().len() <= ps.len(),
                ps.len() <= usize::MAX,
                self.disks_spec() == old(self).disks_spec(),
                0 <= removed,
                removed as int <= (ps.len() - self.partitions_spec().len()) * (
                i64::MAX as int),
                forall|i: int|
                    0 <= i < ps.len() ==> (#[trigger] ps[i]).meta.disk_index < old(self).disks_spec().len() && 0 <= ps[i].meta.next_offset,
            decreases self.partitions.len(),
        {
            let ghost done = ps.len() - self.partitions_spec().len();
            let ghost before = self.partitions_spec();
            let e = self.partitions.remove(0);
            proof {
                assert(before == ps.skip(done));
                assert(before[0] == ps[done]);
                assert(self.partitions_spec() =~= ps.skip(done + 1));
                assert(ps.take(done + 1) =~= ps.take(done).push(ps[done]));
                lemma_file_entries_where_push(ps.take(done), ps[done], pred);
                lemma_file_entries_where_push(ps.take(done), ps[done], |x: FileEntry| !(pred(x)));
                lemma_file_entries_total_push(
                    file_entries_where(ps.take(done), pred),
                    ps[done],
                );
                assert((done + 1) * (i64::MAX as int) == done * (i64::MAX as int) + (i64::MAX
                    as int)) by (nonlinear_arith);
                assert(done * (i64::MAX as int) <= (usize::MAX as int) * (i64::MAX as int))
                    by (nonlinear_arith)
                    requires
                        0 <= done <= usize::MAX as int,
                ;
            }
            let selected = e.uid.app_id == *app_id && (match shuffle_id {
                Some(sid) => e.uid.shuffle_id == sid,
                None => true,
            });
            proof {
                assert(selected == pred(ps[done]));
            }
            if selected {
                removed = removed + e.meta.next_offset as i128;
            } else {
                kept.push(e);
            }
        }
        proof {
            assert(ps.take(ps.len() - self.partitions_spec().len()) =~= ps);
        }
        self.partitions = kept;
        proof {
            lemma_file_entries_where_wf(ps, |x: FileEntry| !(pred(x)));
            let fin = file_entries_where(ps, |x: FileEntry| !(pred(x)));
            assert forall|i: int|
                0 <= i < fin.len() implies (#[trigger] fin[i]).meta.disk_index < old(self).disks_spec().len() && 0 <= fin[i].meta.next_offset by {
                let k = choose|k: int| 0 <= k < ps.len() && #[trigger] ps[k] == fin[i];
            }
            assert((|x: FileEntry| !(pred(x))) =~= (|e: FileEntry| !file_in_purge_scope(
                e,
                app_id@,
                shuffle_id,
            )));
        }
        if removed > i64::MAX as i128 {
            Ok(i64::MAX)
        } else {
            Ok(removed as i64)
        }
    }
}

/// The data length a recovered index file implies: the sum of the lengths
/// of its whole records.
pub open spec fn recovered_offset_sum(index_file: Seq<u8>) -> int {
    record_length_sum(
        Seq::new(index_file.len() / 40, |i: int| crate::codec::decode_record(
            index_file.subrange(40 * i, 40 * i + 40),
        )),
    )
}

pub open spec fn record_length_sum(rs: Seq<IndexRecord>) -> int
    decreases rs.len(),
{
    if rs.len() == 0 {
        0
    } else {
        record_length_sum(rs.drop_last()) + rs.last().length
    }
}

proof fn lemma_record_length_sum_bound(rs: Seq<IndexRecord>)
    ensures
        -(rs.len() as int) * 0x8000_0000 <= record_length_sum(rs),
        record_length_sum(rs) <= (rs.len() as int) * 0x8000_0000,
    decreases rs.len(),
{
    if rs.len() > 0 {
        lemma_record_length_sum_bound(rs.drop_last());
        assert((rs.len() as int) * 0x8000_0000 == (rs.len() as int - 1) * 0x8000_0000
            + 0x8000_0000) by (nonlinear_arith);
    }
}

proof fn lemma_file_entries_where_push(s: Seq<FileEntry>, e: FileEntry, pred: spec_fn(FileEntry) -> bool)
    ensures
        file_entries_where(s.push(e), pred) == if pred(e) {
            file_entries_where(s, pred).push(e)
        } else {
            file_entries_where(s, pred)
        },
{
    assert(s.push(e).drop_last() =~= s);
}

proof fn lemma_file_entries_total_push(s: Seq<FileEntry>, e: FileEntry)
    ensures
        file_entries_total(s.push(e)) == file_entries_total(s) + e.meta.next_offset,
{
    assert(s.push(e).drop_last() =~= s);
}

/// Selection keeps distinct ids, and every kept entry was present before.
proof fn lemma_file_entries_where_wf(s: Seq<FileEntry>, pred: spec_fn(FileEntry) -> bool)
    requires
        forall|a: int, b: int|
            0 <= a < b < s.len() ==> (#[trigger] s[a]).uid@ != (#[trigger] s[b]).uid@,
    ensures
        forall|i: int| #![trigger file_entries_where(s, pred)[i]]
            0 <= i < file_entries_where(s, pred).len() ==> exists|k: int|
                0 <= k < s.len() && #[trigger] s[k] == file_entries_where(s, pred)[i],
        forall|i: int, j: int|
            0 <= i < j < file_entries_where(s, pred).len() ==> (#[trigger] file_entries_where(
                s,
                pred,
            )[i]).uid@ != (#[trigger] file_entries_where(s, pred)[j]).uid@,
    decreases s.len(),
{
    if s.len() > 0 {
        let d = s.drop_last();
        assert(forall|a: int, b: int|
            0 <= a < b < d.len() ==> (#[trigger] d[a]).uid@ != (#[trigger] d[b]).uid@);
        lemma_file_entries_where_wf(d, pred);
        let w = file_entries_where(s, pred);
        let wd = file_entries_where(d, pred);
        if pred(s.last()) {
            assert(w == wd.push(s.last()));
            assert forall|i: int| #![trigger w[i]] 0 <= i < w.len() implies exists|k: int|
                0 <= k < s.len() && #[trigger] s[k] == w[i] by {
                if i < w.len() - 1 {
                    let k = choose|k: int| 0 <= k < d.len() && #[trigger] d[k] == wd[i];
                    assert(s[k] == w[i]);
                } else {
                    assert(s[s.len() - 1] == w[i]);
                }
            }
            assert forall|i: int, j: int| 0 <= i < j < w.len() implies (#[trigger] w[i]).uid@ != (
            #[trigger] w[j]).uid@ by {
                if j < w.len() - 1 {
                } else {
                    let k = choose|k: int| 0 <= k < d.len() && #[trigger] d[k] == wd[i];
                    assert(s[k] == w[i]);
                    assert(s.last() == s[s.len() - 1]);
                }
            }
        } else {
            assert forall|i: int| #![trigger w[i]] 0 <= i < w.len() implies exists|k: int|
                0 <= k < s.len() && #[trigger] s[k] == w[i] by {
                let k = choose|k: int| 0 <= k < d.len() && #[trigger] d[k] == wd[i];
                assert(s[k] == w[i]);
            }
        }
    }
}

proof fn lemma_find_file_at(s: Seq<FileEntry>, uid: UidV, i: int)
    requires
        0 <= i < s.len(),
        s[i].uid@ == uid,
        forall|j: int| 0 <= j < i ==> (#[trigger] s[j]).uid@ != uid,
    ensures
        find_file_pos(s, uid) == Some(i),
    decreases s.len(),
{
    if i == 0 {
    } else {
        let d = s.drop_first();
        assert(d[i - 1] == s[i]);
        assert(forall|j: int| 0 <= j < i - 1 ==> (#[trigger] d[j]).uid@ != uid);
        lemma_find_file_at(d, uid, i - 1);
    }
}

proof fn lemma_find_file_none(s: Seq<FileEntry>, uid: UidV)
    requires
        forall|j: int| 0 <= j < s.len() ==> (#[trigger] s[j]).uid@ != uid,
    ensures
        find_file_pos(s, uid) is None,
    decreases s.len(),
{
    if s.len() > 0 {
        let d = s.drop_first();
        assert(forall|j: int| 0 <= j < d.len() ==> (#[trigger] d[j]).uid@ != uid);
        lemma_find_file_none(d, uid);
    }
}

proof fn lemma_find_none_absent_files(s: Seq<FileEntry>, uid: UidV)
    requires
        find_file_pos(s, uid) is None,
    ensures
        forall|j: int| 0 <= j < s.len() ==> (#[trigger] s[j]).uid@ != uid,
    decreases s.len(),
{
    if s.len() > 0 {
        lemma_find_none_absent_files(s.drop_first(), uid);
        assert forall|j: int| 0 <= j < s.len() implies (#[trigger] s[j]).uid@ != uid by {
            if j > 0 {
                assert(s.drop_first()[j - 1] == s[j]);
            }
        }
    }
}

/// A found position holds the looked-up id.
proof fn lemma_find_file_pos_valid(s: Seq<FileEntry>, uid: UidV)
    ensures
        find_file_pos(s, uid) matches Some(k) ==> 0 <= k < s.len() && s[k].uid@ == uid,
    decreases s.len(),
{
    if s.len() > 0 && s[0].uid@ != uid {
        lemma_find_file_pos_valid(s.drop_first(), uid);
        match find_file_pos(s.drop_first(), uid) {
            Some(k) => {
                assert(s.drop_first()[k] == s[k + 1]);
            },
            None => {},
        }
    }
}

/// A prefix has no more alive disks than the whole.
proof fn lemma_alive_prefix_le(s: Seq<LocalDiskDelegator>, k: int)
    requires
        0 <= k <= s.len(),
    ensures
        alive_indices(s.take(k)).len() <= alive_indices(s).len(),
    decreases s.len() - k,
{
    if k < s.len() {
        assert(s.take(k + 1).drop_last() =~= s.take(k));
        assert(s.take(k + 1).last() == s[k]);
        lemma_alive_prefix_le(s, k + 1);
        assert(s.take(s.len() as int) =~= s);
    } else {
        assert(s.take(k) =~= s);
    }
}

} // verus!
