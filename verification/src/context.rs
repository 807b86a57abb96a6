use crate::block::{blocks_wf, sum_lengths, views_of, Block, PartitionedUId, UidV};
use vstd::prelude::*;

verus! {

/// How a read addresses data: by cursor in memory, or by file offset.
#[allow(non_camel_case_types)]
pub enum ReadingOptions {
    MEMORY_LAST_BLOCK_ID_AND_MAX_SIZE(i64, i64),
    FILE_OFFSET_AND_LEN(i64, i64),
}

/// A write request: the partition, its blocks and their total byte size.
pub struct WritingViewContext {
    pub uid: PartitionedUId,
    pub data_blocks: Vec<Block>,
    pub data_size: i64,
}

impl WritingViewContext {
    /// The recorded size is the sum of the blocks' lengths, and every block
    /// is well formed.
    pub open spec fn wf(&self) -> bool {
        &&& blocks_wf(views_of(self.data_blocks@))
        &&& self.data_size == sum_lengths(views_of(self.data_blocks@))
    }

    pub fn from(uid: PartitionedUId, data_blocks: Vec<Block>) -> (r: WritingViewContext)
        requires
            blocks_wf(views_of(data_blocks@)),
            sum_lengths(views_of(data_blocks@)) <= i64::MAX,
        ensures
            r.wf(),
            r.uid@ == uid@,
            views_of(r.data_blocks@) == views_of(data_blocks@),
            r.data_size == sum_lengths(views_of(data_blocks@)),
    {
        let data_size = crate::block::blocks_total_size(&data_blocks);
        WritingViewContext { uid, data_blocks, data_size }
    }
}

/// A read request against one partition.
pub struct ReadingViewContext {
    pub uid: PartitionedUId,
    pub reading_options: ReadingOptions,
    pub serialized_expected_task_ids_bitmap: Option<croaring::Treemap>,
}

/// An index read request against one partition.
pub struct ReadingIndexViewContext {
    pub partition_id: PartitionedUId,
}

/// A reservation request: the partition and the byte size to reserve.
pub struct RequireBufferContext {
    pub uid: PartitionedUId,
    pub size: i64,
}

impl RequireBufferContext {
    pub fn new(uid: PartitionedUId, size: i64) -> (r: RequireBufferContext)
        ensures
            r.uid@ == uid@,
            r.size == size,
    {
        RequireBufferContext { uid, size }
    }
}

/// Releases one reservation ticket.
pub struct ReleaseBufferContext {
    pub ticket_id: u64,
}

/// Releases one reservation ticket (the tier-level form).
pub struct ReleaseTicketContext {
    pub ticket_id: u64,
}

/// Asks a store to drop an application's data, or one shuffle's.
pub struct PurgeDataContext {
    pub app_id: String,
    pub shuffle_id: Option<i32>,
}

impl PurgeDataContext {
    pub fn new(app_id: String, shuffle_id: Option<i32>) -> (r: PurgeDataContext)
        ensures
            r.app_id@ == app_id@,
            r.shuffle_id == shuffle_id,
    {
        PurgeDataContext { app_id, shuffle_id }
    }
}

/// The remote storage an application persists to: a root URL and
/// key/value options for the remote filesystem client.
pub struct RemoteStorageConfig {
    pub root: String,
    pub configs: Vec<(String, String)>,
}

/// Registers an application, with its remote storage config if it has one.
pub struct RegisterAppContext {
    pub app_id: String,
    pub remote_storage_config_option: Option<RemoteStorageConfig>,
}

/// Blocks of one partition handed to a persistent tier by the spill path.
pub struct SpillWritingViewContext {
    pub uid: PartitionedUId,
    pub data_blocks: Vec<Block>,
}

impl SpillWritingViewContext {
    pub open spec fn wf(&self) -> bool {
        blocks_wf(views_of(self.data_blocks@))
    }

    pub fn new(uid: PartitionedUId, data_blocks: Vec<Block>) -> (r: SpillWritingViewContext)
        ensures
            r.uid@ == uid@,
            views_of(r.data_blocks@) == views_of(data_blocks@),
    {
        SpillWritingViewContext { uid, data_blocks }
    }
}

/// One granted reservation: the ticket and when it was allocated.
pub struct RequireBufferResponse {
    pub ticket_id: u64,
    pub allocated_timestamp: u64,
}

/// One block's placement inside a read response.
pub struct DataSegment {
    pub block_id: i64,
    pub offset: i64,
    pub length: i32,
    pub uncompress_length: i32,
    pub crc: i64,
    pub task_attempt_id: i64,
}

/// An in-memory read response: segment descriptors over one byte buffer.
pub struct PartitionedMemoryData {
    pub shuffle_data_block_segments: Vec<DataSegment>,
    pub data: Vec<u8>,
}

} // verus!
