use vstd::prelude::*;

verus! {

/// Which tiers a worker runs.  Memory is always required.
#[allow(non_camel_case_types)]
#[derive(Clone, Copy, Debug, PartialEq, Eq, Structural)]
pub enum StorageType {
    MEMORY,
    LOCALFILE,
    HDFS,
    MEMORY_LOCALFILE,
    MEMORY_HDFS,
    LOCALFILE_HDFS,
    MEMORY_LOCALFILE_HDFS,
}

impl StorageType {
    pub open spec fn has_memory(&self) -> bool {
        match self {
            StorageType::MEMORY => true,
            StorageType::MEMORY_LOCALFILE => true,
            StorageType::MEMORY_HDFS => true,
            StorageType::MEMORY_LOCALFILE_HDFS => true,
            _ => false,
        }
    }

    pub open spec fn has_localfile(&self) -> bool {
        match self {
            StorageType::LOCALFILE => true,
            StorageType::MEMORY_LOCALFILE => true,
            StorageType::LOCALFILE_HDFS => true,
            StorageType::MEMORY_LOCALFILE_HDFS => true,
            _ => false,
        }
    }

    pub open spec fn has_hdfs(&self) -> bool {
        match self {
            StorageType::HDFS => true,
            StorageType::MEMORY_HDFS => true,
            StorageType::LOCALFILE_HDFS => true,
            StorageType::MEMORY_LOCALFILE_HDFS => true,
            _ => false,
        }
    }

    pub fn contains_memory(&self) -> (r: bool)
        ensures
            r == self.has_memory(),
    {
        match self {
            StorageType::MEMORY => true,
            StorageType::MEMORY_LOCALFILE => true,
            StorageType::MEMORY_HDFS => true,
            StorageType::MEMORY_LOCALFILE_HDFS => true,
            _ => false,
        }
    }

    pub fn contains_localfile(&self) -> (r: bool)
        ensures
            r == self.has_localfile(),
    {
        match self {
            StorageType::LOCALFILE => true,
            StorageType::MEMORY_LOCALFILE => true,
            StorageType::LOCALFILE_HDFS => true,
            StorageType::MEMORY_LOCALFILE_HDFS => true,
            _ => false,
        }
    }

    pub fn contains_hdfs(&self) -> (r: bool)
        ensures
            r == self.has_hdfs(),
    {
        match self {
            StorageType::HDFS => true,
            StorageType::MEMORY_HDFS => true,
            StorageType::LOCALFILE_HDFS => true,
            StorageType::MEMORY_LOCALFILE_HDFS => true,
            _ => false,
        }
    }
}

/// Memory tier configuration: capacity in bytes and the ticket TTL.
pub struct MemoryStoreConfig {
    pub capacity: i64,
    pub ticket_ttl_sec: u64,
}

impl MemoryStoreConfig {
    pub fn new(capacity: i64) -> (r: MemoryStoreConfig)
        ensures
            r.capacity == capacity,
            r.ticket_ttl_sec == 300,
    {
        MemoryStoreConfig { capacity, ticket_ttl_sec: 300 }
    }
}

/// Local-disk tier configuration.  Watermarks are fractions given in
/// thousandths.
pub struct LocalfileStoreConfig {
    pub data_paths: Vec<String>,
    pub disk_high_watermark_permille: u64,
    pub disk_low_watermark_permille: u64,
    pub disk_max_concurrency: i32,
    pub disk_healthy_check_interval_sec: u64,
}

impl LocalfileStoreConfig {
    pub fn new(data_paths: Vec<String>) -> (r: LocalfileStoreConfig)
        ensures
            r.data_paths@ == data_paths@,
            r.disk_high_watermark_permille == 800,
            r.disk_low_watermark_permille == 600,
            r.disk_max_concurrency == 40,
            r.disk_healthy_check_interval_sec == 10,
    {
        LocalfileStoreConfig {
            data_paths,
            disk_high_watermark_permille: 800,
            disk_low_watermark_permille: 600,
            disk_max_concurrency: 40,
            disk_healthy_check_interval_sec: 10,
        }
    }
}

/// Remote filesystem tier configuration.
pub struct HdfsStoreConfig {
    pub max_concurrency: i32,
}

impl HdfsStoreConfig {
    pub fn new() -> (r: HdfsStoreConfig)
        ensures
            r.max_concurrency == 50,
    {
        HdfsStoreConfig { max_concurrency: 50 }
    }
}

/// Hybrid composition configuration.  Watermarks are fractions given in
/// thousandths of the memory capacity.
pub struct HybridStoreConfig {
    pub memory_spill_high_watermark_permille: u64,
    pub memory_spill_low_watermark_permille: u64,
    pub memory_spill_to_cold_threshold_size: Option<u64>,
    pub memory_spill_max_concurrency: i32,
}

impl HybridStoreConfig {
    pub fn new(
        high_permille: u64,
        low_permille: u64,
        memory_spill_to_cold_threshold_size: Option<u64>,
    ) -> (r: HybridStoreConfig)
        ensures
            r.memory_spill_high_watermark_permille == high_permille,
            r.memory_spill_low_watermark_permille == low_permille,
            r.memory_spill_to_cold_threshold_size == memory_spill_to_cold_threshold_size,
            r.memory_spill_max_concurrency == 20,
    {
        HybridStoreConfig {
            memory_spill_high_watermark_permille: high_permille,
            memory_spill_low_watermark_permille: low_permille,
            memory_spill_to_cold_threshold_size,
            memory_spill_max_concurrency: 20,
        }
    }
}

/// The whole storage core's configuration.
pub struct Config {
    pub store_type: StorageType,
    pub memory_store: Option<MemoryStoreConfig>,
    pub localfile_store: Option<LocalfileStoreConfig>,
    pub hdfs_store: Option<HdfsStoreConfig>,
    pub hybrid_store: HybridStoreConfig,
}

} // verus!
