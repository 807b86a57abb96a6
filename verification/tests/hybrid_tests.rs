use shuffle_store::block::{Block, PartitionedUId};
use shuffle_store::codec;
use shuffle_store::config::{
    Config, HdfsStoreConfig, HybridStoreConfig, LocalfileStoreConfig, MemoryStoreConfig,
    StorageType,
};
use shuffle_store::context::{
    PurgeDataContext, ReadingIndexViewContext, ReadingOptions, ReadingViewContext,
    RegisterAppContext, RemoteStorageConfig, RequireBufferContext, SpillWritingViewContext,
    WritingViewContext,
};
use shuffle_store::error::WorkerError;
use shuffle_store::hybrid::{
    select_spill_tier, HybridStore, SpillMessage, SpillPlan, SpillTier,
};
use shuffle_store::remote::parse_storage_url;

fn block_with(block_id: i64, payload: Vec<u8>) -> Block {
    Block {
        block_id,
        task_attempt_id: 0,
        length: payload.len() as i32,
        uncompress_length: payload.len() as i32,
        crc: 0,
        data: payload,
    }
}

fn memory_only_config(capacity: i64) -> Config {
    Config {
        store_type: StorageType::MEMORY,
        memory_store: Some(MemoryStoreConfig::new(capacity)),
        localfile_store: None,
        hdfs_store: None,
        hybrid_store: HybridStoreConfig::new(800, 200, None),
    }
}

fn memory_localfile_config(capacity: i64, threshold: Option<u64>) -> Config {
    Config {
        store_type: StorageType::MEMORY_LOCALFILE,
        memory_store: Some(MemoryStoreConfig::new(capacity)),
        localfile_store: Some(LocalfileStoreConfig::new(vec!["d0".to_string()])),
        hdfs_store: None,
        hybrid_store: HybridStoreConfig::new(800, 200, threshold),
    }
}

fn full_config(capacity: i64, threshold: Option<u64>) -> Config {
    Config {
        store_type: StorageType::MEMORY_LOCALFILE_HDFS,
        memory_store: Some(MemoryStoreConfig::new(capacity)),
        localfile_store: Some(LocalfileStoreConfig::new(vec!["d0".to_string()])),
        hdfs_store: Some(HdfsStoreConfig::new()),
        hybrid_store: HybridStoreConfig::new(800, 200, threshold),
    }
}

#[test]
fn url_test() {
    let url = parse_storage_url("hdfs://rbf-1:19999/a/b").unwrap();
    assert_eq!("hdfs", url.scheme);
    assert_eq!("rbf-1", url.host);
    assert_eq!(19999, url.port.unwrap());
    assert_eq!("/a/b", url.path);
}

#[test]
fn test_only_memory() {
    let store = HybridStore::from(memory_only_config(20 * 1024 * 1024)).unwrap();
    assert_eq!(true, store.is_healthy().unwrap());
}

#[test]
fn spill_at_watermark_round_trip() {
    // capacity 1000, high watermark 0.8, low watermark 0.2
    let mut store = HybridStore::from(memory_localfile_config(1000, None)).unwrap();
    let uid = PartitionedUId::from("1000".to_string(), 0, 0);

    let mut written_payloads: Vec<Vec<u8>> = vec![];
    for i in 0..9i64 {
        let payload = vec![i as u8; 100];
        written_payloads.push(payload.clone());
        store
            .require_buffer(RequireBufferContext::new(uid.clone_uid(), 100), 0)
            .expect("reservation fits");
        let ctx = WritingViewContext::from(uid.clone_uid(), vec![block_with(i, payload)]);
        store.insert(ctx).expect("insert succeeds");
    }

    // the ninth insert crossed 0.8: one spill message covers the staging
    let message = store.poll_spill_event().expect("the watermark pass queued a flight");
    assert_eq!(900, message.size);
    assert_eq!(0, message.retry_cnt);

    // deliver it: the healthy warm tier takes it
    let plan = store.memory_spill_to_persistent_store(&message).unwrap();
    let (data_file, index_file) = match &plan {
        SpillPlan::LOCALFILE(p) => (p.data.clone(), p.index.clone()),
        SpillPlan::HDFS(_) => panic!("a healthy warm tier takes the flight"),
    };
    store.commit_spill_plan(&plan).unwrap();
    store.release_data_in_memory(message.size, &message).unwrap();

    // the memory is free again
    let snapshot = store.mem_snapshot().unwrap();
    assert_eq!(0, snapshot.used());

    // the data is readable through the warm tier's files: the index
    // records cut each written payload out of the data file
    let read_plan = store
        .get_index(ReadingIndexViewContext { partition_id: uid.clone_uid() })
        .unwrap();
    assert_eq!(900, read_plan.next_offset);
    let records = codec::parse_index(&index_file);
    assert_eq!(9, records.len());
    for (i, rec) in records.iter().enumerate() {
        let cut = codec::slice_bytes(&data_file, rec.offset as usize, rec.length as usize)
            .expect("record points inside the data file");
        assert_eq!(written_payloads[i], cut);
        assert_eq!(i as i64, rec.block_id);
    }

    // nothing is left to read from memory
    let mem = store
        .get(ReadingViewContext {
            uid: uid.clone_uid(),
            reading_options: ReadingOptions::MEMORY_LAST_BLOCK_ID_AND_MAX_SIZE(-1, 1_000_000),
            serialized_expected_task_ids_bitmap: None,
        })
        .unwrap();
    match mem {
        shuffle_store::hybrid::ResponseData::Mem(data) => {
            assert_eq!(0, data.shuffle_data_block_segments.len());
        }
        _ => panic!("memory reads come back as memory data"),
    }
}

#[test]
fn cold_threshold_selects_the_tier() {
    let mb = 1024 * 1024u64;
    // selection alone: under the threshold goes warm, over it goes cold
    assert_eq!(SpillTier::WARM, select_spill_tier(true, 500 * 1024, Some(mb), 0));
    assert_eq!(SpillTier::COLD, select_spill_tier(true, 2 * 1024 * 1024, Some(mb), 0));

    // end to end: the plans come from the matching tiers
    let mut store = HybridStore::from(full_config(1_000_000_000, Some(mb))).unwrap();
    store
        .register_app(RegisterAppContext {
            app_id: "appc".to_string(),
            remote_storage_config_option: Some(RemoteStorageConfig {
                root: "hdfs://nn:9000/base".to_string(),
                configs: vec![],
            }),
        })
        .unwrap();

    let uid = PartitionedUId::from("appc".to_string(), 0, 0);
    let small = SpillMessage {
        ctx: SpillWritingViewContext::new(uid.clone_uid(), vec![block_with(
            0,
            vec![1u8; 500 * 1024],
        )]),
        size: 500 * 1024,
        retry_cnt: 0,
        previous_spilled_storage: None,
        flight_id: 0,
    };
    let plan = store.memory_spill_to_persistent_store(&small).unwrap();
    assert!(matches!(plan, SpillPlan::LOCALFILE(_)));

    let big = SpillMessage {
        ctx: SpillWritingViewContext::new(uid.clone_uid(), vec![block_with(
            1,
            vec![2u8; 2 * 1024 * 1024],
        )]),
        size: 2 * 1024 * 1024,
        retry_cnt: 0,
        previous_spilled_storage: None,
        flight_id: 1,
    };
    let plan = store.memory_spill_to_persistent_store(&big).unwrap();
    assert!(matches!(plan, SpillPlan::HDFS(_)));
}

#[test]
fn unhealthy_warm_selects_cold_without_retry_escalation() {
    assert_eq!(SpillTier::COLD, select_spill_tier(false, 10, Some(u64::MAX), 0));

    let mut store = HybridStore::from(full_config(1_000_000_000, None)).unwrap();
    store
        .register_app(RegisterAppContext {
            app_id: "appd".to_string(),
            remote_storage_config_option: Some(RemoteStorageConfig {
                root: "hdfs://nn:9000/base".to_string(),
                configs: vec![],
            }),
        })
        .unwrap();
    store.mark_warm_disk_unhealthy(0).unwrap();

    let uid = PartitionedUId::from("appd".to_string(), 0, 0);
    let message = SpillMessage {
        ctx: SpillWritingViewContext::new(uid.clone_uid(), vec![block_with(0, vec![9u8; 64])]),
        size: 64,
        retry_cnt: 0,
        previous_spilled_storage: None,
        flight_id: 0,
    };
    // first delivery goes cold directly, with the retry count untouched
    let plan = store.memory_spill_to_persistent_store(&message).unwrap();
    assert!(matches!(plan, SpillPlan::HDFS(_)));
    assert_eq!(0, message.retry_cnt);
}

#[test]
fn retry_fallback_exhausts_after_four_failures() {
    let mut store = HybridStore::from(full_config(1_000_000_000, None)).unwrap();
    store
        .register_app(RegisterAppContext {
            app_id: "appr".to_string(),
            remote_storage_config_option: Some(RemoteStorageConfig {
                root: "hdfs://nn:9000/base".to_string(),
                configs: vec![],
            }),
        })
        .unwrap();
    store.mark_warm_disk_unhealthy(0).unwrap();

    let uid = PartitionedUId::from("appr".to_string(), 0, 0);
    let mut message = SpillMessage {
        ctx: SpillWritingViewContext::new(uid.clone_uid(), vec![block_with(0, vec![5u8; 32])]),
        size: 32,
        retry_cnt: 0,
        previous_spilled_storage: None,
        flight_id: 0,
    };

    // three failures re-publish with a raised count, always going cold
    for expected_retry in 1..=3u16 {
        let plan = store.memory_spill_to_persistent_store(&message).unwrap();
        assert!(matches!(plan, SpillPlan::HDFS(_)));
        store
            .on_spill_failure(message, StorageType::HDFS)
            .expect("below the limit the message goes back on the bus");
        message = store.poll_spill_event().expect("the retry is queued");
        assert_eq!(expected_retry, message.retry_cnt);
    }

    // the fourth failure surfaces the exhaustion error with the app id
    let exhausted = store.on_spill_failure(message, StorageType::HDFS);
    match exhausted {
        Err(WorkerError::SPILL_EVENT_EXCEED_RETRY_MAX_LIMIT(app)) => assert_eq!("appr", app),
        _ => panic!("the retry limit must surface"),
    }
}

#[test]
fn hybrid_purge_is_idempotent() {
    let mut store = HybridStore::from(memory_localfile_config(1000, None)).unwrap();
    let uid = PartitionedUId::from("appp".to_string(), 0, 0);
    store
        .require_buffer(RequireBufferContext::new(uid.clone_uid(), 70), 0)
        .unwrap();
    let ctx = WritingViewContext::from(uid.clone_uid(), vec![block_with(0, vec![1u8; 70])]);
    store.insert(ctx).unwrap();

    let first = store.purge(PurgeDataContext::new("appp".to_string(), None)).unwrap();
    assert_eq!(70, first);
    let second = store.purge(PurgeDataContext::new("appp".to_string(), None)).unwrap();
    assert_eq!(0, second);
}

#[test]
fn remote_register_carries_client_options() {
    let mut store = shuffle_store::remote::HdfsStore::from(HdfsStoreConfig::new());
    store
        .register_app(RegisterAppContext {
            app_id: "opts".to_string(),
            remote_storage_config_option: Some(RemoteStorageConfig {
                root: "hdfs://nn:9000/base".to_string(),
                configs: vec![(
                    "dfs.client.use.datanode.hostname".to_string(),
                    "true".to_string(),
                )],
            }),
        })
        .unwrap();
    let uid = PartitionedUId::from("opts".to_string(), 0, 0);
    let plan = store.prepare_data_insert(&uid, &vec![block_with(0, vec![1u8; 4])]).unwrap();
    assert_eq!("/base", plan.root_path);
}

#[test]
fn remote_register_and_purge() {
    let mut store = shuffle_store::remote::HdfsStore::from(HdfsStoreConfig::new());

    // a registration without a remote config is refused
    let refused = store.register_app(RegisterAppContext {
        app_id: "x".to_string(),
        remote_storage_config_option: None,
    });
    assert!(matches!(refused, Err(WorkerError::INVALID_STORAGE_CONFIG)));

    store
        .register_app(RegisterAppContext {
            app_id: "x".to_string(),
            remote_storage_config_option: Some(RemoteStorageConfig {
                root: "hdfs://nn:9000/base".to_string(),
                configs: vec![],
            }),
        })
        .unwrap();

    let uid = PartitionedUId::from("x".to_string(), 0, 0);
    let blocks = vec![block_with(0, vec![4u8; 8])];
    let plan = store.prepare_data_insert(&uid, &blocks).unwrap();
    assert!(plan.create_files);
    assert_eq!(8, plan.new_data_len);
    assert_eq!("/base", plan.root_path);
    store.commit_data_insert(&uid, plan.new_data_len).unwrap();

    // the cold tier serves no reads
    assert!(matches!(store.get(), Err(WorkerError::NOT_READ_HDFS_DATA_FROM_SERVER)));
    assert!(matches!(store.get_index(), Err(WorkerError::NOT_READ_HDFS_DATA_FROM_SERVER)));

    let removed = store.purge(&"x".to_string(), None).unwrap();
    assert_eq!(8, removed);
    // with the client gone, a second purge owes nothing
    let removed = store.purge(&"x".to_string(), None).unwrap();
    assert_eq!(0, removed);
}
