use shuffle_store::block::{Block, PartitionedUId};
use shuffle_store::config::LocalfileStoreConfig;
use shuffle_store::disk::LocalDiskDelegator;
use shuffle_store::localfile::LocalFileStore;

#[test]
fn test_capacity_check() {
    let mut delegator = LocalDiskDelegator::new("test_sync_io".to_string(), 800, 600);

    // case 1: plenty of room keeps the disk healthy
    delegator.capacity_check(100, 90).unwrap();
    assert!(delegator.is_healthy().unwrap());

    // case 2: crossing the high watermark marks it unhealthy
    delegator.capacity_check(100, 10).unwrap();
    assert!(!delegator.is_healthy().unwrap());

    // case 3: falling under the low watermark heals it
    delegator.capacity_check(100, 90).unwrap();
    assert!(delegator.is_healthy().unwrap());
}

#[test]
fn corruption_is_sticky() {
    let mut delegator = LocalDiskDelegator::new("root0".to_string(), 800, 600);
    let written = delegator.canary_payload();
    let mut mangled = written.clone();
    mangled[0] = mangled[0].wrapping_add(1);

    delegator.write_read_check(&written, &mangled).unwrap();
    assert!(delegator.is_corrupted().unwrap());

    // later checks, however clean, never clear the flag
    delegator.periodic_check(100, 90, &written, &written).unwrap();
    assert!(delegator.is_corrupted().unwrap());
    delegator.periodic_check(100, 90, &written, &written).unwrap();
    assert!(delegator.is_corrupted().unwrap());
}

#[test]
fn new_partitions_skip_corrupted_disks() {
    let config = LocalfileStoreConfig::new(vec!["d0".to_string()]);
    let mut store = LocalFileStore::from(config).unwrap();
    store.mark_disk_corrupted(0).unwrap();
    assert!(!store.is_healthy().unwrap());

    let uid = PartitionedUId::from("app".to_string(), 0, 0);
    let blocks = vec![Block {
        block_id: 0,
        task_attempt_id: 0,
        length: 4,
        uncompress_length: 4,
        crc: 0,
        data: vec![1u8; 4],
    }];
    let refused = store.prepare_spill_insert(&uid, &blocks);
    assert!(refused.is_err());
}

#[test]
fn local_append_is_pinned_and_committed() {
    let config = LocalfileStoreConfig::new(vec!["d0".to_string(), "d1".to_string()]);
    let mut store = LocalFileStore::from(config).unwrap();
    let uid = PartitionedUId::from("app".to_string(), 1, 2);
    let blocks = vec![Block {
        block_id: 7,
        task_attempt_id: 0,
        length: 6,
        uncompress_length: 6,
        crc: 1,
        data: vec![3u8; 6],
    }];

    let plan = store.prepare_spill_insert(&uid, &blocks).unwrap();
    assert!(plan.newly_assigned);
    assert_eq!(6, plan.new_next_offset);
    store.commit_append(&uid, plan.new_next_offset).unwrap();

    // the next append to the same partition starts where the last ended,
    // on the same disk
    let plan2 = store.prepare_spill_insert(&uid, &blocks).unwrap();
    assert!(!plan2.newly_assigned);
    assert_eq!(plan.disk_index, plan2.disk_index);
    assert_eq!(12, plan2.new_next_offset);

    let read = store.read_plan(&uid).unwrap();
    assert_eq!(plan.disk_index, read.disk_index);
    assert_eq!(6, read.next_offset);
}
