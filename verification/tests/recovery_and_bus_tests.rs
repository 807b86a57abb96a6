use shuffle_store::block::{Block, PartitionedUId};
use shuffle_store::codec;
use shuffle_store::config::LocalfileStoreConfig;
use shuffle_store::event_bus::EventBus;
use shuffle_store::localfile::LocalFileStore;

fn block_with(block_id: i64, payload: Vec<u8>) -> Block {
    Block {
        block_id,
        task_attempt_id: 0,
        length: payload.len() as i32,
        uncompress_length: payload.len() as i32,
        crc: 0,
        data: payload,
    }
}

#[test]
fn recovery_restores_the_offset_from_the_index() {
    let mut store = LocalFileStore::from(LocalfileStoreConfig::new(vec!["d0".to_string()])).unwrap();
    let uid = PartitionedUId::from("appz".to_string(), 0, 0);

    // an index file of two whole records plus a torn third: recovery
    // keeps the whole records and restores the data length as the sum of
    // their lengths
    let blocks = vec![block_with(0, vec![1u8; 30]), block_with(1, vec![2u8; 12])];
    let batch = codec::build_append_batch(&blocks, 0);
    let mut index_file = batch.index.clone();
    index_file.extend_from_slice(&[0u8; 17]);

    store.recover_partition(&uid, 0, &index_file).unwrap();
    let plan = store.read_plan(&uid).unwrap();
    assert_eq!(42, plan.next_offset);
    assert_eq!(0, plan.disk_index);

    // the next append continues where the recovered data ended
    let more = vec![block_with(2, vec![3u8; 8])];
    let plan = store.prepare_spill_insert(&uid, &more).unwrap();
    assert_eq!(50, plan.new_next_offset);
    let records = codec::parse_index(&plan.index);
    assert_eq!(42, records[0].offset);
}

#[test]
fn local_purge_is_idempotent() {
    let mut store = LocalFileStore::from(LocalfileStoreConfig::new(vec!["d0".to_string()])).unwrap();
    let uid = PartitionedUId::from("appy".to_string(), 0, 0);
    let blocks = vec![block_with(0, vec![7u8; 25])];
    let plan = store.prepare_spill_insert(&uid, &blocks).unwrap();
    store.commit_append(&uid, plan.new_next_offset).unwrap();

    let first = store.purge(&"appy".to_string(), None).unwrap();
    assert_eq!(25, first);
    let second = store.purge(&"appy".to_string(), None).unwrap();
    assert_eq!(0, second);
}

#[test]
fn full_bus_refuses_the_publish() {
    let mut bus: EventBus<u32> = EventBus::new(2);
    bus.publish(1).unwrap();
    bus.publish(2).unwrap();
    assert!(bus.publish(3).is_err());
    assert_eq!(2, bus.len());

    // polling frees a slot, and order is first in, first out
    assert_eq!(1, bus.poll().unwrap());
    bus.publish(3).unwrap();
    assert_eq!(2, bus.poll().unwrap());
    assert_eq!(3, bus.poll().unwrap());
    assert!(bus.poll().is_none());
}
