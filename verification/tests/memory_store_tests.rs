use shuffle_store::block::{Block, PartitionedUId};
use shuffle_store::context::{
    PurgeDataContext, ReadingOptions, ReadingViewContext, ReleaseBufferContext,
    RequireBufferContext, WritingViewContext,
};
use shuffle_store::error::WorkerError;
use shuffle_store::memstore::MemoryStore;

fn block(block_id: i64, task_attempt_id: i64, length: i32, uncompress_length: i32, crc: i64) -> Block {
    Block {
        block_id,
        task_attempt_id,
        length,
        uncompress_length,
        crc,
        data: vec![0u8; length as usize],
    }
}

fn uid(app: &str, shuffle: i32, partition: i32) -> PartitionedUId {
    PartitionedUId::from(app.to_string(), shuffle, partition)
}

fn read_ctx(u: &PartitionedUId, last: i64, max: i64) -> ReadingViewContext {
    ReadingViewContext {
        uid: u.clone_uid(),
        reading_options: ReadingOptions::MEMORY_LAST_BLOCK_ID_AND_MAX_SIZE(last, max),
        serialized_expected_task_ids_bitmap: None,
    }
}

fn write_ten_blocks(store: &mut MemoryStore, u: &PartitionedUId) {
    let mut data_blocks = vec![];
    for idx in 0..=9 {
        data_blocks.push(block(idx, 0, 10, 0, 0));
    }
    let ctx = WritingViewContext::from(u.clone_uid(), data_blocks);
    store
        .require_buffer(RequireBufferContext::new(u.clone_uid(), 100), 0)
        .expect("reservation should fit");
    store.insert(ctx).expect("insert should succeed");
}

#[test]
fn test_read_buffer_in_flight() {
    let mut store = MemoryStore::new(1024);
    let u = uid("100", 0, 0);
    write_ten_blocks(&mut store, &u);

    // case 1: read from the beginning
    let mem_data = store.get(read_ctx(&u, -1, 20)).unwrap();
    assert_eq!(2, mem_data.shuffle_data_block_segments.len());
    assert_eq!(0, mem_data.shuffle_data_block_segments[0].block_id);
    assert_eq!(1, mem_data.shuffle_data_block_segments[1].block_id);

    // case 2: an unknown cursor behaves like reading from the beginning
    let mem_data = store.get(read_ctx(&u, 100, 20)).unwrap();
    assert_eq!(2, mem_data.shuffle_data_block_segments.len());
    assert_eq!(0, mem_data.shuffle_data_block_segments[0].block_id);
    assert_eq!(1, mem_data.shuffle_data_block_segments[1].block_id);

    // case 3: read after block 3
    let mem_data = store.get(read_ctx(&u, 3, 20)).unwrap();
    assert_eq!(2, mem_data.shuffle_data_block_segments.len());
    assert_eq!(4, mem_data.shuffle_data_block_segments[0].block_id);
    assert_eq!(5, mem_data.shuffle_data_block_segments[1].block_id);
}

#[test]
fn test_allocated_and_purge_for_memory() {
    let mut store = MemoryStore::new(1024 * 1024 * 1024);
    let ctx = RequireBufferContext::new(uid("100", 0, 0), 10000);
    store.require_buffer(ctx, 0).expect("reservation should fit");
    store
        .purge(PurgeDataContext::new("100".to_string(), None))
        .expect("purge should succeed");

    let snapshot = store.memory_snapshot().unwrap();
    assert_eq!(0, snapshot.used());
    assert_eq!(1024 * 1024 * 1024, snapshot.capacity());
}

#[test]
fn test_purge() {
    let mut store = MemoryStore::new(1024);
    let app_id = "purge_app";
    let shuffle_id = 1;
    let partition = 1;
    let u = PartitionedUId::from(app_id.to_string(), shuffle_id, partition);

    store
        .require_buffer(RequireBufferContext::new(u.clone_uid(), 40), 0)
        .expect("reservation should fit");

    let writing_ctx = WritingViewContext::from(u.clone_uid(), vec![block(0, 0, 10, 100, 99)]);
    store.insert(writing_ctx).expect("insert should succeed");

    let data = store.get(read_ctx(&u, -1, 1000000)).expect("read should succeed");
    assert_eq!(1, data.shuffle_data_block_segments.len());

    // partial purge for one shuffle of the app
    store
        .purge(PurgeDataContext::new(app_id.to_string(), Some(shuffle_id)))
        .expect("purge should succeed");
    assert!(store.get_partitioned_buffer_size(&u).is_err());

    // full purge of the app
    store
        .purge(PurgeDataContext::new(app_id.to_string(), None))
        .expect("purge should succeed");
    let snapshot = store.memory_snapshot().unwrap();
    assert_eq!(snapshot.used(), 0);
    assert_eq!(snapshot.capacity(), 1024);
    let data = store.get(read_ctx(&u, -1, 1000000)).expect("read should succeed");
    assert_eq!(0, data.shuffle_data_block_segments.len());
}

#[test]
fn test_put_and_get_for_memory() {
    let mut store = MemoryStore::new(1024 * 1024 * 1024);
    let u = uid("", 0, 0);
    let writing_ctx = WritingViewContext::from(
        u.clone_uid(),
        vec![block(0, 0, 10, 100, 99), block(1, 1, 20, 200, 99)],
    );
    store
        .require_buffer(RequireBufferContext::new(u.clone_uid(), 30), 0)
        .expect("reservation should fit");
    store.insert(writing_ctx).unwrap();

    let data = store.get(read_ctx(&u, -1, 1000000)).unwrap();
    assert_eq!(data.shuffle_data_block_segments.len(), 2);
    assert_eq!(data.shuffle_data_block_segments[0].offset, 0);
    assert_eq!(data.shuffle_data_block_segments[1].offset, 10);
}

#[test]
fn test_block_id_filter_for_memory() {
    let mut store = MemoryStore::new(1024 * 1024 * 1024);
    let u = uid("", 0, 0);
    let writing_ctx = WritingViewContext::from(
        u.clone_uid(),
        vec![block(0, 0, 10, 100, 99), block(1, 1, 20, 200, 99)],
    );
    store
        .require_buffer(RequireBufferContext::new(u.clone_uid(), 30), 0)
        .expect("reservation should fit");
    store.insert(writing_ctx).unwrap();

    // no filter: both blocks come back
    let data = store.get(read_ctx(&u, -1, 1000000)).unwrap();
    assert_eq!(data.shuffle_data_block_segments.len(), 2);

    // a task filter on {1}, reading after block 0: one block comes back
    let mut bitmap = croaring::Treemap::default();
    bitmap.add(1);
    let ctx = ReadingViewContext {
        uid: u.clone_uid(),
        reading_options: ReadingOptions::MEMORY_LAST_BLOCK_ID_AND_MAX_SIZE(0, 1000000),
        serialized_expected_task_ids_bitmap: Some(bitmap),
    };
    let data = store.get(ctx).unwrap();
    assert_eq!(data.shuffle_data_block_segments.len(), 1);
    assert_eq!(data.shuffle_data_block_segments[0].offset, 0);
    assert_eq!(data.shuffle_data_block_segments[0].uncompress_length, 200);
}

#[test]
fn capacity_gate_scenario() {
    let mut store = MemoryStore::new(100);
    let u = uid("gate", 0, 0);

    let a = store
        .require_buffer(RequireBufferContext::new(u.clone_uid(), 80), 0)
        .expect("first reservation fits");

    let refused = store.require_buffer(RequireBufferContext::new(u.clone_uid(), 30), 0);
    assert!(matches!(refused, Err(WorkerError::NO_ENOUGH_MEMORY_TO_BE_ALLOCATED)));

    let released = store
        .release_buffer(ReleaseBufferContext { ticket_id: a.ticket_id })
        .expect("ticket is live");
    assert_eq!(80, released);

    store
        .require_buffer(RequireBufferContext::new(u.clone_uid(), 30), 0)
        .expect("reservation fits after release");

    let snapshot = store.memory_snapshot().unwrap();
    assert_eq!(100, snapshot.capacity());
    assert_eq!(30, snapshot.allocated());
    assert_eq!(0, snapshot.used());
}

#[test]
fn reservation_over_capacity_refused() {
    let mut store = MemoryStore::new(100);
    let u = uid("over", 0, 0);
    let before = store.memory_snapshot().unwrap();
    let refused = store.require_buffer(RequireBufferContext::new(u.clone_uid(), 101), 0);
    assert!(matches!(refused, Err(WorkerError::NO_ENOUGH_MEMORY_TO_BE_ALLOCATED)));
    let after = store.memory_snapshot().unwrap();
    assert_eq!(before.allocated(), after.allocated());
    assert_eq!(before.used(), after.used());
    assert_eq!(before.capacity(), after.capacity());
}

#[test]
fn empty_read_at_zero_limit() {
    let mut store = MemoryStore::new(1024);
    let u = uid("zero", 0, 0);
    write_ten_blocks(&mut store, &u);
    let data = store.get(read_ctx(&u, -1, 0)).unwrap();
    assert_eq!(0, data.shuffle_data_block_segments.len());
}

#[test]
fn zero_limit_returns_no_blocks_even_for_empty_ones() {
    let mut store = MemoryStore::new(1024);
    let u = uid("zlim", 0, 0);
    store
        .require_buffer(RequireBufferContext::new(u.clone_uid(), 10), 0)
        .expect("reservation fits");
    let ctx = WritingViewContext::from(u.clone_uid(), vec![block(0, 0, 0, 0, 0), block(1, 0, 10, 0, 0)]);
    store.insert(ctx).unwrap();
    let data = store.get(read_ctx(&u, -1, 0)).unwrap();
    assert_eq!(0, data.shuffle_data_block_segments.len());
}

#[test]
fn read_cursor_scenario() {
    let mut store = MemoryStore::new(1024);
    let u = uid("cursor", 0, 0);
    let mut blocks = vec![];
    for idx in 0..=9i64 {
        // each block's task attempt id mirrors its id, so the filter can
        // name blocks
        blocks.push(block(idx, idx, 10, 0, 0));
    }
    let ctx = WritingViewContext::from(u.clone_uid(), blocks);
    store
        .require_buffer(RequireBufferContext::new(u.clone_uid(), 100), 0)
        .expect("reservation fits");
    store.insert(ctx).unwrap();

    let data = store.get(read_ctx(&u, -1, 20)).unwrap();
    let ids: Vec<i64> = data.shuffle_data_block_segments.iter().map(|s| s.block_id).collect();
    assert_eq!(vec![0, 1], ids);

    let data = store.get(read_ctx(&u, 1, 20)).unwrap();
    let ids: Vec<i64> = data.shuffle_data_block_segments.iter().map(|s| s.block_id).collect();
    assert_eq!(vec![2, 3], ids);

    let mut filter = croaring::Treemap::default();
    filter.add(4);
    filter.add(7);
    let ctx = ReadingViewContext {
        uid: u.clone_uid(),
        reading_options: ReadingOptions::MEMORY_LAST_BLOCK_ID_AND_MAX_SIZE(3, 20),
        serialized_expected_task_ids_bitmap: Some(filter),
    };
    let data = store.get(ctx).unwrap();
    let ids: Vec<i64> = data.shuffle_data_block_segments.iter().map(|s| s.block_id).collect();
    assert_eq!(vec![4, 7], ids);
}

#[test]
fn ticket_release_returns_exact_size() {
    let mut store = MemoryStore::new(1000);
    let u = uid("tickets", 0, 0);
    let resp = store
        .require_buffer(RequireBufferContext::new(u.clone_uid(), 640), 5)
        .expect("reservation fits");
    assert_eq!(640, store.memory_snapshot().unwrap().allocated());
    let released = store
        .release_buffer(ReleaseBufferContext { ticket_id: resp.ticket_id })
        .expect("ticket is live");
    assert_eq!(640, released);
    assert_eq!(0, store.memory_snapshot().unwrap().allocated());

    // releasing again reports the ticket gone
    let again = store.release_buffer(ReleaseBufferContext { ticket_id: resp.ticket_id });
    assert!(matches!(again, Err(WorkerError::TICKET_ID_NOT_EXIST)));
}

#[test]
fn ticket_expiry_returns_bytes_to_budget() {
    let mut store = MemoryStore::new(1000);
    let u = uid("ttl", 0, 0);
    store
        .require_buffer(RequireBufferContext::new(u.clone_uid(), 300), 10)
        .expect("reservation fits");
    assert_eq!(300, store.memory_snapshot().unwrap().allocated());

    // before the TTL (300 s by default) elapses, nothing is reclaimed
    store.reap_expired_tickets(100).unwrap();
    assert_eq!(300, store.memory_snapshot().unwrap().allocated());

    // once it elapses, the same bytes return to the budget
    store.reap_expired_tickets(310).unwrap();
    assert_eq!(0, store.memory_snapshot().unwrap().allocated());
}

#[test]
fn purge_is_idempotent() {
    let mut store = MemoryStore::new(1024);
    let u = uid("twice", 3, 4);
    store
        .require_buffer(RequireBufferContext::new(u.clone_uid(), 50), 0)
        .expect("reservation fits");
    let ctx = WritingViewContext::from(u.clone_uid(), vec![block(0, 0, 50, 0, 0)]);
    store.insert(ctx).unwrap();

    let first = store.purge(PurgeDataContext::new("twice".to_string(), None)).unwrap();
    assert_eq!(50, first);
    let second = store.purge(PurgeDataContext::new("twice".to_string(), None)).unwrap();
    assert_eq!(0, second);
}
