use shuffle_store::block::Block;
use shuffle_store::buffer::MemoryBuffer;
use shuffle_store::codec;

fn block_with(block_id: i64, task_attempt_id: i64, payload: Vec<u8>) -> Block {
    Block {
        block_id,
        task_attempt_id,
        length: payload.len() as i32,
        uncompress_length: payload.len() as i32,
        crc: 7,
        data: payload,
    }
}

#[test]
fn clear_unknown_flight_fails_without_changes() {
    let mut buffer = MemoryBuffer::new();
    buffer
        .append(vec![block_with(1, 0, vec![9u8; 16])], 16)
        .expect("append succeeds");
    assert_eq!(16, buffer.staging_size());
    assert_eq!(16, buffer.total_size());

    assert!(buffer.clear(5, 16).is_err());
    assert_eq!(16, buffer.staging_size());
    assert_eq!(16, buffer.total_size());
}

#[test]
fn spill_moves_staging_into_flight() {
    let mut buffer = MemoryBuffer::new();
    buffer
        .append(vec![block_with(1, 0, vec![1u8; 8]), block_with(2, 0, vec![2u8; 8])], 16)
        .expect("append succeeds");

    let spill = buffer.spill().expect("spill succeeds");
    assert_eq!(16, spill.flight_len());
    assert_eq!(0, buffer.staging_size());
    // the bytes are still accounted: they moved, they were not dropped
    assert_eq!(16, buffer.total_size());

    // a reader starting at the beginning still sees both blocks, now from
    // the flight region
    let read = buffer.get(-1, 1000, &None).expect("read succeeds");
    assert_eq!(2, read.blocks.len());
    assert_eq!(1, read.blocks[0].block_id);
    assert_eq!(2, read.blocks[1].block_id);

    // acknowledging the flight releases exactly its bytes, once
    buffer.clear(spill.flight_id(), spill.flight_len()).expect("clear succeeds");
    assert_eq!(0, buffer.total_size());
    assert!(buffer.clear(spill.flight_id(), spill.flight_len()).is_err());
}

#[test]
fn big_endian_layout_is_exact() {
    let mut out: Vec<u8> = Vec::new();
    codec::put_i64_be(&mut out, 0x0102030405060708);
    assert_eq!(vec![1u8, 2, 3, 4, 5, 6, 7, 8], out);

    let mut out: Vec<u8> = Vec::new();
    codec::put_i32_be(&mut out, -1);
    assert_eq!(vec![255u8, 255, 255, 255], out);

    let bytes = vec![1u8, 2, 3, 4, 5, 6, 7, 8];
    assert_eq!(0x0102030405060708, codec::get_i64_be(&bytes, 0));
}

#[test]
fn append_batch_round_trips_through_the_index() {
    let blocks = vec![
        block_with(10, 3, vec![0xAAu8; 5]),
        block_with(11, 1, vec![0xBBu8; 7]),
        block_with(12, 2, vec![0xCCu8; 3]),
    ];
    let base = 40;
    let batch = codec::build_append_batch(&blocks, base);
    assert_eq!(base + 15, batch.next_offset);
    assert_eq!(15, batch.data.len());
    assert_eq!(120, batch.index.len());

    let records = codec::parse_index(&batch.index);
    assert_eq!(3, records.len());
    let mut offset = base;
    for (i, rec) in records.iter().enumerate() {
        assert_eq!(blocks[i].block_id, rec.block_id);
        assert_eq!(blocks[i].task_attempt_id, rec.task_attempt_id);
        assert_eq!(blocks[i].length, rec.length);
        assert_eq!(blocks[i].crc, rec.crc);
        assert_eq!(offset, rec.offset);
        let cut = codec::slice_bytes(
            &batch.data,
            (rec.offset - base) as usize,
            rec.length as usize,
        )
        .expect("record points inside the data bytes");
        assert_eq!(blocks[i].data, cut);
        offset += rec.length as i64;
    }
}

#[test]
fn recovery_truncates_to_whole_records() {
    assert_eq!(80, codec::recovered_index_len(85));
    assert_eq!(80, codec::recovered_index_len(80));
    assert_eq!(0, codec::recovered_index_len(39));

    // a trailing partial record is ignored by the parser as well
    let blocks = vec![block_with(1, 0, vec![1u8; 4])];
    let batch = codec::build_append_batch(&blocks, 0);
    let mut mangled = batch.index.clone();
    mangled.push(0);
    mangled.push(1);
    let records = codec::parse_index(&mangled);
    assert_eq!(1, records.len());
    assert_eq!(1, records[0].block_id);
}
