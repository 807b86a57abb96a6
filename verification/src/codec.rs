use crate::block::{blocks_wf, concat_data, sum_lengths, views_of, Block, BlockV};
use crate::error::WorkerError;
use vstd::prelude::*;

verus! {

/// One 40-byte index record: where a block's bytes sit in the data file,
/// plus the block's metadata, all big-endian.
#[derive(Clone, Copy, Debug, PartialEq, Eq, Structural)]
pub struct IndexRecord {
    pub offset: i64,
    pub length: i32,
    pub uncompress_length: i32,
    pub crc: i64,
    pub block_id: i64,
    pub task_attempt_id: i64,
}

/// The big-endian bytes of a 64-bit value, most significant first.
pub open spec fn be64(x: u64) -> Seq<u8> {
    seq![
        (x >> 56) as u8,
        (x >> 48) as u8,
        (x >> 40) as u8,
        (x >> 32) as u8,
        (x >> 24) as u8,
        (x >> 16) as u8,
        (x >> 8) as u8,
        x as u8,
    ]
}

pub open spec fn be32(x: u32) -> Seq<u8> {
    seq![(x >> 24) as u8, (x >> 16) as u8, (x >> 8) as u8, x as u8]
}

pub open spec fn i64_be(x: i64) -> Seq<u8> {
    be64(x as u64)
}

pub open spec fn i32_be(x: i32) -> Seq<u8> {
    be32(x as u32)
}

/// The 64-bit value whose big-endian bytes are `s`.
pub open spec fn decode64(s: Seq<u8>) -> u64 {
    ((s[0] as u64) << 56) | ((s[1] as u64) << 48) | ((s[2] as u64) << 40) | ((s[3] as u64) << 32)
        | ((s[4] as u64) << 24) | ((s[5] as u64) << 16) | ((s[6] as u64) << 8) | (s[7] as u64)
}

pub open spec fn decode32(s: Seq<u8>) -> u32 {
    ((s[0] as u32) << 24) | ((s[1] as u32) << 16) | ((s[2] as u32) << 8) | (s[3] as u32)
}

pub proof fn lemma_be64_roundtrip(x: u64)
    ensures
        decode64(be64(x)) == x,
{
    assert((((x >> 56) as u8 as u64) << 56) | (((x >> 48) as u8 as u64) << 48) | (((x
        >> 40) as u8 as u64) << 40) | (((x >> 32) as u8 as u64) << 32) | (((x >> 24) as u8
        as u64) << 24) | (((x >> 16) as u8 as u64) << 16) | (((x >> 8) as u8 as u64) << 8) | (
    x as u8 as u64) == x) by (bit_vector);
}

pub proof fn lemma_be32_roundtrip(x: u32)
    ensures
        decode32(be32(x)) == x,
{
    assert((((x >> 24) as u8 as u32) << 24) | (((x >> 16) as u8 as u32) << 16) | (((x
        >> 8) as u8 as u32) << 8) | (x as u8 as u32) == x) by (bit_vector);
}

pub proof fn lemma_i64_roundtrip(x: i64)
    ensures
        decode64(i64_be(x)) as i64 == x,
{
    lemma_be64_roundtrip(x as u64);
    assert(x as u64 as i64 == x) by (bit_vector);
}

pub proof fn lemma_i32_roundtrip(x: i32)
    ensures
        decode32(i32_be(x)) as i32 == x,
{
    lemma_be32_roundtrip(x as u32);
    assert(x as u32 as i32 == x) by (bit_vector);
}

/// A record's 40 bytes, in the layout readers rely on: i64 offset, i32
/// length, i32 uncompress_length, i64 crc, i64 block_id, i64
/// task_attempt_id, all big-endian.
pub open spec fn record_bytes(r: IndexRecord) -> Seq<u8> {
    i64_be(r.offset) + i32_be(r.length) + i32_be(r.uncompress_length) + i64_be(r.crc) + i64_be(
        r.block_id,
    ) + i64_be(r.task_attempt_id)
}

/// An index file: records back to back.
pub open spec fn index_bytes(rs: Seq<IndexRecord>) -> Seq<u8>
    decreases rs.len(),
{
    if rs.len() == 0 {
        Seq::empty()
    } else {
        index_bytes(rs.drop_last()) + record_bytes(rs.last())
    }
}

/// The record whose 40 bytes are `s`.
pub open spec fn decode_record(s: Seq<u8>) -> IndexRecord {
    IndexRecord {
        offset: decode64(s.subrange(0, 8)) as i64,
        length: decode32(s.subrange(8, 12)) as i32,
        uncompress_length: decode32(s.subrange(12, 16)) as i32,
        crc: decode64(s.subrange(16, 24)) as i64,
        block_id: decode64(s.subrange(24, 32)) as i64,
        task_attempt_id: decode64(s.subrange(32, 40)) as i64,
    }
}

pub proof fn lemma_record_roundtrip(r: IndexRecord)
    ensures
        record_bytes(r).len() == 40,
        decode_record(record_bytes(r)) == r,
{
    let s = record_bytes(r);
    assert(s.subrange(0, 8) =~= i64_be(r.offset));
    assert(s.subrange(8, 12) =~= i32_be(r.length));
    assert(s.subrange(12, 16) =~= i32_be(r.uncompress_length));
    assert(s.subrange(16, 24) =~= i64_be(r.crc));
    assert(s.subrange(24, 32) =~= i64_be(r.block_id));
    assert(s.subrange(32, 40) =~= i64_be(r.task_attempt_id));
    lemma_i64_roundtrip(r.offset);
    lemma_i32_roundtrip(r.length);
    lemma_i32_roundtrip(r.uncompress_length);
    lemma_i64_roundtrip(r.crc);
    lemma_i64_roundtrip(r.block_id);
    lemma_i64_roundtrip(r.task_attempt_id);
}

/// The index records describing `blocks` appended at `base`: record `i`
/// carries the block's metadata and the offset where its bytes begin.
pub open spec fn records_for(blocks: Seq<BlockV>, base: int) -> Seq<IndexRecord>
    decreases blocks.len(),
{
    if blocks.len() == 0 {
        Seq::empty()
    } else {
        records_for(blocks.drop_last(), base).push(
            IndexRecord {
                offset: (base + sum_lengths(blocks.drop_last())) as i64,
                length: blocks.last().length as i32,
                uncompress_length: blocks.last().uncompress_length as i32,
                crc: blocks.last().crc as i64,
                block_id: blocks.last().block_id as i64,
                task_attempt_id: blocks.last().task_attempt_id as i64,
            },
        )
    }
}

pub proof fn lemma_records_for_len(blocks: Seq<BlockV>, base: int)
    ensures
        records_for(blocks, base).len() == blocks.len(),
    decreases blocks.len(),
{
    if blocks.len() > 0 {
        lemma_records_for_len(blocks.drop_last(), base);
    }
}

pub proof fn lemma_records_for_take_step(blocks: Seq<BlockV>, base: int, i: int)
    requires
        0 <= i < blocks.len(),
    ensures
        records_for(blocks.take(i + 1), base) == records_for(blocks.take(i), base).push(
            IndexRecord {
                offset: (base + sum_lengths(blocks.take(i))) as i64,
                length: blocks[i].length as i32,
                uncompress_length: blocks[i].uncompress_length as i32,
                crc: blocks[i].crc as i64,
                block_id: blocks[i].block_id as i64,
                task_attempt_id: blocks[i].task_attempt_id as i64,
            },
        ),
{
    assert(blocks.take(i + 1).drop_last() =~= blocks.take(i));
    assert(blocks.take(i + 1).last() == blocks[i]);
}

pub proof fn lemma_index_bytes_push(rs: Seq<IndexRecord>, r: IndexRecord)
    ensures
        index_bytes(rs.push(r)) == index_bytes(rs) + record_bytes(r),
{
    assert(rs.push(r).drop_last() =~= rs);
}

pub proof fn lemma_index_bytes_len(rs: Seq<IndexRecord>)
    ensures
        index_bytes(rs).len() == 40 * rs.len(),
    decreases rs.len(),
{
    if rs.len() > 0 {
        lemma_index_bytes_len(rs.drop_last());
        lemma_record_roundtrip(rs.last());
    }
}

/// Each record's 40 bytes sit at position `40 * i` of the index file.
pub proof fn lemma_index_bytes_at(rs: Seq<IndexRecord>, i: int)
    requires
        0 <= i < rs.len(),
    ensures
        index_bytes(rs).subrange(40 * i, 40 * i + 40) == record_bytes(rs[i]),
    decreases rs.len(),
{
    lemma_index_bytes_len(rs);
    if i == rs.len() - 1 {
        lemma_index_bytes_len(rs.drop_last());
        lemma_record_roundtrip(rs.last());
        assert(index_bytes(rs).subrange(40 * i, 40 * i + 40) =~= record_bytes(rs[i]));
    } else {
        lemma_index_bytes_at(rs.drop_last(), i);
        lemma_index_bytes_len(rs.drop_last());
        assert(rs.drop_last()[i] == rs[i]);
        assert(index_bytes(rs).subrange(40 * i, 40 * i + 40) =~= index_bytes(
            rs.drop_last(),
        ).subrange(40 * i, 40 * i + 40));
    }
}

/// Block `i`'s payload sits at `[sum of earlier lengths, + its length)` of
/// the concatenated data bytes.
pub proof fn lemma_concat_data_at(blocks: Seq<BlockV>, i: int)
    requires
        blocks_wf(blocks),
        0 <= i < blocks.len(),
    ensures
        concat_data(blocks).len() == sum_lengths(blocks),
        concat_data(blocks).subrange(
            sum_lengths(blocks.take(i)),
            sum_lengths(blocks.take(i)) + blocks[i].length,
        ) == blocks[i].data,
    decreases blocks.len(),
{
    lemma_concat_data_len(blocks);
    crate::block::lemma_sum_lengths_take_le(blocks, i);
    crate::block::lemma_sum_lengths_take_le(blocks, i + 1);
    if i == blocks.len() - 1 {
        lemma_concat_data_len(blocks.drop_last());
        assert(blocks.take(i) =~= blocks.drop_last());
        assert(concat_data(blocks).subrange(
            sum_lengths(blocks.take(i)),
            sum_lengths(blocks.take(i)) + blocks[i].length,
        ) =~= blocks[i].data);
    } else {
        let d = blocks.drop_last();
        assert(blocks_wf(d));
        lemma_concat_data_at(d, i);
        lemma_concat_data_len(d);
        assert(d.take(i) =~= blocks.take(i));
        assert(d[i] == blocks[i]);
        crate::block::lemma_sum_lengths_take_le(d, i);
        crate::block::lemma_sum_lengths_take_le(d, i + 1);
        assert(blocks.take(i + 1) =~= d.take(i + 1));
        assert(concat_data(blocks) == concat_data(d) + blocks.last().data);
        assert(d.take(i + 1).drop_last() =~= d.take(i));
        assert(d.take(i + 1).last() == d[i]);
        assert(sum_lengths(d.take(i)) + d[i].length <= sum_lengths(d));
        assert(concat_data(blocks).subrange(
            sum_lengths(blocks.take(i)),
            sum_lengths(blocks.take(i)) + blocks[i].length,
        ) =~= concat_data(d).subrange(
            sum_lengths(d.take(i)),
            sum_lengths(d.take(i)) + d[i].length,
        ));
    }
}

pub proof fn lemma_concat_data_len(blocks: Seq<BlockV>)
    requires
        blocks_wf(blocks),
    ensures
        concat_data(blocks).len() == sum_lengths(blocks),
    decreases blocks.len(),
{
    if blocks.len() > 0 {
        assert(blocks_wf(blocks.drop_last()));
        lemma_concat_data_len(blocks.drop_last());
        assert(blocks.last() == blocks[blocks.len() - 1]);
    }
}

/// Round trip of one appended batch: the index parses back to the records
/// the batch was built from, and each record's `(offset, length)` cuts that
/// block's bytes out of the data file.  Appending at `base` means
/// offsets are absolute; the data bytes of this batch start at `base`.
pub proof fn lemma_batch_round_trip(blocks: Seq<BlockV>, base: int)
    requires
        blocks_wf(blocks),
        crate::block::blocks_in_range(blocks),
        0 <= base,
        base + sum_lengths(blocks) <= i64::MAX,
    ensures
        index_bytes(records_for(blocks, base)).len() == 40 * blocks.len(),
        forall|i: int|
            0 <= i < blocks.len() ==> decode_record(
                #[trigger] index_bytes(records_for(blocks, base)).subrange(40 * i, 40 * i + 40),
            ) == records_for(blocks, base)[i],
        forall|i: int|
            0 <= i < blocks.len() ==> (#[trigger] records_for(blocks, base)[i]).offset == base
                + sum_lengths(blocks.take(i)) && records_for(blocks, base)[i].length
                == blocks[i].length && records_for(blocks, base)[i].block_id == blocks[i].block_id,
        forall|i: int|
            0 <= i < blocks.len() ==> concat_data(blocks).subrange(
                (#[trigger] records_for(blocks, base)[i]).offset - base,
                records_for(blocks, base)[i].offset - base + records_for(blocks, base)[i].length,
            ) == blocks[i].data,
{
    let rs = records_for(blocks, base);
    lemma_records_for_len(blocks, base);
    lemma_index_bytes_len(rs);
    assert forall|i: int| 0 <= i < blocks.len() implies (#[trigger] rs[i]).offset == base
        + sum_lengths(blocks.take(i)) && rs[i].length == blocks[i].length && rs[i].block_id
        == blocks[i].block_id && rs[i].uncompress_length == blocks[i].uncompress_length && rs[i].crc
        == blocks[i].crc && rs[i].task_attempt_id == blocks[i].task_attempt_id by {
        lemma_records_for_at(blocks, base, i);
        crate::block::lemma_sum_lengths_take_le(blocks, i);
    }
    assert forall|i: int| 0 <= i < blocks.len() implies decode_record(
        #[trigger] index_bytes(rs).subrange(40 * i, 40 * i + 40),
    ) == rs[i] by {
        lemma_index_bytes_at(rs, i);
        lemma_record_roundtrip(rs[i]);
    }
    assert forall|i: int| 0 <= i < blocks.len() implies concat_data(blocks).subrange(
        (#[trigger] rs[i]).offset - base,
        rs[i].offset - base + rs[i].length,
    ) == blocks[i].data by {
        lemma_concat_data_at(blocks, i);
        crate::block::lemma_sum_lengths_take_le(blocks, i);
    }
}

/// Record `i` carries block `i`'s metadata and the running offset.
pub proof fn lemma_records_for_at(blocks: Seq<BlockV>, base: int, i: int)
    requires
        blocks_wf(blocks),
        0 <= i < blocks.len(),
        0 <= base,
        base + sum_lengths(blocks) <= i64::MAX,
    ensures
        records_for(blocks, base)[i] == (IndexRecord {
            offset: (base + sum_lengths(blocks.take(i))) as i64,
            length: blocks[i].length as i32,
            uncompress_length: blocks[i].uncompress_length as i32,
            crc: blocks[i].crc as i64,
            block_id: blocks[i].block_id as i64,
            task_attempt_id: blocks[i].task_attempt_id as i64,
        }),
    decreases blocks.len(),
{
    lemma_records_for_len(blocks, base);
    if i == blocks.len() - 1 {
        assert(blocks.take(i) =~= blocks.drop_last());
        lemma_records_for_len(blocks.drop_last(), base);
    } else {
        let d = blocks.drop_last();
        assert(blocks_wf(d));
        crate::block::lemma_sum_lengths_take_le(blocks, blocks.len() - 1);
        assert(blocks.take(blocks.len() - 1) =~= d);
        lemma_records_for_at(d, base, i);
        lemma_records_for_len(d, base);
        assert(d.take(i) =~= blocks.take(i));
        assert(d[i] == blocks[i]);
    }
}

/// What one append writes: the data bytes, the index bytes, and the data
/// file length after the append.
pub struct AppendBatch {
    pub data: Vec<u8>,
    pub index: Vec<u8>,
    pub next_offset: i64,
}

/// Builds the bytes one append writes: the blocks' payloads back to back,
/// and one 40-byte index record per block with offsets running from
/// `next_offset`.
pub fn build_append_batch(blocks: &Vec<Block>, next_offset: i64) -> (r: AppendBatch)
    requires
        blocks_wf(views_of(blocks@)),
        0 <= next_offset,
        next_offset + sum_lengths(views_of(blocks@)) <= i64::MAX,
    ensures
        r.data@ == concat_data(views_of(blocks@)),
        r.index@ == index_bytes(records_for(views_of(blocks@), next_offset as int)),
        r.next_offset == next_offset + sum_lengths(views_of(blocks@)),
{
    let ghost bv = views_of(blocks@);
    let mut data: Vec<u8> = Vec::new();
    let mut index: Vec<u8> = Vec::new();
    let mut off: i64 = next_offset;
    let mut i: usize = 0;
    proof {
        assert(bv.take(0) =~= Seq::<BlockV>::empty());
        assert(data@ =~= concat_data(bv.take(0)));
        assert(index@ =~= index_bytes(records_for(bv.take(0), next_offset as int)));
    }
    while i < blocks.len()
        invariant
            i <= blocks.len(),
            bv == views_of(blocks@),
            blocks_wf(bv),
            0 <= next_offset,
            next_offset + sum_lengths(bv) <= i64::MAX,
            off == next_offset + sum_lengths(bv.take(i as int)),
            data@ == concat_data(bv.take(i as int)),
            index@ == index_bytes(records_for(bv.take(i as int), next_offset as int)),
        decreases blocks.len() - i,
    {
        proof {
            assert(bv[i as int] == blocks@[i as int]@);
            crate::block::lemma_sum_lengths_take_le(bv, i as int);
            crate::block::lemma_sum_lengths_take_le(bv, i as int + 1);
            assert(bv.take(i as int + 1).drop_last() =~= bv.take(i as int));
            assert(bv.take(i as int + 1).last() == bv[i as int]);
            crate::block::lemma_concat_data_take_step(bv, i as int);
            lemma_records_for_take_step(bv, next_offset as int, i as int);
            lemma_index_bytes_push(
                records_for(bv.take(i as int), next_offset as int),
                IndexRecord {
                    offset: (next_offset + sum_lengths(bv.take(i as int))) as i64,
                    length: bv[i as int].length as i32,
                    uncompress_length: bv[i as int].uncompress_length as i32,
                    crc: bv[i as int].crc as i64,
                    block_id: bv[i as int].block_id as i64,
                    task_attempt_id: bv[i as int].task_attempt_id as i64,
                },
            );
        }
        let block = &blocks[i];
        put_i64_be(&mut index, off);
        put_i32_be(&mut index, block.length);
        put_i32_be(&mut index, block.uncompress_length);
        put_i64_be(&mut index, block.crc);
        put_i64_be(&mut index, block.block_id);
        put_i64_be(&mut index, block.task_attempt_id);
        crate::block::append_bytes(&mut data, &block.data);
        proof {
            let rec = IndexRecord {
                offset: off,
                length: block.length,
                uncompress_length: block.uncompress_length,
                crc: block.crc,
                block_id: block.block_id,
                task_attempt_id: block.task_attempt_id,
            };
            assert(record_bytes(rec) =~= i64_be(off) + i32_be(block.length) + i32_be(
                block.uncompress_length,
            ) + i64_be(block.crc) + i64_be(block.block_id) + i64_be(block.task_attempt_id));
            assert(index@ =~= index_bytes(records_for(bv.take(i as int + 1), next_offset as int)));
        }
        off = off + block.length as i64;
        i = i + 1;
    }
    proof {
        assert(bv.take(blocks@.len() as int) =~= bv);
    }
    AppendBatch { data, index, next_offset: off }
}

/// Writes `x`'s big-endian bytes.
pub fn put_i64_be(out: &mut Vec<u8>, x: i64)
    ensures
        final(out)@ == old(out)@ + i64_be(x),
{
    let u = x as u64;
    out.push((u >> 56) as u8);
    out.push((u >> 48) as u8);
    out.push((u >> 40) as u8);
    out.push((u >> 32) as u8);
    out.push((u >> 24) as u8);
    out.push((u >> 16) as u8);
    out.push((u >> 8) as u8);
    out.push(u as u8);
    proof {
        assert(out@ =~= old(out)@ + i64_be(x));
    }
}

pub fn put_i32_be(out: &mut Vec<u8>, x: i32)
    ensures
        final(out)@ == old(out)@ + i32_be(x),
{
    let u = x as u32;
    out.push((u >> 24) as u8);
    out.push((u >> 16) as u8);
    out.push((u >> 8) as u8);
    out.push(u as u8);
    proof {
        assert(out@ =~= old(out)@ + i32_be(x));
    }
}

/// Reads the records of an index file, ignoring any trailing partial
/// record, as crash recovery does.
pub fn parse_index(bytes: &Vec<u8>) -> (r: Vec<IndexRecord>)
    ensures
        r@.len() == bytes@.len() / 40,
        forall|i: int|
            0 <= i < r@.len() ==> #[trigger] r@[i] == decode_record(
                bytes@.subrange(40 * i, 40 * i + 40),
            ),
{
    let n = bytes.len() / 40;
    proof {
        assert((bytes@.len() as int / 40) * 40 <= bytes@.len() as int) by (nonlinear_arith);
    }
    let mut out: Vec<IndexRecord> = Vec::new();
    let mut i: usize = 0;
    while i < n
        invariant
            i <= n,
            n == bytes@.len() / 40,
            40 * (n as int) <= bytes@.len(),
            bytes@.len() <= usize::MAX,
            out@.len() == i,
            forall|j: int|
                0 <= j < i ==> #[trigger] out@[j] == decode_record(
                    bytes@.subrange(40 * j, 40 * j + 40),
                ),
        decreases n - i,
    {
        let base = i * 40;
        proof {
            assert(40 * (i as int) + 40 <= bytes@.len());
        }
        let rec = IndexRecord {
            offset: get_i64_be(bytes, base),
            length: get_i32_be(bytes, base + 8),
            uncompress_length: get_i32_be(bytes, base + 12),
            crc: get_i64_be(bytes, base + 16),
            block_id: get_i64_be(bytes, base + 24),
            task_attempt_id: get_i64_be(bytes, base + 32),
        };
        proof {
            let s = bytes@.subrange(40 * (i as int), 40 * (i as int) + 40);
            assert(bytes@.subrange(base as int, base as int + 8) =~= s.subrange(0, 8));
            assert(bytes@.subrange(base as int + 8, base as int + 12) =~= s.subrange(8, 12));
            assert(bytes@.subrange(base as int + 12, base as int + 16) =~= s.subrange(12, 16));
            assert(bytes@.subrange(base as int + 16, base as int + 24) =~= s.subrange(16, 24));
            assert(bytes@.subrange(base as int + 24, base as int + 32) =~= s.subrange(24, 32));
            assert(bytes@.subrange(base as int + 32, base as int + 40) =~= s.subrange(32, 40));
        }
        out.push(rec);
        i = i + 1;
    }
    out
}

/// Reads a big-endian i64 at `pos`.
pub fn get_i64_be(bytes: &Vec<u8>, pos: usize) -> (r: i64)
    requires
        pos + 8 <= bytes@.len(),
    ensures
        r == decode64(bytes@.subrange(pos as int, pos as int + 8)) as i64,
{
    let blen = bytes.len();
    let u: u64 = ((bytes[pos] as u64) << 56) | ((bytes[pos + 1] as u64) << 48) | ((bytes[pos
        + 2] as u64) << 40) | ((bytes[pos + 3] as u64) << 32) | ((bytes[pos + 4] as u64) << 24) | ((
    bytes[pos + 5] as u64) << 16) | ((bytes[pos + 6] as u64) << 8) | (bytes[pos + 7] as u64);
    proof {
        let s = bytes@.subrange(pos as int, pos as int + 8);
        assert(s[0] == bytes@[pos as int]);
        assert(s[1] == bytes@[pos as int + 1]);
        assert(s[2] == bytes@[pos as int + 2]);
        assert(s[3] == bytes@[pos as int + 3]);
        assert(s[4] == bytes@[pos as int + 4]);
        assert(s[5] == bytes@[pos as int + 5]);
        assert(s[6] == bytes@[pos as int + 6]);
        assert(s[7] == bytes@[pos as int + 7]);
    }
    u as i64
}

/// Reads a big-endian i32 at `pos`.
pub fn get_i32_be(bytes: &Vec<u8>, pos: usize) -> (r: i32)
    requires
        pos + 4 <= bytes@.len(),
    ensures
        r == decode32(bytes@.subrange(pos as int, pos as int + 4)) as i32,
{
    let blen = bytes.len();
    let u: u32 = ((bytes[pos] as u32) << 24) | ((bytes[pos + 1] as u32) << 16) | ((bytes[pos
        + 2] as u32) << 8) | (bytes[pos + 3] as u32);
    proof {
        let s = bytes@.subrange(pos as int, pos as int + 4);
        assert(s[0] == bytes@[pos as int]);
        assert(s[1] == bytes@[pos as int + 1]);
        assert(s[2] == bytes@[pos as int + 2]);
        assert(s[3] == bytes@[pos as int + 3]);
    }
    u as i32
}

/// Cuts `len` bytes at `offset` out of a byte buffer, as a file-offset
/// read does.
pub fn slice_bytes(data: &Vec<u8>, offset: usize, len: usize) -> (r: Result<Vec<u8>, WorkerError>)
    ensures
        offset + len <= data@.len() ==> (r matches Ok(out) && out@ == data@.subrange(
            offset as int,
            offset as int + len,
        )),
        offset + len > data@.len() ==> r == Err::<Vec<u8>, WorkerError>(
            WorkerError::PARTITION_DATA_NOT_FOUND,
        ),
{
    if len > data.len() || offset > data.len() - len {
        return Err(WorkerError::PARTITION_DATA_NOT_FOUND);
    }
    let mut out: Vec<u8> = Vec::new();
    let mut i: usize = 0;
    while i < len
        invariant
            i <= len,
            offset + len <= data@.len(),
            data@.len() <= usize::MAX,
            out@ == data@.subrange(offset as int, offset as int + i),
        decreases len - i,
    {
        out.push(data[offset + i]);
        proof {
            assert(data@.subrange(offset as int, offset as int + i + 1) =~= data@.subrange(
                offset as int,
                offset as int + i,
            ).push(data@[offset as int + i]));
        }
        i = i + 1;
    }
    Ok(out)
}

/// The byte length an index file is truncated to on recovery: the longest
/// whole-record prefix.
pub fn recovered_index_len(file_len: u64) -> (r: u64)
    ensures
        r == 40 * (file_len / 40),
        r <= file_len,
{
    file_len / 40 * 40
}

} // verus!
