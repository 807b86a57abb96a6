use vstd::prelude::*;

verus! {

/// Mathematical model of one shuffle block.
pub struct BlockV {
    pub block_id: int,
    pub task_attempt_id: int,
    pub length: int,
    pub uncompress_length: int,
    pub crc: int,
    pub data: Seq<u8>,
}

/// One append unit: payload bytes plus metadata.  `length` equals
/// `data.len()`.
pub struct Block {
    pub block_id: i64,
    pub task_attempt_id: i64,
    pub length: i32,
    pub uncompress_length: i32,
    pub crc: i64,
    pub data: Vec<u8>,
}

impl View for Block {
    type V = BlockV;

    open spec fn view(&self) -> BlockV {
        BlockV {
            block_id: self.block_id as int,
            task_attempt_id: self.task_attempt_id as int,
            length: self.length as int,
            uncompress_length: self.uncompress_length as int,
            crc: self.crc as int,
            data: self.data@,
        }
    }
}

/// A block is well formed when its recorded length is the payload length.
pub open spec fn block_wf(b: BlockV) -> bool {
    0 <= b.length && b.data.len() == b.length
}

pub open spec fn blocks_wf(s: Seq<BlockV>) -> bool {
    forall|i: int| 0 <= i < s.len() ==> block_wf(#[trigger] s[i])
}

/// The views of a vector of blocks, in order.
pub open spec fn views_of(s: Seq<Block>) -> Seq<BlockV> {
    Seq::new(s.len(), |i: int| s[i]@)
}

/// Total payload bytes over a sequence of blocks.
pub open spec fn sum_lengths(s: Seq<BlockV>) -> int
    decreases s.len(),
{
    if s.len() == 0 {
        0
    } else {
        sum_lengths(s.drop_last()) + s.last().length
    }
}

pub proof fn lemma_sum_lengths_nonneg(s: Seq<BlockV>)
    requires
        blocks_wf(s),
    ensures
        0 <= sum_lengths(s),
    decreases s.len(),
{
    if s.len() > 0 {
        assert(blocks_wf(s.drop_last()));
        lemma_sum_lengths_nonneg(s.drop_last());
    }
}

pub proof fn lemma_sum_lengths_push(s: Seq<BlockV>, b: BlockV)
    ensures
        sum_lengths(s.push(b)) == sum_lengths(s) + b.length,
{
    assert(s.push(b).drop_last() =~= s);
}

pub proof fn lemma_sum_lengths_concat(a: Seq<BlockV>, b: Seq<BlockV>)
    ensures
        sum_lengths(a + b) == sum_lengths(a) + sum_lengths(b),
    decreases b.len(),
{
    if b.len() == 0 {
        assert(a + b =~= a);
    } else {
        assert((a + b).drop_last() =~= a + b.drop_last());
        assert((a + b).last() == b.last());
        lemma_sum_lengths_concat(a, b.drop_last());
    }
}

/// The payload bytes of a prefix never exceed those of the whole, when all
/// lengths are nonnegative.
pub proof fn lemma_sum_lengths_take_le(s: Seq<BlockV>, k: int)
    requires
        blocks_wf(s),
        0 <= k <= s.len(),
    ensures
        sum_lengths(s.take(k)) <= sum_lengths(s),
        0 <= sum_lengths(s.take(k)),
    decreases s.len() - k,
{
    assert(blocks_wf(s.take(k)));
    lemma_sum_lengths_nonneg(s.take(k));
    if k < s.len() {
        assert(s.take(k + 1).drop_last() =~= s.take(k));
        assert(s.take(k + 1).last() == s[k]);
        lemma_sum_lengths_take_le(s, k + 1);
        assert(s.take(s.len() as int) =~= s);
    } else {
        assert(s.take(k) =~= s);
    }
}

/// A block model whose fields fit the machine widths of a real block.
pub open spec fn block_in_range(b: BlockV) -> bool {
    &&& i64::MIN <= b.block_id <= i64::MAX
    &&& i64::MIN <= b.task_attempt_id <= i64::MAX
    &&& i32::MIN <= b.length <= i32::MAX
    &&& i32::MIN <= b.uncompress_length <= i32::MAX
    &&& i64::MIN <= b.crc <= i64::MAX
}

pub open spec fn blocks_in_range(s: Seq<BlockV>) -> bool {
    forall|i: int| 0 <= i < s.len() ==> block_in_range(#[trigger] s[i])
}

/// The views of real blocks always fit the machine widths.
pub proof fn lemma_views_in_range(s: Seq<Block>)
    ensures
        blocks_in_range(views_of(s)),
{
    assert forall|i: int| 0 <= i < views_of(s).len() implies block_in_range(
        #[trigger] views_of(s)[i],
    ) by {
        assert(views_of(s)[i] == s[i]@);
    }
}

/// The payload bytes of a sequence of blocks, concatenated in order.
pub open spec fn concat_data(s: Seq<BlockV>) -> Seq<u8>
    decreases s.len(),
{
    if s.len() == 0 {
        Seq::empty()
    } else {
        concat_data(s.drop_last()) + s.last().data
    }
}

pub proof fn lemma_concat_data_take_step(s: Seq<BlockV>, i: int)
    requires
        0 <= i < s.len(),
    ensures
        concat_data(s.take(i + 1)) == concat_data(s.take(i)) + s[i].data,
{
    assert(s.take(i + 1).drop_last() =~= s.take(i));
    assert(s.take(i + 1).last() == s[i]);
}

/// The total byte size of a vector of blocks.
pub fn blocks_total_size(blocks: &Vec<Block>) -> (r: i64)
    requires
        blocks_wf(views_of(blocks@)),
        sum_lengths(views_of(blocks@)) <= i64::MAX,
    ensures
        r == sum_lengths(views_of(blocks@)),
{
    let ghost bv = views_of(blocks@);
    let mut acc: i64 = 0;
    let mut k: usize = 0;
    proof {
        assert(bv.take(0) =~= Seq::<BlockV>::empty());
    }
    while k < blocks.len()
        invariant
            k <= blocks.len(),
            bv == views_of(blocks@),
            blocks_wf(bv),
            sum_lengths(bv) <= i64::MAX,
            acc == sum_lengths(bv.take(k as int)),
        decreases blocks.len() - k,
    {
        proof {
            assert(bv.take(k as int + 1).drop_last() =~= bv.take(k as int));
            assert(bv.take(k as int + 1).last() == bv[k as int]);
            assert(bv[k as int] == blocks@[k as int]@);
            lemma_sum_lengths_take_le(bv, k as int);
            lemma_sum_lengths_take_le(bv, k as int + 1);
        }
        acc = acc + blocks[k].length as i64;
        k = k + 1;
    }
    proof {
        assert(bv.take(blocks@.len() as int) =~= bv);
    }
    acc
}

/// Identifies the partition a block belongs to.
pub struct PartitionedUId {
    pub app_id: String,
    pub shuffle_id: i32,
    pub partition_id: i32,
}

/// Mathematical model of a partition id.
pub struct UidV {
    pub app_id: Seq<char>,
    pub shuffle_id: int,
    pub partition_id: int,
}

impl View for PartitionedUId {
    type V = UidV;

    open spec fn view(&self) -> UidV {
        UidV {
            app_id: self.app_id@,
            shuffle_id: self.shuffle_id as int,
            partition_id: self.partition_id as int,
        }
    }
}

impl PartitionedUId {
    pub fn from(app_id: String, shuffle_id: i32, partition_id: i32) -> (r: PartitionedUId)
        ensures
            r@ == (UidV { app_id: app_id@, shuffle_id: shuffle_id as int, partition_id: partition_id as int }),
    {
        PartitionedUId { app_id, shuffle_id, partition_id }
    }

    /// Equality over all three components.
    pub fn eq_uid(&self, other: &PartitionedUId) -> (r: bool)
        ensures
            r == (self@ == other@),
    {
        let r = self.app_id == other.app_id && self.shuffle_id == other.shuffle_id
            && self.partition_id == other.partition_id;
        if r {
            assert(self@ =~= other@);
        }
        r
    }

    pub fn clone_uid(&self) -> (r: PartitionedUId)
        ensures
            r@ == self@,
    {
        PartitionedUId {
            app_id: clone_string(&self.app_id),
            shuffle_id: self.shuffle_id,
            partition_id: self.partition_id,
        }
    }
}

/// Clones a string, keeping its characters.
pub fn clone_string(s: &String) -> (r: String)
    ensures
        r@ == s@,
{
    let r = s.clone();
    r
}

/// Appends `src`'s bytes to `dst`.
pub fn append_bytes(dst: &mut Vec<u8>, src: &Vec<u8>)
    ensures
        final(dst)@ == old(dst)@ + src@,
{
    let mut i: usize = 0;
    while i < src.len()
        invariant
            i <= src.len(),
            dst@ == old(dst)@ + src@.take(i as int),
        decreases src.len() - i,
    {
        dst.push(src[i]);
        assert(src@.take(i + 1 as int) =~= src@.take(i as int).push(src@[i as int]));
        i = i + 1;
    }
    assert(src@.take(src@.len() as int) =~= src@);
}

/// Clones one block, keeping its model.
pub fn clone_block(b: &Block) -> (r: Block)
    ensures
        r@ == b@,
{
    let mut data: Vec<u8> = Vec::new();
    append_bytes(&mut data, &b.data);
    assert(data@ =~= b.data@);
    Block {
        block_id: b.block_id,
        task_attempt_id: b.task_attempt_id,
        length: b.length,
        uncompress_length: b.uncompress_length,
        crc: b.crc,
        data,
    }
}

/// Clones a vector of blocks, keeping their models.
pub fn clone_blocks(s: &Vec<Block>) -> (r: Vec<Block>)
    ensures
        views_of(r@) == views_of(s@),
{
    let mut r: Vec<Block> = Vec::new();
    let mut i: usize = 0;
    while i < s.len()
        invariant
            i <= s.len(),
            views_of(r@) == views_of(s@).take(i as int),
        decreases s.len() - i,
    {
        let b = clone_block(&s[i]);
        let ghost prev = r@;
        r.push(b);
        proof {
            assert(views_of(prev).len() == prev.len());
            assert(views_of(s@).take(i as int).len() == i as int);
            assert(prev.len() == i as int);
            assert(r@ == prev.push(b));
            assert forall|j: int| 0 <= j < i as int + 1 implies views_of(r@)[j] == views_of(
                s@,
            ).take(i as int + 1)[j] by {
                assert(views_of(r@)[j] == r@[j]@);
                assert(views_of(s@).take(i as int + 1)[j] == views_of(s@)[j]);
                if j < i as int {
                    assert(r@[j] == prev[j]);
                    assert(views_of(prev)[j] == prev[j]@);
                    assert(views_of(prev)[j] == views_of(s@).take(i as int)[j]);
                    assert(views_of(s@).take(i as int)[j] == views_of(s@)[j]);
                } else {
                    assert(r@[j] == b);
                }
            }
            assert(views_of(r@) =~= views_of(s@).take(i as int + 1));
        }
        i = i + 1;
    }
    assert(views_of(s@).take(s@.len() as int) =~= views_of(s@));
    r
}

} // verus!
