use crate::bitmap::{treemap_contains, treemap_contents};
use crate::block::{
    block_wf, blocks_wf, clone_block, clone_blocks, lemma_sum_lengths_concat,
    lemma_sum_lengths_nonneg, lemma_sum_lengths_push, lemma_sum_lengths_take_le, sum_lengths,
    views_of, Block, BlockV,
};
use crate::error::WorkerError;
use vstd::prelude::*;

verus! {

/// Mathematical model of one in-flight spill hand-off.
pub struct FlightV {
    pub flight_id: int,
    pub blocks: Seq<BlockV>,
}

/// Blocks handed off to a persistent tier, tracked until acknowledged.
pub struct Flight {
    pub flight_id: u64,
    pub blocks: Vec<Block>,
}

impl View for Flight {
    type V = FlightV;

    open spec fn view(&self) -> FlightV {
        FlightV { flight_id: self.flight_id as int, blocks: views_of(self.blocks@) }
    }
}

pub open spec fn flight_views(s: Seq<Flight>) -> Seq<FlightV> {
    Seq::new(s.len(), |i: int| s[i]@)
}

/// All blocks across a sequence of flights, flights in order.
pub open spec fn flights_blocks(s: Seq<FlightV>) -> Seq<BlockV>
    decreases s.len(),
{
    if s.len() == 0 {
        Seq::empty()
    } else {
        flights_blocks(s.drop_last()) + s.last().blocks
    }
}

/// The first flight with the given id, if any.
pub open spec fn find_flight(s: Seq<FlightV>, id: int) -> Option<FlightV>
    decreases s.len(),
{
    if s.len() == 0 {
        None
    } else if s[0].flight_id == id {
        Some(s[0])
    } else {
        find_flight(s.drop_first(), id)
    }
}

/// All flights except those with the given id, in order.
pub open spec fn remove_flight_id(s: Seq<FlightV>, id: int) -> Seq<FlightV>
    decreases s.len(),
{
    if s.len() == 0 {
        s
    } else if s.last().flight_id == id {
        remove_flight_id(s.drop_last(), id)
    } else {
        remove_flight_id(s.drop_last(), id).push(s.last())
    }
}

/// Per-partition append log: a staging region of newly appended blocks and
/// an in-flight region per outstanding spill, with byte accounting.
pub struct MemoryBuffer {
    staging: Vec<Block>,
    flights: Vec<Flight>,
    staging_size: i64,
    total_size: i64,
    flight_counter: u64,
}

/// What one spill hand-off drained out of staging.
pub struct SpillResult {
    pub flight_id: u64,
    pub blocks: Vec<Block>,
    pub flight_len: u64,
}

impl SpillResult {
    pub fn flight_id(&self) -> (r: u64)
        ensures
            r == self.flight_id,
    {
        self.flight_id
    }

    pub fn flight_len(&self) -> (r: u64)
        ensures
            r == self.flight_len,
    {
        self.flight_len
    }
}

/// An ordered slice of blocks read out of the buffer.
pub struct BufferReadResult {
    pub blocks: Vec<Block>,
    pub read_len: i64,
}

impl MemoryBuffer {
    pub closed spec fn staging_view(&self) -> Seq<BlockV> {
        views_of(self.staging@)
    }

    pub closed spec fn flights_view(&self) -> Seq<FlightV> {
        flight_views(self.flights@)
    }

    pub closed spec fn staging_size_spec(&self) -> int {
        self.staging_size as int
    }

    pub closed spec fn total_size_spec(&self) -> int {
        self.total_size as int
    }

    pub closed spec fn counter_spec(&self) -> int {
        self.flight_counter as int
    }

    /// The combined ordered view: all flights by ascending flight id, then
    /// staging.
    pub open spec fn combined_view(&self) -> Seq<BlockV> {
        flights_blocks(self.flights_view()) + self.staging_view()
    }

    /// Blocks are well formed, flight ids ascend and stay below the
    /// counter, and the byte counters equal the sums of block lengths.
    pub open spec fn wf(&self) -> bool {
        &&& blocks_wf(self.staging_view())
        &&& forall|i: int|
            0 <= i < self.flights_view().len() ==> blocks_wf(
                (#[trigger] self.flights_view()[i]).blocks,
            )
        &&& forall|i: int, j: int|
            0 <= i < j < self.flights_view().len() ==> (#[trigger] self.flights_view()[i]).flight_id
                < (#[trigger] self.flights_view()[j]).flight_id
        &&& forall|i: int|
            0 <= i < self.flights_view().len() ==> (#[trigger] self.flights_view()[i]).flight_id
                < self.counter_spec()
        &&& self.staging_size_spec() == sum_lengths(self.staging_view())
        &&& self.total_size_spec() == sum_lengths(flights_blocks(self.flights_view()))
            + sum_lengths(self.staging_view())
    }

    pub fn new() -> (r: MemoryBuffer)
        ensures
            r.wf(),
            r.staging_view() == Seq::<BlockV>::empty(),
            r.flights_view() == Seq::<FlightV>::empty(),
            r.total_size_spec() == 0,
            r.staging_size_spec() == 0,
            r.counter_spec() == 0,
    {
        let r = MemoryBuffer {
            staging: Vec::new(),
            flights: Vec::new(),
            staging_size: 0,
            total_size: 0,
            flight_counter: 0,
        };
        proof {
            assert(r.staging_view() =~= Seq::<BlockV>::empty());
            assert(r.flights_view() =~= Seq::<FlightV>::empty());
        }
        r
    }

    pub fn flight_counter(&self) -> (r: u64)
        ensures
            r == self.counter_spec(),
    {
        self.flight_counter
    }

    pub fn staging_size(&self) -> (r: i64)
        ensures
            r == self.staging_size_spec(),
    {
        self.staging_size
    }

    pub fn total_size(&self) -> (r: i64)
        ensures
            r == self.total_size_spec(),
    {
        self.total_size
    }

    /// Pushes the blocks into staging, in order, and accounts their bytes.
    pub fn append(&mut self, blocks: Vec<Block>, size: i64) -> (r: Result<(), WorkerError>)
        requires
            old(self).wf(),
            blocks_wf(views_of(blocks@)),
            size == sum_lengths(views_of(blocks@)),
            old(self).total_size_spec() + size <= i64::MAX,
        ensures
            final(self).wf(),
            r is Ok,
            final(self).staging_view() == old(self).staging_view() + views_of(blocks@),
            final(self).flights_view() == old(self).flights_view(),
            final(self).counter_spec() == old(self).counter_spec(),
            final(self).total_size_spec() == old(self).total_size_spec() + size,
            final(self).staging_size_spec() == old(self).staging_size_spec() + size,
    {
        let ghost incoming = views_of(blocks@);
        let mut blocks = blocks;
        proof {
            assert(self.staging_view() + incoming.take(0) =~= self.staging_view());
            lemma_sum_lengths_nonneg(incoming);
        }
        while blocks.len() > 0
            invariant
                views_of(blocks@) =~= incoming.skip(incoming.len() - blocks@.len()),
                blocks@.len() <= incoming.len(),
                self.staging_view() == old(self).staging_view() + incoming.take(
                    incoming.len() - blocks@.len(),
                ),
                self.flights_view() == old(self).flights_view(),
                self.staging_size == old(self).staging_size,
                self.total_size == old(self).total_size,
                self.flight_counter == old(self).flight_counter,
            decreases blocks@.len(),
        {
            let ghost k = incoming.len() - blocks@.len();
            let ghost before = blocks@;
            let b = blocks.remove(0);
            proof {
                assert(views_of(before)[0] == b@);
                assert(incoming.skip(k)[0] == incoming[k]);
                assert(b@ == incoming[k]);
                assert forall|j: int| 0 <= j < blocks@.len() implies views_of(blocks@)[j]
                    == incoming.skip(k + 1)[j] by {
                    assert(blocks@[j] == before[j + 1]);
                    assert(views_of(before)[j + 1] == before[j + 1]@);
                    assert(incoming.skip(k)[j + 1] == incoming[k + 1 + j]);
                    assert(incoming.skip(k + 1)[j] == incoming[k + 1 + j]);
                }
                assert(views_of(blocks@) =~= incoming.skip(k + 1));
            }
            let ghost sprev = self.staging_view();
            self.staging.push(b);
            proof {
                assert(self.staging_view() =~= sprev.push(incoming[k]));
                assert(incoming.take(k + 1) =~= incoming.take(k).push(incoming[k]));
                assert(self.staging_view() =~= old(self).staging_view() + incoming.take(k + 1));
            }
        }
        proof {
            assert(incoming.take(incoming.len() as int) =~= incoming);
            lemma_sum_lengths_concat(old(self).staging_view(), incoming);
            lemma_flights_blocks_wf_from(old(self));
            lemma_sum_lengths_nonneg(flights_blocks(old(self).flights_view()));
            lemma_sum_lengths_nonneg(old(self).staging_view());
        }
        self.staging_size = self.staging_size + size;
        self.total_size = self.total_size + size;
        Ok(())
    }

    /// Drains staging into a fresh flight and returns its snapshot.  The
    /// total byte count is unchanged: the bytes move from staging to the
    /// in-flight region.
    pub fn spill(&mut self) -> (r: Result<SpillResult, WorkerError>)
        requires
            old(self).wf(),
            old(self).counter_spec() < u64::MAX,
        ensures
            final(self).wf(),
            r is Ok,
            final(self).staging_view() == Seq::<BlockV>::empty(),
            final(self).flights_view() == old(self).flights_view().push(
                FlightV { flight_id: old(self).counter_spec(), blocks: old(self).staging_view() },
            ),
            final(self).counter_spec() == old(self).counter_spec() + 1,
            final(self).total_size_spec() == old(self).total_size_spec(),
            final(self).staging_size_spec() == 0,
            final(self).combined_view() == old(self).combined_view(),
            r matches Ok(s) ==> s.flight_id == old(self).counter_spec() && views_of(s.blocks@)
                == old(self).staging_view() && s.flight_len == old(self).staging_size_spec(),
    {
        let blocks_copy = clone_blocks(&self.staging);
        let mut staged: Vec<Block> = Vec::new();
        core::mem::swap(&mut staged, &mut self.staging);
        let fid = self.flight_counter;
        self.flight_counter = self.flight_counter + 1;
        let ghost fprev = self.flights_view();
        let newflight = Flight { flight_id: fid, blocks: staged };
        let ghost nfv = newflight@;
        self.flights.push(newflight);
        proof {
            lemma_sum_lengths_nonneg(old(self).staging_view());
        }
        let flen = self.staging_size as u64;
        self.staging_size = 0;
        proof {
            assert(self.flights_view() =~= fprev.push(nfv));
            assert(self.staging_view() =~= Seq::<BlockV>::empty());
            lemma_flights_blocks_push(fprev, nfv);
            lemma_sum_lengths_concat(flights_blocks(fprev), nfv.blocks);
            assert(sum_lengths(Seq::<BlockV>::empty()) == 0);
            assert(self.combined_view() =~= old(self).combined_view());
        }
        Ok(SpillResult { flight_id: fid, blocks: blocks_copy, flight_len: flen })
    }

    /// Removes an acknowledged flight, releasing `flight_len` bytes.  It is
    /// an error, changing nothing, to clear an unknown flight or to release
    /// a byte count that is not the flight's; the error marks an invariant
    /// violation in the caller.
    pub fn clear(&mut self, flight_id: u64, flight_len: u64) -> (r: Result<(), WorkerError>)
        requires
            old(self).wf(),
        ensures
            final(self).wf(),
            r is Ok <==> (find_flight(old(self).flights_view(), flight_id as int) matches Some(f)
                && flight_len == sum_lengths(f.blocks)),
            r is Err ==> *final(self) == *old(self) && r == Err::<(), WorkerError>(
                WorkerError::INTERNAL_ERROR,
            ),
            r is Ok ==> final(self).flights_view() == remove_flight_id(
                old(self).flights_view(),
                flight_id as int,
            ),
            r is Ok ==> final(self).staging_view() == old(self).staging_view(),
            r is Ok ==> final(self).counter_spec() == old(self).counter_spec(),
            r is Ok ==> final(self).staging_size_spec() == old(self).staging_size_spec(),
            r is Ok ==> final(self).total_size_spec() == old(self).total_size_spec() - flight_len,
    {
        let ghost fv = self.flights_view();
        let mut i: usize = 0;
        proof {
            assert(fv.skip(0) =~= fv);
        }
        while i < self.flights.len()
            invariant
                i <= self.flights.len(),
                fv == self.flights_view(),
                *self == *old(self),
                self.wf(),
                find_flight(fv, flight_id as int) == find_flight(fv.skip(i as int), flight_id as int),
                forall|j: int| 0 <= j < i ==> (#[trigger] fv[j]).flight_id != flight_id as int,
            decreases self.flights.len() - i,
        {
            proof {
                assert(fv.skip(i as int).len() == fv.len() - i);
                assert(fv.skip(i as int)[0] == fv[i as int]);
            }
            if self.flights[i].flight_id == flight_id {
                proof {
                    assert(find_flight(fv.skip(i as int), flight_id as int) == Some(fv[i as int]));
                }
                let fsum = flight_blocks_size(self, i);
                proof {
                    lemma_flights_blocks_split(fv, i as int);
                    lemma_sum_lengths_concat(
                        flights_blocks(fv.take(i as int)),
                        fv[i as int].blocks + flights_blocks(fv.skip(i as int + 1)),
                    );
                    lemma_sum_lengths_concat(
                        fv[i as int].blocks,
                        flights_blocks(fv.skip(i as int + 1)),
                    );
                    lemma_flights_blocks_take_wf(fv, i as int);
                    lemma_sum_lengths_nonneg(flights_blocks(fv.take(i as int)));
                    lemma_flights_blocks_skip_wf(fv, i as int + 1);
                    lemma_sum_lengths_nonneg(flights_blocks(fv.skip(i as int + 1)));
                    assert(blocks_wf(fv[i as int].blocks));
                    lemma_sum_lengths_nonneg(fv[i as int].blocks);
                    lemma_sum_lengths_nonneg(self.staging_view());
                }
                if flight_len <= i64::MAX as u64 && fsum == flight_len as i64 {
                    let ghost prevf = self.flights@;
                    let removed = self.flights.remove(i);
                    proof {
                        assert forall|j: int| 0 <= j < self.flights@.len() implies flight_views(
                            self.flights@,
                        )[j] == fv.remove(i as int)[j] by {
                            if j < i as int {
                                assert(self.flights@[j] == prevf[j]);
                            } else {
                                assert(self.flights@[j] == prevf[j + 1]);
                            }
                        }
                        assert(self.flights_view() =~= fv.remove(i as int));
                        lemma_remove_unique_flight(fv, flight_id as int, i as int);
                        lemma_flights_blocks_remove(fv, i as int);
                        lemma_sum_lengths_concat(
                            flights_blocks(fv.take(i as int)),
                            flights_blocks(fv.skip(i as int + 1)),
                        );
                    }
                    self.total_size = self.total_size - fsum;
                    proof {
                        let nv = self.flights_view();
                        assert(nv == fv.remove(i as int));
                        assert forall|a: int| 0 <= a < nv.len() implies blocks_wf(
                            (#[trigger] nv[a]).blocks,
                        ) && (nv[a]).flight_id < self.counter_spec() by {
                            if a < i as int {
                                assert(nv[a] == fv[a]);
                            } else {
                                assert(nv[a] == fv[a + 1]);
                            }
                        }
                        assert forall|a: int, b: int| 0 <= a < b < nv.len() implies (
                        #[trigger] nv[a]).flight_id < (#[trigger] nv[b]).flight_id by {
                            let ra = if a < i as int { a } else { a + 1 };
                            let rb = if b < i as int { b } else { b + 1 };
                            assert(nv[a] == fv[ra]);
                            assert(nv[b] == fv[rb]);
                        }
                    }
                    return Ok(());
                } else {
                    return Err(WorkerError::INTERNAL_ERROR);
                }
            }
            proof {
                assert(fv.skip(i as int).drop_first() =~= fv.skip(i as int + 1));
            }
            i = i + 1;
        }
        proof {
            assert(fv.skip(fv.len() as int) =~= Seq::<FlightV>::empty());
        }
        Err(WorkerError::INTERNAL_ERROR)
    }
}

/// Whether a block passes the task-attempt filter: with no filter every
/// block passes; with one, only blocks whose task attempt id is in it.
pub open spec fn passes_filter(fset: Option<croaring::Treemap>, b: BlockV) -> bool {
    match fset {
        Some(t) => treemap_contents(t).contains(b.task_attempt_id as u64),
        None => true,
    }
}

/// Position of the first block with the given id, if any.
pub open spec fn find_block_pos(s: Seq<BlockV>, id: int) -> Option<int>
    decreases s.len(),
{
    if s.len() == 0 {
        None
    } else if s[0].block_id == id {
        Some(0int)
    } else {
        match find_block_pos(s.drop_first(), id) {
            Some(k) => Some(k + 1),
            None => None,
        }
    }
}

/// Where a cursor read starts: just after `last_block_id`'s position in the
/// combined view, or at the beginning when it is -1 or not found.
pub open spec fn cursor_start(s: Seq<BlockV>, last_block_id: int) -> int {
    match find_block_pos(s, last_block_id) {
        Some(k) => k + 1,
        None => 0,
    }
}

/// The blocks a cursor read returns, scanning `s` with `acc` bytes already
/// taken: filtered-out blocks are skipped without counting; the scan runs
/// while the taken bytes lie under `max` and stops at the first passing
/// block whose length would push the total over it, so a limit of zero
/// returns no blocks.
pub open spec fn selected_blocks(s: Seq<BlockV>, fset: Option<croaring::Treemap>, max: int, acc: int) -> Seq<BlockV>
    decreases s.len(),
{
    if s.len() == 0 {
        Seq::empty()
    } else if !passes_filter(fset, s[0]) {
        selected_blocks(s.drop_first(), fset, max, acc)
    } else if acc < max && acc + s[0].length <= max {
        seq![s[0]] + selected_blocks(s.drop_first(), fset, max, acc + s[0].length)
    } else {
        Seq::empty()
    }
}

impl MemoryBuffer {
    /// A copy of the combined ordered view as one vector of blocks.
    fn combined_blocks(&self) -> (r: Vec<Block>)
        ensures
            views_of(r@) == self.combined_view(),
    {
        let mut r: Vec<Block> = Vec::new();
        let mut i: usize = 0;
        let ghost fv = self.flights_view();
        proof {
            assert(views_of(r@) =~= flights_blocks(fv.take(0)));
        }
        while i < self.flights.len()
            invariant
                i <= self.flights.len(),
                fv == self.flights_view(),
                views_of(r@) == flights_blocks(fv.take(i as int)),
            decreases self.flights.len() - i,
        {
            proof {
                assert(fv.take(i as int + 1).drop_last() =~= fv.take(i as int));
                assert(fv.take(i as int + 1).last() == fv[i as int]);
                assert(fv[i as int] == self.flights@[i as int]@);
            }
            append_cloned_blocks(&mut r, &self.flights[i].blocks);
            i = i + 1;
        }
        proof {
            assert(fv.take(fv.len() as int) =~= fv);
        }
        append_cloned_blocks(&mut r, &self.staging);
        r
    }

    /// Returns an ordered slice of blocks: starting just after
    /// `last_block_id`'s position in the combined view (or at the beginning
    /// when it is -1 or unknown), taking passing blocks until the next one
    /// would push the byte total over `max_size`.
    pub fn get(&self, last_block_id: i64, max_size: i64, filter: &Option<croaring::Treemap>) -> (r:
        Result<BufferReadResult, WorkerError>)
        requires
            self.wf(),
        ensures
            r is Ok,
            r matches Ok(out) ==> views_of(out.blocks@) == selected_blocks(
                self.combined_view().skip(cursor_start(self.combined_view(), last_block_id as int)),
                *filter,
                max_size as int,
                0,
            ) && out.read_len == sum_lengths(views_of(out.blocks@)),
    {
        let combined = self.combined_blocks();
        let ghost cv = self.combined_view();
        let clen = combined.len();
        let pos = find_block_index(&combined, last_block_id);
        let start: usize = match pos {
            Some(k) => k + 1,
            None => 0,
        };
        proof {
            assert(start <= combined@.len());
            assert(start as int == cursor_start(cv, last_block_id as int));
        }
        let mut fetched: Vec<Block> = Vec::new();
        let mut fetched_size: i64 = 0;
        let mut i = start;
        let ghost target = selected_blocks(cv.skip(start as int), *filter, max_size as int, 0);
        proof {
            lemma_flights_blocks_wf_from(self);
            lemma_blocks_wf_concat(flights_blocks(self.flights_view()), self.staging_view());
            assert(views_of(fetched@) =~= Seq::<BlockV>::empty());
            assert(Seq::<BlockV>::empty() + selected_blocks(
                cv.skip(start as int),
                *filter,
                max_size as int,
                0,
            ) =~= target);
        }
        let mut stop = false;
        while !stop && i < combined.len()
            invariant
                start <= i <= combined.len(),
                stop ==> selected_blocks(
                    cv.skip(i as int),
                    *filter,
                    max_size as int,
                    fetched_size as int,
                ) == Seq::<BlockV>::empty(),
                views_of(combined@) == cv,
                blocks_wf(cv),
                target == selected_blocks(cv.skip(start as int), *filter, max_size as int, 0),
                views_of(fetched@) + selected_blocks(
                    cv.skip(i as int),
                    *filter,
                    max_size as int,
                    fetched_size as int,
                ) == target,
                fetched_size == sum_lengths(views_of(fetched@)),
                fetched_size == 0 || (0 <= fetched_size && fetched_size <= max_size),
            decreases combined.len() - i, (if stop { 0int } else { 1int }),
        {
            let ghost sv = cv.skip(i as int);
            proof {
                assert(sv.len() == cv.len() - i);
                assert(sv[0] == cv[i as int]);
                assert(sv.drop_first() =~= cv.skip(i as int + 1));
                assert(views_of(combined@)[i as int] == combined@[i as int]@);
            }
            let block = &combined[i];
            let passes = match filter {
                Some(t) => treemap_contains(t, #[verifier::truncate] (block.task_attempt_id
                    as u64)),
                None => true,
            };
            proof {
                assert(passes == passes_filter(*filter, cv[i as int]));
            }
            if passes {
                if fetched_size < max_size && block.length as i64 <= max_size - fetched_size {
                    let ghost pfetched = views_of(fetched@);
                    fetched.push(clone_block(block));
                    proof {
                        assert(views_of(fetched@) =~= pfetched.push(cv[i as int]));
                        lemma_sum_lengths_push(pfetched, cv[i as int]);
                        assert(seq![sv[0]] + selected_blocks(
                            sv.drop_first(),
                            *filter,
                            max_size as int,
                            fetched_size as int + sv[0].length,
                        ) == selected_blocks(sv, *filter, max_size as int, fetched_size as int));
                        assert((pfetched + (seq![sv[0]] + selected_blocks(
                            sv.drop_first(),
                            *filter,
                            max_size as int,
                            fetched_size as int + sv[0].length,
                        ))) =~= (pfetched.push(cv[i as int]) + selected_blocks(
                            cv.skip(i as int + 1),
                            *filter,
                            max_size as int,
                            fetched_size as int + cv[i as int].length,
                        )));
                    }
                    fetched_size = fetched_size + block.length as i64;
                    i = i + 1;
                } else {
                    proof {
                        assert(selected_blocks(sv, *filter, max_size as int, fetched_size as int)
                            =~= Seq::<BlockV>::empty());
                    }
                    stop = true;
                }
            } else {
                i = i + 1;
            }
        }
        proof {
            if !stop {
                assert(i == combined@.len());
                assert(cv.skip(cv.len() as int) =~= Seq::<BlockV>::empty());
            }
            assert(views_of(fetched@) + Seq::<BlockV>::empty() =~= views_of(fetched@));
        }
        Ok(BufferReadResult { blocks: fetched, read_len: fetched_size })
    }
}

/// Finds the index of the block with the given id, scanning from the front.
fn find_block_index(blocks: &Vec<Block>, id: i64) -> (r: Option<usize>)
    ensures
        match r {
            Some(k) => find_block_pos(views_of(blocks@), id as int) == Some(k as int) && (
            k as int) < blocks@.len(),
            None => find_block_pos(views_of(blocks@), id as int) is None,
        },
{
    let ghost bv = views_of(blocks@);
    let mut i: usize = 0;
    while i < blocks.len()
        invariant
            i <= blocks.len(),
            bv == views_of(blocks@),
            forall|j: int| 0 <= j < i ==> (#[trigger] bv[j]).block_id != id as int,
        decreases blocks.len() - i,
    {
        proof {
            assert(bv[i as int] == blocks@[i as int]@);
        }
        if blocks[i].block_id == id {
            proof {
                lemma_find_pos_at(bv, id as int, i as int);
            }
            return Some(i);
        }
        i = i + 1;
    }
    proof {
        lemma_find_pos_none(bv, id as int);
    }
    None
}

/// A found cursor position is inside the sequence.
pub proof fn lemma_cursor_start_range(s: Seq<BlockV>, id: int)
    ensures
        0 <= cursor_start(s, id) <= s.len(),
    decreases s.len(),
{
    match find_block_pos(s, id) {
        Some(k) => {
            lemma_find_block_pos_range(s, id);
        },
        None => {},
    }
}

/// A found block position is inside the sequence.
pub proof fn lemma_find_block_pos_range(s: Seq<BlockV>, id: int)
    ensures
        find_block_pos(s, id) matches Some(k) ==> 0 <= k < s.len(),
    decreases s.len(),
{
    if s.len() > 0 && s[0].block_id != id {
        lemma_find_block_pos_range(s.drop_first(), id);
    }
}

/// If position `i` holds the first occurrence of `id`, the search finds it.
pub proof fn lemma_find_pos_at(s: Seq<BlockV>, id: int, i: int)
    requires
        0 <= i < s.len(),
        s[i].block_id == id,
        forall|j: int| 0 <= j < i ==> (#[trigger] s[j]).block_id != id,
    ensures
        find_block_pos(s, id) == Some(i),
    decreases s.len(),
{
    if i == 0 {
    } else {
        let d = s.drop_first();
        assert(d[i - 1] == s[i]);
        assert(forall|j: int| 0 <= j < i - 1 ==> (#[trigger] d[j]).block_id != id);
        lemma_find_pos_at(d, id, i - 1);
    }
}

/// If `id` occurs nowhere, the search finds nothing.
proof fn lemma_find_pos_none(s: Seq<BlockV>, id: int)
    requires
        forall|j: int| 0 <= j < s.len() ==> (#[trigger] s[j]).block_id != id,
    ensures
        find_block_pos(s, id) is None,
    decreases s.len(),
{
    if s.len() > 0 {
        let d = s.drop_first();
        assert(forall|j: int| 0 <= j < d.len() ==> (#[trigger] d[j]).block_id != id);
        lemma_find_pos_none(d, id);
    }
}

/// Appends clones of `src`'s blocks to `dst`, keeping their models.
fn append_cloned_blocks(dst: &mut Vec<Block>, src: &Vec<Block>)
    ensures
        views_of(final(dst)@) == views_of(old(dst)@) + views_of(src@),
{
    let ghost sv = views_of(src@);
    let mut k: usize = 0;
    proof {
        assert(views_of(dst@) + sv.take(0) =~= views_of(dst@));
    }
    while k < src.len()
        invariant
            k <= src.len(),
            sv == views_of(src@),
            views_of(dst@) == views_of(old(dst)@) + sv.take(k as int),
        decreases src.len() - k,
    {
        let ghost pd = views_of(dst@);
        proof {
            assert(sv[k as int] == src@[k as int]@);
        }
        dst.push(clone_block(&src[k]));
        proof {
            assert(views_of(dst@) =~= pd.push(sv[k as int]));
            assert(sv.take(k as int + 1) =~= sv.take(k as int).push(sv[k as int]));
            assert(views_of(old(dst)@) + sv.take(k as int + 1) =~= pd.push(sv[k as int]));
        }
        k = k + 1;
    }
    proof {
        assert(sv.take(src@.len() as int) =~= sv);
    }
}

/// The byte size of the blocks of flight `i`.
fn flight_blocks_size(buf: &MemoryBuffer, i: usize) -> (r: i64)
    requires
        buf.wf(),
        i < buf.flights_view().len(),
    ensures
        r == sum_lengths(buf.flights_view()[i as int].blocks),
{
    proof {
        lemma_flights_blocks_split(buf.flights_view(), i as int);
        lemma_sum_lengths_concat(
            flights_blocks(buf.flights_view().take(i as int)),
            buf.flights_view()[i as int].blocks + flights_blocks(
                buf.flights_view().skip(i as int + 1),
            ),
        );
        lemma_sum_lengths_concat(
            buf.flights_view()[i as int].blocks,
            flights_blocks(buf.flights_view().skip(i as int + 1)),
        );
        lemma_flights_blocks_wf(buf.flights_view());
        assert(blocks_wf(flights_blocks(buf.flights_view())));
        lemma_sum_lengths_nonneg(buf.staging_view());
        lemma_flights_blocks_take_wf(buf.flights_view(), i as int);
        lemma_sum_lengths_nonneg(flights_blocks(buf.flights_view().take(i as int)));
        lemma_flights_blocks_skip_wf(buf.flights_view(), i as int + 1);
        lemma_sum_lengths_nonneg(flights_blocks(buf.flights_view().skip(i as int + 1)));
        assert(blocks_wf(buf.flights_view()[i as int].blocks));
        lemma_sum_lengths_nonneg(buf.flights_view()[i as int].blocks);
    }
    let blocks = &buf.flights[i].blocks;
    let ghost bv = buf.flights_view()[i as int].blocks;
    let mut acc: i64 = 0;
    let mut k: usize = 0;
    proof {
        assert(views_of(blocks@) =~= bv);
        assert(bv.take(0) =~= Seq::<BlockV>::empty());
    }
    while k < blocks.len()
        invariant
            k <= blocks.len(),
            views_of(blocks@) == bv,
            blocks_wf(bv),
            acc == sum_lengths(bv.take(k as int)),
            sum_lengths(bv) <= i64::MAX,
            blocks == &buf.flights@[i as int].blocks,
            i < buf.flights@.len(),
            bv == buf.flights_view()[i as int].blocks,
        decreases blocks.len() - k,
    {
        proof {
            assert(bv.take(k as int + 1).drop_last() =~= bv.take(k as int));
            assert(bv.take(k as int + 1).last() == bv[k as int]);
            assert(views_of(blocks@)[k as int] == blocks@[k as int]@);
            lemma_sum_lengths_take_le(bv, k as int);
            lemma_sum_lengths_take_le(bv, k as int + 1);
        }
        acc = acc + blocks[k].length as i64;
        k = k + 1;
    }
    proof {
        assert(bv.take(blocks@.len() as int) =~= bv);
    }
    acc
}

/// A cursor read only returns well-formed blocks from the scanned region.
pub proof fn lemma_selected_blocks_wf(
    s: Seq<BlockV>,
    fset: Option<croaring::Treemap>,
    max: int,
    acc: int,
)
    requires
        blocks_wf(s),
    ensures
        blocks_wf(selected_blocks(s, fset, max, acc)),
    decreases s.len(),
{
    if s.len() > 0 {
        let d = s.drop_first();
        assert forall|i: int| 0 <= i < d.len() implies block_wf(#[trigger] d[i]) by {
            assert(d[i] == s[i + 1]);
        }
        if !passes_filter(fset, s[0]) {
            lemma_selected_blocks_wf(d, fset, max, acc);
        } else if acc < max && acc + s[0].length <= max {
            lemma_selected_blocks_wf(d, fset, max, acc + s[0].length);
            let w = selected_blocks(s, fset, max, acc);
            let wd = selected_blocks(d, fset, max, acc + s[0].length);
            assert forall|i: int| 0 <= i < w.len() implies block_wf(#[trigger] w[i]) by {
                if i == 0 {
                    assert(w[0] == s[0]);
                } else {
                    assert(w[i] == wd[i - 1]);
                }
            }
        }
    }
}

/// The byte accounting invariant: a buffer's total is exactly the sum of
/// its blocks' lengths over staging and every flight.
pub proof fn lemma_buffer_accounting(b: &MemoryBuffer)
    requires
        b.wf(),
    ensures
        b.total_size_spec() == sum_lengths(b.combined_view()),
        b.staging_size_spec() == sum_lengths(b.staging_view()),
{
    lemma_sum_lengths_concat(flights_blocks(b.flights_view()), b.staging_view());
}

/// A well-formed buffer's byte counters are nonnegative.
pub proof fn lemma_buffer_total_nonneg(buf: &MemoryBuffer)
    requires
        buf.wf(),
    ensures
        0 <= buf.staging_size_spec(),
        buf.staging_size_spec() <= buf.total_size_spec(),
        0 <= buf.total_size_spec(),
        buf.total_size_spec() <= i64::MAX,
        buf.staging_size_spec() <= i64::MAX,
{
    lemma_flights_blocks_wf(buf.flights_view());
    lemma_sum_lengths_nonneg(flights_blocks(buf.flights_view()));
    lemma_sum_lengths_nonneg(buf.staging_view());
}

/// The flight blocks of a well-formed buffer are well formed.
pub proof fn lemma_flights_blocks_wf_from(buf: &MemoryBuffer)
    requires
        buf.wf(),
    ensures
        blocks_wf(flights_blocks(buf.flights_view())),
{
    lemma_flights_blocks_wf(buf.flights_view());
}

/// Concatenation over flights distributes over push.
pub proof fn lemma_flights_blocks_push(s: Seq<FlightV>, f: FlightV)
    ensures
        flights_blocks(s.push(f)) == flights_blocks(s) + f.blocks,
{
    assert(s.push(f).drop_last() =~= s);
}

/// The blocks of flights split around position `i`.
pub proof fn lemma_flights_blocks_split(s: Seq<FlightV>, i: int)
    requires
        0 <= i < s.len(),
    ensures
        flights_blocks(s) == flights_blocks(s.take(i)) + (s[i].blocks + flights_blocks(
            s.skip(i + 1),
        )),
    decreases s.len(),
{
    if s.len() > 0 {
        if i == s.len() - 1 {
            assert(s.take(i) =~= s.drop_last());
            assert(s.skip(i + 1) =~= Seq::<FlightV>::empty());
            assert(flights_blocks(Seq::<FlightV>::empty()) =~= Seq::<BlockV>::empty());
            assert(s[i].blocks + Seq::<BlockV>::empty() =~= s[i].blocks);
            assert(s.last() == s[i]);
        } else {
            let d = s.drop_last();
            assert(0 <= i < d.len());
            lemma_flights_blocks_split(d, i);
            assert(d.take(i) =~= s.take(i));
            assert(d[i] == s[i]);
            assert(d.skip(i + 1).push(s.last()) =~= s.skip(i + 1));
            lemma_flights_blocks_push(d.skip(i + 1), s.last());
            assert(flights_blocks(s) == flights_blocks(d) + s.last().blocks);
            assert(flights_blocks(s.take(i)) + (s[i].blocks + (flights_blocks(d.skip(i + 1))
                + s.last().blocks)) =~= (flights_blocks(s.take(i)) + (s[i].blocks + flights_blocks(
                d.skip(i + 1),
            ))) + s.last().blocks);
        }
    }
}

/// Removing flight `i` removes exactly its blocks from the concatenation.
pub proof fn lemma_flights_blocks_remove(s: Seq<FlightV>, i: int)
    requires
        0 <= i < s.len(),
    ensures
        flights_blocks(s.remove(i)) == flights_blocks(s.take(i)) + flights_blocks(s.skip(i + 1)),
{
    lemma_flights_blocks_concat(s.take(i), s.skip(i + 1));
    assert(s.remove(i) =~= s.take(i) + s.skip(i + 1));
}

/// Concatenation over flights distributes over sequence concatenation.
pub proof fn lemma_flights_blocks_concat(a: Seq<FlightV>, b: Seq<FlightV>)
    ensures
        flights_blocks(a + b) == flights_blocks(a) + flights_blocks(b),
    decreases b.len(),
{
    if b.len() == 0 {
        assert(a + b =~= a);
        assert(flights_blocks(a) + flights_blocks(b) =~= flights_blocks(a));
    } else {
        assert((a + b).drop_last() =~= a + b.drop_last());
        assert((a + b).last() == b.last());
        lemma_flights_blocks_concat(a, b.drop_last());
        assert((flights_blocks(a) + flights_blocks(b.drop_last())) + b.last().blocks
            =~= flights_blocks(a) + (flights_blocks(b.drop_last()) + b.last().blocks));
    }
}

/// Two well-formed block sequences concatenate to a well-formed one.
pub proof fn lemma_blocks_wf_concat(a: Seq<BlockV>, b: Seq<BlockV>)
    requires
        blocks_wf(a),
        blocks_wf(b),
    ensures
        blocks_wf(a + b),
{
    assert forall|i: int| 0 <= i < (a + b).len() implies block_wf(#[trigger] (a + b)[i]) by {
        if i < a.len() {
            assert((a + b)[i] == a[i]);
        } else {
            assert((a + b)[i] == b[i - a.len()]);
        }
    }
}

/// Well-formed flights concatenate to well-formed blocks.
pub proof fn lemma_flights_blocks_wf(s: Seq<FlightV>)
    requires
        forall|i: int| 0 <= i < s.len() ==> blocks_wf((#[trigger] s[i]).blocks),
    ensures
        blocks_wf(flights_blocks(s)),
    decreases s.len(),
{
    if s.len() > 0 {
        let d = s.drop_last();
        assert(forall|i: int| 0 <= i < d.len() ==> blocks_wf((#[trigger] d[i]).blocks));
        lemma_flights_blocks_wf(d);
        let whole = flights_blocks(d) + s.last().blocks;
        assert forall|i: int| 0 <= i < whole.len() implies block_wf(#[trigger] whole[i]) by {
            if i < flights_blocks(d).len() {
                assert(whole[i] == flights_blocks(d)[i]);
            } else {
                assert(whole[i] == s.last().blocks[i - flights_blocks(d).len()]);
                assert(s.last() == s[s.len() - 1]);
            }
        }
    }
}

pub proof fn lemma_flights_blocks_take_wf(s: Seq<FlightV>, k: int)
    requires
        forall|i: int| 0 <= i < s.len() ==> blocks_wf((#[trigger] s[i]).blocks),
        0 <= k <= s.len(),
    ensures
        blocks_wf(flights_blocks(s.take(k))),
{
    assert(forall|i: int| 0 <= i < k ==> blocks_wf((#[trigger] s.take(k)[i]).blocks));
    lemma_flights_blocks_wf(s.take(k));
}

pub proof fn lemma_flights_blocks_skip_wf(s: Seq<FlightV>, k: int)
    requires
        forall|i: int| 0 <= i < s.len() ==> blocks_wf((#[trigger] s[i]).blocks),
        0 <= k <= s.len(),
    ensures
        blocks_wf(flights_blocks(s.skip(k))),
{
    assert forall|i: int| 0 <= i < s.skip(k).len() implies blocks_wf(
        (#[trigger] s.skip(k)[i]).blocks,
    ) by {
        assert(s.skip(k)[i] == s[k + i]);
    }
    lemma_flights_blocks_wf(s.skip(k));
}

/// Removing the unique position holding `id` is the same as filtering `id`
/// out, when ids are strictly ascending.
proof fn lemma_remove_unique_flight(s: Seq<FlightV>, id: int, at: int)
    requires
        0 <= at < s.len(),
        s[at].flight_id == id,
        forall|i: int, j: int|
            0 <= i < j < s.len() ==> (#[trigger] s[i]).flight_id < (#[trigger] s[j]).flight_id,
    ensures
        s.remove(at) == remove_flight_id(s, id),
    decreases s.len(),
{
    if s.len() > 0 {
        let d = s.drop_last();
        assert(forall|i: int, j: int|
            0 <= i < j < d.len() ==> (#[trigger] d[i]).flight_id < (#[trigger] d[j]).flight_id);
        if at == s.len() - 1 {
            assert(s.last().flight_id == id);
            assert(s.remove(at) =~= d);
            lemma_remove_absent_flight(d, id);
        } else {
            assert(s.last().flight_id != id);
            assert(d[at].flight_id == id);
            lemma_remove_unique_flight(d, id, at);
            assert(s.remove(at) =~= d.remove(at).push(s.last()));
        }
    }
}

proof fn lemma_remove_absent_flight(s: Seq<FlightV>, id: int)
    requires
        forall|j: int| 0 <= j < s.len() ==> (#[trigger] s[j]).flight_id != id,
    ensures
        remove_flight_id(s, id) == s,
    decreases s.len(),
{
    if s.len() > 0 {
        let d = s.drop_last();
        assert(forall|j: int| 0 <= j < d.len() ==> (#[trigger] d[j]).flight_id != id);
        lemma_remove_absent_flight(d, id);
        assert(remove_flight_id(s, id) =~= s);
    }
}

/// With no filter, a cursor read returns a contiguous prefix of the
/// scanned region.
pub proof fn lemma_selected_is_prefix(s: Seq<BlockV>, max: int, acc: int)
    ensures
        selected_blocks(s, Option::<croaring::Treemap>::None, max, acc) == s.take(
            selected_blocks(s, Option::<croaring::Treemap>::None, max, acc).len() as int,
        ),
        selected_blocks(s, Option::<croaring::Treemap>::None, max, acc).len() <= s.len(),
    decreases s.len(),
{
    let w = selected_blocks(s, Option::<croaring::Treemap>::None, max, acc);
    if s.len() == 0 {
        assert(w =~= s.take(w.len() as int));
    } else if acc < max && acc + s[0].length <= max {
        lemma_selected_is_prefix(s.drop_first(), max, acc + s[0].length);
        let wd = selected_blocks(
            s.drop_first(),
            Option::<croaring::Treemap>::None,
            max,
            acc + s[0].length,
        );
        assert(w == seq![s[0]] + wd);
        assert forall|j: int| 0 <= j < w.len() implies w[j] == s.take(w.len() as int)[j] by {
            if j > 0 {
                assert(w[j] == wd[j - 1]);
                assert(wd[j - 1] == s.drop_first().take(wd.len() as int)[j - 1]);
                assert(s.drop_first()[j - 1] == s[j]);
            }
        }
        assert(w =~= s.take(w.len() as int));
    } else {
        assert(w =~= s.take(w.len() as int));
    }
}

/// Reads following cursors cover the append stream in order, without
/// overlap: when block ids are distinct, an unfiltered read that starts at
/// a cursor returns the next contiguous blocks, and the cursor formed from
/// its last block makes the following read start exactly where this one
/// stopped.
pub proof fn lemma_cursor_reads_chain(s: Seq<BlockV>, last_block_id: int, max: int)
    requires
        forall|i: int, j: int|
            0 <= i < j < s.len() ==> (#[trigger] s[i]).block_id != (#[trigger] s[j]).block_id,
    ensures
        ({
            let st = cursor_start(s, last_block_id);
            let sel = selected_blocks(s.skip(st), Option::<croaring::Treemap>::None, max, 0);
            sel.len() > 0 ==> cursor_start(s, sel.last().block_id) == st + sel.len()
        }),
{
    let st = cursor_start(s, last_block_id);
    lemma_cursor_start_range(s, last_block_id);
    let sel = selected_blocks(s.skip(st), Option::<croaring::Treemap>::None, max, 0);
    lemma_selected_is_prefix(s.skip(st), max, 0);
    if sel.len() > 0 {
        let n = sel.len() as int;
        assert(sel.last() == s.skip(st).take(n)[n - 1]);
        assert(s.skip(st)[n - 1] == s[st + n - 1]);
        let id = sel.last().block_id;
        assert(s[st + n - 1].block_id == id);
        assert forall|j: int| 0 <= j < st + n - 1 implies (#[trigger] s[j]).block_id != id by {}
        lemma_find_pos_at(s, id, st + n - 1);
    }
}

/// No block is in two places: flight `k`'s blocks occupy one contiguous
/// slice of the combined view, the slices of distinct flights are
/// disjoint, and the staging region is the tail after all flights.
pub proof fn lemma_block_locations_partition(b: &MemoryBuffer, k: int)
    requires
        b.wf(),
        0 <= k < b.flights_view().len(),
    ensures
        b.combined_view().len() == flights_blocks(b.flights_view()).len()
            + b.staging_view().len(),
        b.combined_view().subrange(
            flights_blocks(b.flights_view()).len() as int,
            b.combined_view().len() as int,
        ) == b.staging_view(),
        b.combined_view().subrange(
            flights_blocks(b.flights_view().take(k)).len() as int,
            flights_blocks(b.flights_view().take(k)).len() + b.flights_view()[k].blocks.len() as int,
        ) == b.flights_view()[k].blocks,
{
    let fv = b.flights_view();
    let fb = flights_blocks(fv);
    lemma_flights_blocks_split(fv, k);
    assert(b.combined_view().subrange(fb.len() as int, b.combined_view().len() as int)
        =~= b.staging_view());
    let off = flights_blocks(fv.take(k)).len() as int;
    assert(fb =~= flights_blocks(fv.take(k)) + (fv[k].blocks + flights_blocks(fv.skip(k + 1))));
    assert forall|j: int| 0 <= j < fv[k].blocks.len() implies b.combined_view()[off + j]
        == fv[k].blocks[j] by {
        assert(fb[off + j] == fv[k].blocks[j]);
    }
    assert(b.combined_view().subrange(off, off + fv[k].blocks.len() as int) =~= fv[k].blocks);
}

} // verus!
