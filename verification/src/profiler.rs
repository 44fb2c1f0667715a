use vstd::prelude::*;

verus! {

/// One timed block.
pub struct BlockProfiler {
    name: String,
    start: u64,
    parent_idx: usize,
    idx: usize,
    child_duration: u64,
    duration: u64,
}

/// The mathematical value of a [`BlockProfiler`].
pub struct BlockRecord {
    /// The name of the block.
    pub name: Seq<char>,
    /// The counter reading at which the block began.
    pub start: u64,
    /// The place of the block that was opened just before this one.
    pub parent_idx: usize,
    /// The place of this block in the keeper.
    pub idx: usize,
    /// The ticks spent in the blocks that name this one as their parent.
    pub child_duration: u64,
    /// The ticks from the beginning of the block to its end.
    pub duration: u64,
}

impl View for BlockProfiler {
    type V = BlockRecord;

    closed spec fn view(&self) -> BlockRecord {
        BlockRecord {
            name: self.name@,
            start: self.start,
            parent_idx: self.parent_idx,
            idx: self.idx,
            child_duration: self.child_duration,
            duration: self.duration,
        }
    }
}

/// The blocks that were timed, in the order in which they were opened.
pub struct RecordKeeper {
    global_start: u64,
    block_profilers: Vec<BlockProfiler>,
    global_idx: u64,
}

/// The mathematical value of a [`RecordKeeper`].
pub struct KeeperView {
    /// The counter reading at which the keeper was made.
    pub global_start: u64,
    /// The blocks, in the order in which they were inserted.
    pub blocks: Seq<BlockRecord>,
    /// The number of blocks that were opened and not yet stopped, counted
    /// modulo 2^64.
    pub global_idx: u64,
}

impl View for RecordKeeper {
    type V = KeeperView;

    closed spec fn view(&self) -> KeeperView {
        KeeperView {
            global_start: self.global_start,
            blocks: self.block_profilers@.map_values(|b: BlockProfiler| b@),
            global_idx: self.global_idx,
        }
    }
}

/// What a report says of one block.
pub struct ReportLine {
    /// The name of the block.
    pub name: String,
    /// The ticks from the beginning of the block to its end.
    pub inclusive: u64,
    /// The inclusive ticks less the ticks spent in the block's children,
    /// and 0 where the children took more.
    pub exclusive: u64,
}

/// The times of all blocks.
pub struct Report {
    /// The ticks since the keeper was made.
    pub total_duration: u64,
    /// One line for each block, in the keeper's order.
    pub lines: Vec<ReportLine>,
}

/// The ticks of a block outside its children.
pub open spec fn exclusive_duration(block: BlockRecord) -> int {
    if block.duration >= block.child_duration {
        block.duration - block.child_duration
    } else {
        0
    }
}

/// The place of the block opened just before the one at `idx`; the first
/// block names itself.
pub open spec fn parent_of(idx: usize) -> usize {
    if idx > 0 {
        (idx - 1) as usize
    } else {
        0
    }
}

/// The number of open blocks after one more was opened, modulo 2^64.
pub open spec fn one_more(count: u64) -> u64 {
    if count == u64::MAX {
        0
    } else {
        (count + 1) as u64
    }
}

/// The number of open blocks after one was stopped, modulo 2^64.
pub open spec fn one_less(count: u64) -> u64 {
    if count == 0 {
        u64::MAX
    } else {
        (count - 1) as u64
    }
}

/// The blocks after the one at `idx` was given `duration`; unchanged where
/// there is no such block.
pub open spec fn with_duration(blocks: Seq<BlockRecord>, idx: usize, duration: u64) -> Seq<
    BlockRecord,
> {
    if idx < blocks.len() {
        blocks.update(idx as int, BlockRecord { duration, ..blocks[idx as int] })
    } else {
        blocks
    }
}

/// The blocks after `duration` was added to the child time of the one at
/// `idx`; unchanged where there is no such block.
pub open spec fn with_child_time(blocks: Seq<BlockRecord>, idx: usize, duration: u64) -> Seq<
    BlockRecord,
> {
    if idx < blocks.len() {
        blocks.update(
            idx as int,
            BlockRecord {
                child_duration: (blocks[idx as int].child_duration + duration) as u64,
                ..blocks[idx as int]
            },
        )
    } else {
        blocks
    }
}

/// The keeper after `block` was stopped at the counter reading `now`: the
/// block's record gets the ticks since its start as its duration, the
/// record of its parent gets them added to its child time unless the block
/// is the first one, and one block fewer is open.
pub open spec fn stopped(keeper: KeeperView, block: BlockRecord, now: u64) -> KeeperView {
    let duration = (now - block.start) as u64;
    let timed = with_duration(keeper.blocks, block.idx, duration);
    KeeperView {
        blocks: if block.idx > 0 {
            with_child_time(timed, block.parent_idx, duration)
        } else {
            timed
        },
        global_idx: one_less(keeper.global_idx),
        ..keeper
    }
}

/// Stopping `block` at `now` overflows nothing: the counter has not run
/// backwards, and the child time of the parent has room for the duration.
pub open spec fn can_stop(keeper: KeeperView, block: BlockRecord, now: u64) -> bool {
    &&& block.start <= now
    &&& block.idx > 0 && block.parent_idx < keeper.blocks.len() ==> with_duration(
        keeper.blocks,
        block.idx,
        (now - block.start) as u64,
    )[block.parent_idx as int].child_duration + (now - block.start) <= u64::MAX
}

impl BlockProfiler {
    /// Opens a block at the counter reading `now`. The block takes the next
    /// free place in `keeper`, which counts one more open block.
    pub fn new(name: &str, keeper: &mut RecordKeeper, now: u64) -> (profiler: BlockProfiler)
        ensures
            profiler@ == (BlockRecord {
                name: name@,
                start: now,
                parent_idx: parent_of(old(keeper)@.blocks.len() as usize),
                idx: old(keeper)@.blocks.len() as usize,
                child_duration: 0,
                duration: 0,
            }),
            final(keeper)@ == (KeeperView {
                global_idx: one_more(old(keeper)@.global_idx),
                ..old(keeper)@
            }),
    {
        keeper.global_idx = keeper.global_idx.wrapping_add(1);
        let current_idx = keeper.block_profilers.len();
        BlockProfiler {
            name: name.to_owned(),
            start: now,
            parent_idx: if current_idx > 0 {
                current_idx - 1
            } else {
                0
            },
            idx: current_idx,
            child_duration: 0,
            duration: 0,
        }
    }

    /// Stops the block at the counter reading `now` and books its time in
    /// `keeper`.
    pub fn stop(&self, keeper: &mut RecordKeeper, now: u64)
        requires
            can_stop(old(keeper)@, self@, now),
        ensures
            final(keeper)@ == stopped(old(keeper)@, self@, now),
    {
        let duration = now - self.start;
        let ghost before = keeper@;
        proof {
            keeper.lemma_profilers();
        }
        let set_duration = |block_profiler: &mut BlockProfiler|
            ensures
                final(block_profiler)@ == (BlockRecord { duration, ..old(block_profiler)@ }),
            {
                block_profiler.set_duration(duration);
            };
        keeper.with_block_profiler(self.idx, set_duration);
        proof {
            keeper.lemma_profilers();
            assert(keeper@.blocks == with_duration(before.blocks, self.idx, duration));
        }
        let ghost timed = keeper@;
        if self.idx > 0 {
            let add_child_time = |block_profiler: &mut BlockProfiler|
                requires
                    old(block_profiler)@.child_duration + duration <= u64::MAX,
                ensures
                    final(block_profiler)@ == (BlockRecord {
                        child_duration: (old(block_profiler)@.child_duration + duration) as u64,
                        ..old(block_profiler)@
                    }),
                {
                    block_profiler.add_child_duration(duration);
                };
            keeper.with_block_profiler(self.parent_idx, add_child_time);
            proof {
                keeper.lemma_profilers();
                assert(keeper@.blocks == with_child_time(timed.blocks, self.parent_idx, duration));
            }
        }
        keeper.global_idx = keeper.global_idx.wrapping_sub(1);
    }

    /// The name of the block.
    pub fn name(&self) -> (name: &String)
        ensures
            name@ == self@.name,
    {
        &self.name
    }

    /// The counter reading at which the block began.
    pub fn start(&self) -> (start: u64)
        ensures
            start == self@.start,
    {
        self.start
    }

    /// The place of this block in the keeper.
    pub fn idx(&self) -> (idx: usize)
        ensures
            idx == self@.idx,
    {
        self.idx
    }

    /// The place of the block that was opened just before this one.
    pub fn parent_idx(&self) -> (parent_idx: usize)
        ensures
            parent_idx == self@.parent_idx,
    {
        self.parent_idx
    }

    /// The ticks from the beginning of the block to its end.
    pub fn duration(&self) -> (duration: u64)
        ensures
            duration == self@.duration,
    {
        self.duration
    }

    /// The ticks spent in the blocks that name this one as their parent.
    pub fn child_duration(&self) -> (child_duration: u64)
        ensures
            child_duration == self@.child_duration,
    {
        self.child_duration
    }

    /// Sets the ticks from the beginning of the block to its end.
    pub fn set_duration(&mut self, duration: u64)
        ensures
            final(self)@ == (BlockRecord { duration, ..old(self)@ }),
    {
        self.duration = duration;
    }

    /// Adds to the ticks spent in the block's children.
    pub fn add_child_duration(&mut self, duration: u64)
        requires
            old(self)@.child_duration + duration <= u64::MAX,
        ensures
            final(self)@ == (BlockRecord {
                child_duration: (old(self)@.child_duration + duration) as u64,
                ..old(self)@
            }),
    {
        self.child_duration += duration;
    }

    /// A second profiler with the same contents.
    pub fn duplicate(&self) -> (copy: BlockProfiler)
        ensures
            copy@ == self@,
    {
        BlockProfiler {
            name: self.name.clone(),
            start: self.start,
            parent_idx: self.parent_idx,
            idx: self.idx,
            child_duration: self.child_duration,
            duration: self.duration,
        }
    }
}

impl RecordKeeper {
    /// A keeper without blocks, made at the counter reading `now`.
    pub fn new(now: u64) -> (keeper: RecordKeeper)
        ensures
            keeper@ == (KeeperView { global_start: now, blocks: Seq::empty(), global_idx: 0 }),
    {
        let keeper = RecordKeeper { global_start: now, block_profilers: Vec::new(), global_idx: 0 };
        assert(keeper@.blocks == Seq::<BlockRecord>::empty());
        keeper
    }

    /// The number of blocks.
    pub fn len(&self) -> (n: usize)
        ensures
            n == self@.blocks.len(),
    {
        self.block_profilers.len()
    }

    /// The counter reading at which the keeper was made.
    pub fn global_start(&self) -> (start: u64)
        ensures
            start == self@.global_start,
    {
        self.global_start
    }

    /// The number of blocks that are open, modulo 2^64.
    pub fn global_idx(&self) -> (count: u64)
        ensures
            count == self@.global_idx,
    {
        self.global_idx
    }

    /// The profilers that the keeper holds, in order.
    pub closed spec fn profilers(&self) -> Seq<BlockProfiler> {
        self.block_profilers@
    }

    /// The keeper's blocks are the values of its profilers.
    pub proof fn lemma_profilers(&self)
        ensures
            self@.blocks.len() == self.profilers().len(),
            forall|i: int|
                0 <= i < self.profilers().len() ==> self@.blocks[i] == (
                #[trigger] self.profilers()[i])@,
    {
    }

    /// The times of all blocks at the counter reading `now`.
    pub fn report(&self, now: u64) -> (report: Report)
        requires
            self@.global_start <= now,
        ensures
            report.total_duration == now - self@.global_start,
            report.lines.len() == self@.blocks.len(),
            forall|i: int|
                0 <= i < self@.blocks.len() ==> {
                    &&& (#[trigger] report.lines[i]).name@ == self@.blocks[i].name
                    &&& report.lines[i].inclusive == self@.blocks[i].duration
                    &&& report.lines[i].exclusive == exclusive_duration(self@.blocks[i])
                },
    {
        let total_duration = now - self.global_start;
        let mut lines: Vec<ReportLine> = Vec::new();
        let mut i: usize = 0;
        while i < self.block_profilers.len()
            invariant
                i <= self.block_profilers.len(),
                lines.len() == i,
                forall|j: int|
                    0 <= j < i ==> {
                        &&& (#[trigger] lines[j]).name@ == self@.blocks[j].name
                        &&& lines[j].inclusive == self@.blocks[j].duration
                        &&& lines[j].exclusive == exclusive_duration(self@.blocks[j])
                    },
            decreases self.block_profilers.len() - i,
        {
            let record = &self.block_profilers[i];
            let inclusive = record.duration;
            let exclusive = if record.duration >= record.child_duration {
                record.duration - record.child_duration
            } else {
                0
            };
            lines.push(ReportLine { name: record.name.clone(), inclusive, exclusive });
            i += 1;
        }
        Report { total_duration, lines }
    }

    /// Adds a block at the end.
    pub fn insert_block_profiler(&mut self, block_profiler: BlockProfiler)
        ensures
            final(self)@ == (KeeperView {
                blocks: old(self)@.blocks.push(block_profiler@),
                ..old(self)@
            }),
            final(self).profilers() == old(self).profilers().push(block_profiler),
    {
        self.block_profilers.push(block_profiler);
        assert(self@.blocks == old(self)@.blocks.push(block_profiler@));
    }

    /// Runs `f` on the block at `idx` and hands back what it returns; does
    /// nothing and returns `None` where the keeper has no such block.
    pub fn with_block_profiler<F, R>(&mut self, idx: usize, f: F) -> (result: Option<R>) where
        F: FnOnce(&mut BlockProfiler) -> R,

        requires
            idx < old(self).profilers().len() ==> forall|block: &mut BlockProfiler|
                *block == old(self).profilers()[idx as int] ==> call_requires(f, (block,)),
        ensures
            idx >= old(self).profilers().len() ==> result is None && *final(self) == *old(self),
            idx < old(self).profilers().len() ==> {
                &&& result is Some
                &&& final(self)@.global_start == old(self)@.global_start
                &&& final(self)@.global_idx == old(self)@.global_idx
                &&& final(self).profilers().len() == old(self).profilers().len()
                &&& forall|j: int|
                    0 <= j < old(self).profilers().len() && j != idx ==> final(self).profilers()[j]
                        == old(self).profilers()[j]
                &&& exists|block: &mut BlockProfiler|
                    {
                        &&& *block == old(self).profilers()[idx as int]
                        &&& *final(block) == final(self).profilers()[idx as int]
                        &&& call_ensures(f, (block,), result->0)
                    }
            },
    {
        if idx < self.block_profilers.len() {
            let block = &mut self.block_profilers[idx];
            let value = f(block);
            Some(value)
        } else {
            None
        }
    }
}

/// Opens a block named `name` at the counter reading `now` and records it in
/// `keeper`. The profiler that comes back is to be stopped when the block
/// ends.
pub fn profile_block(keeper: &mut RecordKeeper, name: &str, now: u64) -> (profiler: BlockProfiler)
    ensures
        profiler@ == (BlockRecord {
            name: name@,
            start: now,
            parent_idx: parent_of(old(keeper)@.blocks.len() as usize),
            idx: old(keeper)@.blocks.len() as usize,
            child_duration: 0,
            duration: 0,
        }),
        final(keeper)@ == (KeeperView {
            blocks: old(keeper)@.blocks.push(profiler@),
            global_idx: one_more(old(keeper)@.global_idx),
            ..old(keeper)@
        }),
{
    let profiler = BlockProfiler::new(name, keeper, now);
    keeper.insert_block_profiler(profiler.duplicate());
    profiler
}

} // verus!
