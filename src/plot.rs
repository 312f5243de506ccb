use crate::chunk::{BlockEntity, BlockPos, Chunk, CHUNK_HEIGHT, SECTIONS};
use crate::clientbound::CChunkData;
use crate::palette::GLOBAL_IDS;
use crate::section::{cell_index, container_holds, count_nonzero};
use vstd::arithmetic::div_mod::{lemma_fundamental_div_mod, lemma_mod_bound};
use vstd::prelude::*;

verus! {

/// The width of a plot is `2^PLOT_SCALE` chunks.
pub const PLOT_SCALE: u32 = 4;

/// The width of a plot, in chunks.
pub const PLOT_WIDTH: i32 = 16;

/// The width of a plot, in blocks.
pub const PLOT_BLOCK_WIDTH: i32 = 256;

/// The number of chunks in a plot.
pub const NUM_CHUNKS: usize = 256;

/// The largest plot coordinate whose corners fit in an `i32`, in either direction.
pub const PLOT_COORD_LIMIT: i32 = 0x7F_FFFE;

/// How urgent a scheduled update is.
#[derive(PartialEq, Eq, Structural, Clone, Copy, Debug)]
pub enum TickPriority {
    Highest,
    Higher,
    High,
    Normal,
}

/// A scheduled block update.
#[derive(PartialEq, Eq, Structural, Clone, Copy, Debug)]
pub struct TickEntry {
    pub ticks_left: u32,
    pub tick_priority: TickPriority,
    pub pos: BlockPos,
}

/// A square of 16×16 chunks at plot coordinates `(x, z)`, with its pending updates.
pub struct PlotWorld {
    pub(crate) x: i32,
    pub(crate) z: i32,
    pub(crate) chunks: Vec<Chunk>,
    pub(crate) to_be_ticked: Vec<TickEntry>,
}

/// The index of a chunk in a plot, from its position in the plot: row by row in `x`.
pub open spec fn chunk_slot(local_x: int, local_z: int) -> int {
    local_x * 16 + local_z
}

/// An offset in a plot splits into a chunk and a place in the chunk.
proof fn lemma_split(d: int)
    requires
        0 <= d < 256,
    ensures
        0 <= d / 16 < 16,
        0 <= d % 16 < 16,
        d == (d / 16) * 16 + d % 16,
{
    lemma_fundamental_div_mod(d, 16);
    lemma_mod_bound(d, 16);
}

impl PlotWorld {
    /// Plot coordinates whose corners fit in an `i32`, and 256 well-formed chunks.
    pub open(crate) spec fn wf(&self) -> bool {
        &&& -PLOT_COORD_LIMIT <= self.x <= PLOT_COORD_LIMIT
        &&& -PLOT_COORD_LIMIT <= self.z <= PLOT_COORD_LIMIT
        &&& self.chunks@.len() == NUM_CHUNKS
        &&& forall|i: int| 0 <= i < NUM_CHUNKS ==> (#[trigger] self.chunks@[i]).wf()
    }

    /// The plot's `x`.
    pub open(crate) spec fn plot_x(&self) -> i32 {
        self.x
    }

    /// The plot's `z`.
    pub open(crate) spec fn plot_z(&self) -> i32 {
        self.z
    }

    /// The offset of a block coordinate from the plot's corner.
    pub open(crate) spec fn offset(origin: i32, b: i32) -> int {
        b - origin * PLOT_BLOCK_WIDTH
    }

    /// Whether the column of `(bx, bz)` lies in the plot.
    pub open(crate) spec fn contains(&self, bx: i32, bz: i32) -> bool {
        &&& 0 <= Self::offset(self.x, bx) < PLOT_BLOCK_WIDTH
        &&& 0 <= Self::offset(self.z, bz) < PLOT_BLOCK_WIDTH
    }

    /// The index of the chunk that holds the column `(bx, bz)`.
    pub open(crate) spec fn slot_of(&self, bx: i32, bz: i32) -> int {
        chunk_slot(Self::offset(self.x, bx) / 16, Self::offset(self.z, bz) / 16)
    }

    /// The position of `pos` in its chunk.
    pub open(crate) spec fn local(&self, pos: BlockPos) -> BlockPos {
        BlockPos {
            x: (Self::offset(self.x, pos.x) % 16) as i32,
            y: pos.y,
            z: (Self::offset(self.z, pos.z) % 16) as i32,
        }
    }

    /// Whether `pos` is a cell of the plot.
    pub open(crate) spec fn holds(&self, pos: BlockPos) -> bool {
        self.contains(pos.x, pos.z) && 0 <= pos.y < CHUNK_HEIGHT
    }

    /// The block at `pos`: empty outside the plot.
    pub open(crate) spec fn block_at(&self, pos: BlockPos) -> u32 {
        if self.holds(pos) {
            let l = self.local(pos);
            self.chunks@[self.slot_of(pos.x, pos.z)].block(l.x as u32, l.y as u32, l.z as u32)
        } else {
            0
        }
    }

    /// The block entity at `pos`: none outside the plot's columns.
    pub open(crate) spec fn entity_at(&self, pos: BlockPos) -> Option<(i32, Seq<u8>)> {
        if self.contains(pos.x, pos.z) {
            self.chunks@[self.slot_of(pos.x, pos.z)].entity(self.local(pos))
        } else {
            None
        }
    }

    /// The chunk at index `i`.
    pub open(crate) spec fn chunk(&self, i: int) -> Chunk {
        self.chunks@[i]
    }

    /// The pending updates, in the order they were scheduled.
    pub open(crate) spec fn ticks(&self) -> Seq<TickEntry> {
        self.to_be_ticked@
    }

    /// A plot at `(x, z)` over `chunks`, row by row in `x`, with pending updates.
    pub fn new(x: i32, z: i32, chunks: Vec<Chunk>, to_be_ticked: Vec<TickEntry>) -> (r: PlotWorld)
        requires
            -PLOT_COORD_LIMIT <= x <= PLOT_COORD_LIMIT,
            -PLOT_COORD_LIMIT <= z <= PLOT_COORD_LIMIT,
            chunks@.len() == NUM_CHUNKS,
            forall|i: int| 0 <= i < NUM_CHUNKS ==> (#[trigger] chunks@[i]).wf(),
        ensures
            r.wf(),
            r.plot_x() == x,
            r.plot_z() == z,
            r.ticks() == to_be_ticked@,
            forall|i: int| 0 <= i < NUM_CHUNKS ==> #[trigger] r.chunk(i) == chunks@[i],
    {
        PlotWorld { x, z, chunks, to_be_ticked }
    }

    /// The index of the chunk at chunk coordinates `(chunk_x, chunk_z)`, or
    /// `None` outside the plot. Coordinates outside the plot are refused rather
    /// than folded onto a chunk inside it.
    fn get_chunk_index_for_chunk(&self, chunk_x: i32, chunk_z: i32) -> (r: Option<usize>)
        requires
            self.wf(),
        ensures
            match r {
                Some(i) => {
                    &&& 0 <= chunk_x - self.plot_x() * PLOT_WIDTH < PLOT_WIDTH
                    &&& 0 <= chunk_z - self.plot_z() * PLOT_WIDTH < PLOT_WIDTH
                    &&& i == chunk_slot(chunk_x - self.plot_x() * PLOT_WIDTH, chunk_z - self.plot_z() * PLOT_WIDTH)
                },
                None => !(0 <= chunk_x - self.plot_x() * PLOT_WIDTH < PLOT_WIDTH && 0 <= chunk_z - self.plot_z()
                    * PLOT_WIDTH < PLOT_WIDTH),
            },
    {
        let local_x = chunk_x as i64 - self.x as i64 * 16;
        let local_z = chunk_z as i64 - self.z as i64 * 16;
        if local_x < 0 || local_x >= 16 || local_z < 0 || local_z >= 16 {
            return None;
        }
        Some((local_x * 16 + local_z) as usize)
    }

    /// The index of the chunk that holds the column `(block_x, block_z)`, or
    /// `None` outside the plot. Columns outside the plot on either side are
    /// refused rather than folded onto a chunk inside it.
    fn get_chunk_index_for_block(&self, block_x: i32, block_z: i32) -> (r: Option<usize>)
        requires
            self.wf(),
        ensures
            r is Some <==> self.contains(block_x, block_z),
            r matches Some(i) ==> i == self.slot_of(block_x, block_z) && i < NUM_CHUNKS,
    {
        let dx = block_x as i64 - self.x as i64 * 256;
        let dz = block_z as i64 - self.z as i64 * 256;
        if dx < 0 || dx >= 256 || dz < 0 || dz >= 256 {
            return None;
        }
        proof {
            lemma_split(dx as int);
            lemma_split(dz as int);
        }
        Some(((dx / 16) * 16 + dz / 16) as usize)
    }

    /// The position of a block of the plot in its chunk.
    fn local_pos(&self, pos: BlockPos) -> (r: BlockPos)
        requires
            self.wf(),
            self.contains(pos.x, pos.z),
        ensures
            r == self.local(pos),
            0 <= r.x < 16,
            0 <= r.z < 16,
    {
        let dx = pos.x as i64 - self.x as i64 * 256;
        let dz = pos.z as i64 - self.z as i64 * 256;
        proof {
            lemma_split(dx as int);
            lemma_split(dz as int);
        }
        BlockPos { x: (dx % 16) as i32, y: pos.y, z: (dz % 16) as i32 }
    }

    /// The world-space corners of the plot: the lowest block and the highest.
    pub fn get_corners(&self) -> (r: (BlockPos, BlockPos))
        requires
            self.wf(),
        ensures
            r.0 == (BlockPos {
                x: (self.plot_x() * PLOT_BLOCK_WIDTH) as i32,
                y: 0,
                z: (self.plot_z() * PLOT_BLOCK_WIDTH) as i32,
            }),
            r.1 == (BlockPos {
                x: ((self.plot_x() + 1) * PLOT_BLOCK_WIDTH - 1) as i32,
                y: 255,
                z: ((self.plot_z() + 1) * PLOT_BLOCK_WIDTH - 1) as i32,
            }),
    {
        let w = PLOT_BLOCK_WIDTH;
        let first_pos = BlockPos::new(self.x * w, 0, self.z * w);
        let second_pos = BlockPos::new((self.x + 1) * w - 1, 255, (self.z + 1) * w - 1);
        (first_pos, second_pos)
    }

    /// The block at `pos`: empty outside the plot.
    pub fn get_block_raw(&self, pos: BlockPos) -> (r: u32)
        requires
            self.wf(),
        ensures
            r == self.block_at(pos),
    {
        let chunk_index = match self.get_chunk_index_for_block(pos.x, pos.z) {
            Some(idx) => idx,
            None => return 0,
        };
        if pos.y < 0 || pos.y >= CHUNK_HEIGHT as i32 {
            return 0;
        }
        let l = self.local_pos(pos);
        self.chunks[chunk_index].get_block(l.x as u32, pos.y as u32, l.z as u32)
    }

    /// Two cells of the plot in one chunk, one section and one cell index are one position.
    proof fn lemma_cell_injective(&self, p: BlockPos, q: BlockPos)
        requires
            self.holds(p),
            self.holds(q),
            self.slot_of(p.x, p.z) == self.slot_of(q.x, q.z),
            p.y / 16 == q.y / 16,
            cell_index(self.local(p).x as u32, (p.y % 16) as u32, self.local(p).z as u32)
                == cell_index(self.local(q).x as u32, (q.y % 16) as u32, self.local(q).z as u32),
        ensures
            p == q,
    {
        lemma_split(Self::offset(self.x, p.x));
        lemma_split(Self::offset(self.z, p.z));
        lemma_split(Self::offset(self.x, q.x));
        lemma_split(Self::offset(self.z, q.z));
        lemma_split(p.y as int);
        lemma_split(q.y as int);
    }

    /// Sets the block at `pos`; outside the plot nothing changes. Returns
    /// whether the block changed.
    pub fn set_block_raw(&mut self, pos: BlockPos, block: u32) -> (r: bool)
        requires
            old(self).wf(),
            block < GLOBAL_IDS,
        ensures
            final(self).wf(),
            final(self).plot_x() == old(self).plot_x(),
            final(self).plot_z() == old(self).plot_z(),
            final(self).ticks() == old(self).ticks(),
            forall|q: BlockPos| #[trigger] final(self).block_at(q) == if q == pos && old(self).holds(pos) {
                block
            } else {
                old(self).block_at(q)
            },
            forall|q: BlockPos| #[trigger] final(self).entity_at(q) == old(self).entity_at(q),
            r == (old(self).holds(pos) && old(self).block_at(pos) != block),
    {
        let chunk_index = match self.get_chunk_index_for_block(pos.x, pos.z) {
            Some(idx) => idx,
            None => return false,
        };
        if pos.y >= CHUNK_HEIGHT as i32 || pos.y < 0 {
            return false;
        }
        let l = self.local_pos(pos);
        proof {
            self.lemma_in_range(pos);
        }
        let ghost before = *self;
        let mut chunk = self.chunks.remove(chunk_index);
        let changed = chunk.set_block(l.x as u32, pos.y as u32, l.z as u32, block);
        self.chunks.insert(chunk_index, chunk);
        proof {
            assert forall|i: int| 0 <= i < NUM_CHUNKS implies (#[trigger] self.chunks@[i]).wf() by {
                if i != chunk_index {
                    assert(self.chunks@[i] == before.chunks@[i]);
                }
            }
            assert forall|q: BlockPos| #[trigger] self.block_at(q) == if q == pos && before.holds(pos) {
                block
            } else {
                before.block_at(q)
            } by {
                if self.holds(q) {
                    let k = self.slot_of(q.x, q.z);
                    self.lemma_in_range(q);
                    if k != chunk_index as int {
                        assert(self.chunks@[k] == before.chunks@[k]);
                    } else if q != pos {
                        let lq = self.local(q);
                        if q.y / 16 == pos.y / 16 && cell_index(lq.x as u32, (q.y % 16) as u32, lq.z as u32)
                            == cell_index(l.x as u32, (pos.y % 16) as u32, l.z as u32) {
                            self.lemma_cell_injective(pos, q);
                        }
                    }
                }
            }
            assert forall|q: BlockPos| #[trigger] self.entity_at(q) == before.entity_at(q) by {
                if self.contains(q.x, q.z) {
                    let k = self.slot_of(q.x, q.z);
                    self.lemma_in_range(q);
                    if k != chunk_index as int {
                        assert(self.chunks@[k] == before.chunks@[k]);
                    }
                }
            }
        }
        changed
    }

    /// Where `q` lies in the plot, its chunk index and its place in the chunk are in range.
    proof fn lemma_in_range(&self, q: BlockPos)
        requires
            self.contains(q.x, q.z),
        ensures
            0 <= self.slot_of(q.x, q.z) < NUM_CHUNKS,
            0 <= self.local(q).x < 16,
            0 <= self.local(q).z < 16,
            (self.local(q).x as u32) % 16 == self.local(q).x as u32,
            (self.local(q).z as u32) % 16 == self.local(q).z as u32,
    {
        lemma_split(Self::offset(self.x, q.x));
        lemma_split(Self::offset(self.z, q.z));
    }

    /// The block entity at `pos`, if any; none outside the plot.
    pub fn get_block_entity(&self, pos: BlockPos) -> (r: Option<&BlockEntity>)
        requires
            self.wf(),
        ensures
            match r {
                Some(e) => self.entity_at(pos) == Some(e.view()),
                None => self.entity_at(pos) is None,
            },
    {
        let chunk_index = match self.get_chunk_index_for_block(pos.x, pos.z) {
            Some(idx) => idx,
            None => return None,
        };
        let l = self.local_pos(pos);
        self.chunks[chunk_index].get_block_entity(l)
    }

    /// Stores `block_entity` at `pos`; outside the plot nothing changes.
    pub fn set_block_entity(&mut self, pos: BlockPos, block_entity: BlockEntity)
        requires
            old(self).wf(),
        ensures
            final(self).wf(),
            final(self).plot_x() == old(self).plot_x(),
            final(self).plot_z() == old(self).plot_z(),
            final(self).ticks() == old(self).ticks(),
            forall|q: BlockPos| #[trigger] final(self).block_at(q) == old(self).block_at(q),
            old(self).contains(pos.x, pos.z) ==> final(self).entity_at(pos) == Some(block_entity.view()),
            forall|q: BlockPos| q != pos ==> #[trigger] final(self).entity_at(q) == old(self).entity_at(q),
            !old(self).contains(pos.x, pos.z) ==> forall|q: BlockPos| #[trigger] final(self).entity_at(q) == old(self).entity_at(q),
    {
        let chunk_index = match self.get_chunk_index_for_block(pos.x, pos.z) {
            Some(idx) => idx,
            None => return,
        };
        let l = self.local_pos(pos);
        let ghost before = *self;
        let mut chunk = self.chunks.remove(chunk_index);
        chunk.set_block_entity(l, block_entity);
        self.chunks.insert(chunk_index, chunk);
        proof {
            self.lemma_other_chunks(before, chunk_index as int, pos);
        }
    }

    /// Removes the block entity at `pos`, if any; outside the plot nothing changes.
    pub fn delete_block_entity(&mut self, pos: BlockPos)
        requires
            old(self).wf(),
        ensures
            final(self).wf(),
            final(self).plot_x() == old(self).plot_x(),
            final(self).plot_z() == old(self).plot_z(),
            final(self).ticks() == old(self).ticks(),
            forall|q: BlockPos| #[trigger] final(self).block_at(q) == old(self).block_at(q),
            final(self).entity_at(pos) is None,
            forall|q: BlockPos| q != pos ==> #[trigger] final(self).entity_at(q) == old(self).entity_at(q),
    {
        let chunk_index = match self.get_chunk_index_for_block(pos.x, pos.z) {
            Some(idx) => idx,
            None => return,
        };
        let l = self.local_pos(pos);
        let ghost before = *self;
        let mut chunk = self.chunks.remove(chunk_index);
        chunk.delete_block_entity(l);
        self.chunks.insert(chunk_index, chunk);
        proof {
            self.lemma_other_chunks(before, chunk_index as int, pos);
        }
    }

    /// After a change of block entities at `pos` in chunk `k` alone, the blocks
    /// stay and every other position keeps its block entity.
    proof fn lemma_other_chunks(&self, before: PlotWorld, k: int, pos: BlockPos)
        requires
            before.wf(),
            before.contains(pos.x, pos.z),
            k == before.slot_of(pos.x, pos.z),
            self.x == before.x,
            self.z == before.z,
            self.chunks@.len() == NUM_CHUNKS,
            forall|i: int| 0 <= i < NUM_CHUNKS && i != k ==> self.chunks@[i] == before.chunks@[i],
            self.chunks@[k].wf(),
            self.chunks@[k].view() == before.chunks@[k].view(),
            forall|q: BlockPos| q != before.local(pos) ==> #[trigger] self.chunks@[k].entity(q) == before.chunks@[k].entity(q),
        ensures
            self.wf(),
            forall|q: BlockPos| #[trigger] self.block_at(q) == before.block_at(q),
            forall|q: BlockPos| q != pos ==> #[trigger] self.entity_at(q) == before.entity_at(q),
    {
        assert forall|i: int| 0 <= i < NUM_CHUNKS implies (#[trigger] self.chunks@[i]).wf() by {
            if i != k {
                assert(self.chunks@[i] == before.chunks@[i]);
            }
        }
        assert forall|q: BlockPos| #[trigger] self.block_at(q) == before.block_at(q) by {
            if self.holds(q) {
                self.lemma_in_range(q);
                let j = self.slot_of(q.x, q.z);
                if j != k {
                    assert(self.chunks@[j] == before.chunks@[j]);
                }
            }
        }
        assert forall|q: BlockPos| q != pos implies #[trigger] self.entity_at(q) == before.entity_at(q) by {
            if self.contains(q.x, q.z) {
                self.lemma_in_range(q);
                let j = self.slot_of(q.x, q.z);
                if j != k {
                    assert(self.chunks@[j] == before.chunks@[j]);
                } else if self.local(q) == before.local(pos) {
                    lemma_split(Self::offset(self.x, q.x));
                    lemma_split(Self::offset(self.z, q.z));
                    lemma_split(Self::offset(self.x, pos.x));
                    lemma_split(Self::offset(self.z, pos.z));
                }
            }
        }
    }

    /// The chunk at chunk coordinates `(x, z)`, or `None` outside the plot.
    pub fn get_chunk(&self, x: i32, z: i32) -> (r: Option<&Chunk>)
        requires
            self.wf(),
        ensures
            match r {
                Some(c) => {
                    &&& 0 <= x - self.plot_x() * PLOT_WIDTH < PLOT_WIDTH
                    &&& 0 <= z - self.plot_z() * PLOT_WIDTH < PLOT_WIDTH
                    &&& *c == self.chunk(chunk_slot(x - self.plot_x() * PLOT_WIDTH, z - self.plot_z() * PLOT_WIDTH))
                },
                None => !(0 <= x - self.plot_x() * PLOT_WIDTH < PLOT_WIDTH && 0 <= z - self.plot_z() * PLOT_WIDTH
                    < PLOT_WIDTH),
            },
    {
        match self.get_chunk_index_for_chunk(x, z) {
            Some(i) => Some(&self.chunks[i]),
            None => None,
        }
    }

    /// The chunk data packet of the chunk at chunk coordinates `(x, z)`, or
    /// `None` outside the plot. The chunk's sections are flushed on the way;
    /// no block or block entity changes.
    pub fn chunk_packet(&mut self, x: i32, z: i32, heightmaps: Vec<u8>) -> (r: Option<CChunkData>)
        requires
            old(self).wf(),
        ensures
            final(self).wf(),
            final(self).plot_x() == old(self).plot_x(),
            final(self).plot_z() == old(self).plot_z(),
            final(self).ticks() == old(self).ticks(),
            forall|q: BlockPos| #[trigger] final(self).block_at(q) == old(self).block_at(q),
            forall|q: BlockPos| #[trigger] final(self).entity_at(q) == old(self).entity_at(q),
            r is Some <==> (0 <= x - old(self).plot_x() * PLOT_WIDTH < PLOT_WIDTH && 0 <= z
                - old(self).plot_z() * PLOT_WIDTH < PLOT_WIDTH),
            r matches Some(p) ==> {
                let c = old(self).chunk(chunk_slot(x - old(self).plot_x() * PLOT_WIDTH, z - old(self).plot_z() * PLOT_WIDTH));
                &&& p.chunk_x == c.chunk_x()
                &&& p.chunk_z == c.chunk_z()
                &&& p.heightmaps@ == heightmaps@
                &&& p.well_formed()
                &&& p.chunk_sections@.len() == SECTIONS
                &&& forall|i: int| 0 <= i < SECTIONS ==> {
                    let s = #[trigger] p.chunk_sections@[i];
                    &&& s.block_count as int == count_nonzero(c.view()[i])
                    &&& container_holds(s.block_states, c.view()[i])
                }
            },
    {
        let idx = match self.get_chunk_index_for_chunk(x, z) {
            Some(i) => i,
            None => return None,
        };
        let ghost before = *self;
        let mut chunk = self.chunks.remove(idx);
        let packet = chunk.to_packet(heightmaps);
        self.chunks.insert(idx, chunk);
        proof {
            assert forall|i: int| 0 <= i < NUM_CHUNKS implies (#[trigger] self.chunks@[i]).wf() by {
                if i != idx {
                    assert(self.chunks@[i] == before.chunks@[i]);
                }
            }
            assert forall|q: BlockPos| #[trigger] self.block_at(q) == before.block_at(q) by {
                if self.holds(q) {
                    self.lemma_in_range(q);
                    let j = self.slot_of(q.x, q.z);
                    if j != idx {
                        assert(self.chunks@[j] == before.chunks@[j]);
                    }
                }
            }
            assert forall|q: BlockPos| #[trigger] self.entity_at(q) == before.entity_at(q) by {
                if self.contains(q.x, q.z) {
                    self.lemma_in_range(q);
                    let j = self.slot_of(q.x, q.z);
                    if j != idx {
                        assert(self.chunks@[j] == before.chunks@[j]);
                    }
                }
            }
        }
        Some(packet)
    }

    /// Appends a pending update at `pos`; earlier ones at the same position stay.
    pub fn schedule_tick(&mut self, pos: BlockPos, delay: u32, priority: TickPriority)
        ensures
            final(self).ticks() == old(self).ticks().push(
                TickEntry { pos, ticks_left: delay, tick_priority: priority },
            ),
            final(self).plot_x() == old(self).plot_x(),
            final(self).plot_z() == old(self).plot_z(),
            forall|q: BlockPos| #[trigger] final(self).block_at(q) == old(self).block_at(q),
            forall|q: BlockPos| #[trigger] final(self).entity_at(q) == old(self).entity_at(q),
            old(self).wf() ==> final(self).wf(),
    {
        self.to_be_ticked.push(TickEntry { pos, ticks_left: delay, tick_priority: priority });
    }

    /// Whether an update is pending at `pos`.
    pub fn pending_tick_at(&self, pos: BlockPos) -> (r: bool)
        ensures
            r == exists|i: int| 0 <= i < self.ticks().len() && (#[trigger] self.ticks()[i]).pos == pos,
    {
        let mut i: usize = 0;
        while i < self.to_be_ticked.len()
            invariant
                i <= self.to_be_ticked@.len(),
                forall|j: int| 0 <= j < i ==> (#[trigger] self.to_be_ticked@[j]).pos != pos,
            decreases self.to_be_ticked@.len() - i,
        {
            if self.to_be_ticked[i].pos == pos {
                return true;
            }
            i = i + 1;
        }
        false
    }

    /// Whether the plot is cursed: never, here.
    pub fn is_cursed(&self) -> (r: bool)
        ensures
            !r,
    {
        false
    }
}

/// How fast a plot runs: a number of ticks a second, or as fast as it can.
#[derive(PartialEq, Eq, Structural, Clone, Copy, Debug)]
pub enum Tps {
    Limited(u32),
    Unlimited,
}

/// The pause between two ticks, in microseconds: a second over the rate above
/// ten ticks a second, 50 ms at ten or fewer, none when unlimited.
pub fn sleep_time_for_tps(tps: Tps) -> (r: u64)
    ensures
        r == match tps {
            Tps::Limited(t) => if t > 10 {
                (1_000_000int / t as int) as u64
            } else {
                50_000u64
            },
            Tps::Unlimited => 0u64,
        },
{
    match tps {
        Tps::Limited(tps) => {
            if tps > 10 {
                1_000_000 / tps as u64
            } else {
                50_000
            }
        },
        Tps::Unlimited => 0,
    }
}

} // verus!
