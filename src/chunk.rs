use crate::clientbound::{CChunkData, CChunkDataBlockEntity, CChunkDataSection, PalettedContainer};
use crate::palette::{shape_after, GLOBAL_IDS};
use crate::section::{
    cell_index, container_holds, count_nonzero, lemma_count_bound, lemma_save_load_round_trip,
    loadable_section, saves_as, stored_cells, zeros, ChunkSection, ChunkSectionData, BLOCK_DIRECT_THRESHOLD,
    SECTION_CELLS,
};
use vstd::prelude::*;

verus! {

/// The number of sections stacked in a chunk.
pub const SECTIONS: usize = 16;

/// The height of a chunk, in blocks.
pub const CHUNK_HEIGHT: u32 = 256;

/// A block position.
#[derive(PartialEq, Eq, Structural, Clone, Copy, Debug, Hash)]
pub struct BlockPos {
    pub x: i32,
    pub y: i32,
    pub z: i32,
}

impl BlockPos {
    /// The position `(x, y, z)`.
    pub fn new(x: i32, y: i32, z: i32) -> (r: BlockPos)
        ensures
            r == (BlockPos { x, y, z }),
    {
        BlockPos { x, y, z }
    }
}

/// The data of a block entity: its type id and the NBT encoding of its fields.
#[derive(Clone, Debug, PartialEq, Eq)]
pub struct BlockEntity {
    pub ty: i32,
    pub data: Vec<u8>,
}

impl BlockEntity {
    /// The type id and the bytes of the data.
    pub open spec fn view(&self) -> (i32, Seq<u8>) {
        (self.ty, self.data@)
    }

    /// A copy of the block entity.
    pub fn duplicate(&self) -> (r: BlockEntity)
        ensures
            r.view() == self.view(),
    {
        let data = self.data.clone();
        assert(data@ =~= self.data@);
        BlockEntity { ty: self.ty, data }
    }
}

/// The block entity stored at `pos` in a list of positions and entities.
pub open spec fn lookup(s: Seq<(BlockPos, BlockEntity)>, pos: BlockPos) -> Option<(i32, Seq<u8>)>
    decreases s.len(),
{
    if s.len() == 0 {
        None
    } else if s.last().0 == pos {
        Some(s.last().1.view())
    } else {
        lookup(s.drop_last(), pos)
    }
}

/// Whether no position appears twice in `s`.
pub open spec fn unique_positions(s: Seq<(BlockPos, BlockEntity)>) -> bool {
    forall|i: int, j: int| 0 <= i < j < s.len() ==> #[trigger] s[i].0 != #[trigger] s[j].0
}

/// Whether some entry of `s` is at `p`.
pub open spec fn holds_pos(s: Seq<(BlockPos, BlockEntity)>, p: BlockPos) -> bool {
    exists|i: int| 0 <= i < s.len() && s[i].0 == p
}

/// A position that no entry has has no block entity.
proof fn lemma_lookup_absent(s: Seq<(BlockPos, BlockEntity)>, pos: BlockPos)
    requires
        forall|i: int| 0 <= i < s.len() ==> s[i].0 != pos,
    ensures
        lookup(s, pos) is None,
    decreases s.len(),
{
    if s.len() > 0 {
        lemma_lookup_absent(s.drop_last(), pos);
    }
}

/// With unique positions, the entry at `i` is what its position looks up.
proof fn lemma_lookup_at(s: Seq<(BlockPos, BlockEntity)>, i: int)
    requires
        unique_positions(s),
        0 <= i < s.len(),
    ensures
        lookup(s, s[i].0) == Some(s[i].1.view()),
    decreases s.len(),
{
    if i != s.len() - 1 {
        assert(s[i].0 != s[s.len() - 1].0);
        lemma_lookup_at(s.drop_last(), i);
    }
}

/// Two lists with unique positions that agree on every position but `pos` look up alike there.
proof fn lemma_lookup_other(
    s: Seq<(BlockPos, BlockEntity)>,
    t: Seq<(BlockPos, BlockEntity)>,
    pos: BlockPos,
    q: BlockPos,
)
    requires
        q != pos,
        forall|p: BlockPos| p != pos ==> (#[trigger] holds_pos(s, p) <==> holds_pos(t, p)),
        forall|i: int, j: int|
            0 <= i < s.len() && 0 <= j < t.len() && s[i].0 == t[j].0 && s[i].0 != pos
                ==> s[i].1.view() == t[j].1.view(),
        unique_positions(s),
        unique_positions(t),
    ensures
        lookup(t, q) == lookup(s, q),
{
    if holds_pos(s, q) {
        assert(holds_pos(t, q));
        let i = choose|i: int| 0 <= i < s.len() && s[i].0 == q;
        let j = choose|j: int| 0 <= j < t.len() && t[j].0 == q;
        lemma_lookup_at(s, i);
        lemma_lookup_at(t, j);
    } else {
        assert(!holds_pos(t, q));
        lemma_lookup_absent(s, q);
        lemma_lookup_absent(t, q);
    }
}

/// Two lists with the same positions and block entities, entry by entry, look up alike.
proof fn lemma_lookup_same(s: Seq<(BlockPos, BlockEntity)>, t: Seq<(BlockPos, BlockEntity)>)
    requires
        s.len() == t.len(),
        forall|j: int| 0 <= j < s.len() ==> (#[trigger] t[j]).0 == s[j].0 && t[j].1.view() == s[j].1.view(),
    ensures
        forall|p: BlockPos| lookup(t, p) == lookup(s, p),
        unique_positions(s) ==> unique_positions(t),
    decreases s.len(),
{
    if s.len() > 0 {
        lemma_lookup_same(s.drop_last(), t.drop_last());
        assert(t.last().0 == s.last().0 && t.last().1.view() == s.last().1.view());
        assert forall|p: BlockPos| lookup(t, p) == lookup(s, p) by {
            assert(lookup(t.drop_last(), p) == lookup(s.drop_last(), p));
        }
    }
    if unique_positions(s) {
        assert forall|a: int, b: int| 0 <= a < b < t.len() implies #[trigger] t[a].0 != #[trigger] t[b].0 by {
            assert(s[a].0 != s[b].0);
        }
    }
}

/// A persisted chunk: its sections, bottom first, each absent where empty,
/// and its block entities.
pub struct ChunkData {
    pub sections: Vec<Option<ChunkSectionData>>,
    pub block_entities: Vec<(BlockPos, BlockEntity)>,
}

impl ChunkData {
    /// Whether every section can be loaded and no position has two block entities.
    pub open spec fn valid(&self) -> bool {
        &&& self.sections@.len() == SECTIONS
        &&& forall|i: int| 0 <= i < SECTIONS ==> loadable_section(#[trigger] self.sections@[i])
        &&& unique_positions(self.block_entities@)
    }

    /// Whether every section can be loaded and no position has two block entities.
    pub fn is_valid(&self) -> (r: bool)
        ensures
            r == self.valid(),
    {
        if self.sections.len() != SECTIONS {
            return false;
        }
        let mut i: usize = 0;
        while i < SECTIONS
            invariant
                self.sections@.len() == SECTIONS,
                i <= SECTIONS,
                forall|j: int| 0 <= j < i ==> loadable_section(#[trigger] self.sections@[j]),
            decreases SECTIONS - i,
        {
            match &self.sections[i] {
                Some(d) => {
                    if !d.is_valid() {
                        assert(!loadable_section(self.sections@[i as int]));
                        return false;
                    }
                },
                None => {},
            }
            i = i + 1;
        }
        let n = self.block_entities.len();
        let mut a: usize = 0;
        while a < n
            invariant
                n == self.block_entities@.len(),
                a <= n,
                forall|x: int, y: int| 0 <= x < y < n && x < a ==> #[trigger] self.block_entities@[x].0
                    != #[trigger] self.block_entities@[y].0,
            decreases n - a,
        {
            let mut b: usize = a + 1;
            while b < n
                invariant
                    n == self.block_entities@.len(),
                    a < n,
                    a + 1 <= b <= n,
                    forall|x: int, y: int| 0 <= x < y < n && x < a ==> #[trigger] self.block_entities@[x].0
                        != #[trigger] self.block_entities@[y].0,
                    forall|y: int| a < y < b ==> self.block_entities@[a as int].0 != #[trigger] self.block_entities@[y].0,
                decreases n - b,
            {
                if self.block_entities[a].0 == self.block_entities[b].0 {
                    return false;
                }
                b = b + 1;
            }
            a = a + 1;
        }
        true
    }
}

/// Loading what a chunk saved gives back every section's cells: each stored
/// section, present or absent, loads to the cells it was saved from.
pub proof fn lemma_chunk_round_trip(saved: Seq<Option<ChunkSectionData>>, cells: Seq<Seq<u32>>)
    requires
        saved.len() == SECTIONS,
        cells.len() == SECTIONS,
        forall|i: int| 0 <= i < SECTIONS ==> saves_as(#[trigger] saved[i], cells[i]),
    ensures
        forall|i: int| 0 <= i < SECTIONS ==> loadable_section(#[trigger] saved[i]),
        forall|i: int| 0 <= i < SECTIONS ==> #[trigger] stored_cells(saved[i]) == cells[i],
{
    assert forall|i: int| 0 <= i < SECTIONS implies loadable_section(#[trigger] saved[i])
        && stored_cells(saved[i]) == cells[i] by {
        lemma_save_load_round_trip(saved[i], cells[i]);
    }
}

/// A column of sixteen sections, 256 blocks high, with its block entities.
pub struct Chunk {
    pub(crate) sections: Vec<ChunkSection>,
    pub x: i32,
    pub z: i32,
    pub(crate) block_entities: Vec<(BlockPos, BlockEntity)>,
}

impl Chunk {
    /// Sixteen well-formed sections and no position with two block entities.
    pub open(crate) spec fn wf(&self) -> bool {
        &&& self.sections@.len() == SECTIONS
        &&& forall|i: int| 0 <= i < SECTIONS ==> (#[trigger] self.sections@[i]).wf()
        &&& unique_positions(self.block_entities@)
    }

    /// The cells of each section, bottom first.
    pub open(crate) spec fn view(&self) -> Seq<Seq<u32>> {
        Seq::new(SECTIONS as nat, |i: int| self.sections@[i].view())
    }

    /// The value of the block at `(x, y, z)`, `x` and `z` taken in the chunk
    /// (their low four bits): empty above the top.
    pub open(crate) spec fn block(&self, x: u32, y: u32, z: u32) -> u32 {
        if y < CHUNK_HEIGHT {
            self.view()[(y / 16) as int][cell_index(x % 16, y % 16, z % 16)]
        } else {
            0
        }
    }

    /// The section at height index `i`.
    pub open(crate) spec fn section(&self, i: int) -> ChunkSection {
        self.sections@[i]
    }

    /// The chunk's `x`, in chunks.
    pub open(crate) spec fn chunk_x(&self) -> i32 {
        self.x
    }

    /// The chunk's `z`, in chunks.
    pub open(crate) spec fn chunk_z(&self) -> i32 {
        self.z
    }

    /// The block entities with their positions, in the order they were first set.
    pub open(crate) spec fn entity_list(&self) -> Seq<(BlockPos, BlockEntity)> {
        self.block_entities@
    }

    /// The block entity at `pos`.
    pub open(crate) spec fn entity(&self, pos: BlockPos) -> Option<(i32, Seq<u8>)> {
        lookup(self.block_entities@, pos)
    }

    /// An empty chunk at `(x, z)`.
    pub fn empty(x: i32, z: i32) -> (r: Chunk)
        ensures
            r.wf(),
            r.chunk_x() == x,
            r.chunk_z() == z,
            forall|i: int| 0 <= i < SECTIONS ==> #[trigger] r.view()[i] == zeros(SECTION_CELLS as nat),
            forall|p: BlockPos| r.entity(p) is None,
    {
        let mut sections: Vec<ChunkSection> = Vec::new();
        let mut i: usize = 0;
        while i < SECTIONS
            invariant
                i <= SECTIONS,
                sections@.len() == i,
                forall|j: int| 0 <= j < i ==> (#[trigger] sections@[j]).wf() && sections@[j].view()
                    == zeros(SECTION_CELLS as nat),
            decreases SECTIONS - i,
        {
            sections.push(ChunkSection::new());
            i = i + 1;
        }
        Chunk { sections, x, z, block_entities: Vec::new() }
    }

    /// Sets the block at `(x, y, z)`, `x` and `z` taken in the chunk (their low
    /// four bits); above the top nothing changes. Returns whether the block changed.
    pub fn set_block(&mut self, x: u32, y: u32, z: u32, block_id: u32) -> (r: bool)
        requires
            old(self).wf(),
            block_id < GLOBAL_IDS,
        ensures
            final(self).wf(),
            final(self).chunk_x() == old(self).chunk_x(),
            final(self).chunk_z() == old(self).chunk_z(),
            forall|p: BlockPos| final(self).entity(p) == old(self).entity(p),
            y < CHUNK_HEIGHT ==> final(self).view() == old(self).view().update(
                (y / 16) as int,
                old(self).view()[(y / 16) as int].update(cell_index(x % 16, y % 16, z % 16), block_id),
            ),
            y >= CHUNK_HEIGHT ==> final(self).view() == old(self).view(),
            r == (y < CHUNK_HEIGHT && old(self).block(x, y, z) != block_id),
    {
        let section_y = (y >> 4) as usize;
        assert(y >> 4 == y / 16) by (bit_vector);
        if section_y >= SECTIONS {
            return false;
        }
        let ghost before = self.view();
        assert(y & 0xF == y % 16) by (bit_vector);
        assert(x & 0xF == x % 16) by (bit_vector);
        assert(z & 0xF == z % 16) by (bit_vector);
        let mut section = self.sections.remove(section_y);
        let changed = section.set_block(x & 0xF, y & 0xF, z & 0xF, block_id);
        self.sections.insert(section_y, section);
        proof {
            assert(self.view() =~= before.update(
                section_y as int,
                before[section_y as int].update(cell_index(x % 16, y % 16, z % 16), block_id),
            ));
        }
        changed
    }

    /// The block at `(x, y, z)`, `x` and `z` taken in the chunk (their low four
    /// bits): empty above the top.
    pub fn get_block(&self, x: u32, y: u32, z: u32) -> (r: u32)
        requires
            self.wf(),
        ensures
            r == self.block(x, y, z),
    {
        let section_y = (y / 16) as usize;
        if section_y >= SECTIONS {
            return 0;
        }
        assert(y & 0xF == y % 16) by (bit_vector);
        assert(x & 0xF == x % 16) by (bit_vector);
        assert(z & 0xF == z % 16) by (bit_vector);
        self.sections[section_y].get_block(x & 0xF, y & 0xF, z & 0xF)
    }

    /// The position of the entry for `pos` among the block entities.
    fn block_entity_index(&self, pos: BlockPos) -> (r: Option<usize>)
        ensures
            match r {
                Some(i) => i < self.block_entities@.len() && self.block_entities@[i as int].0 == pos,
                None => forall|i: int|
                    0 <= i < self.block_entities@.len() ==> self.block_entities@[i].0 != pos,
            },
    {
        let mut i: usize = 0;
        while i < self.block_entities.len()
            invariant
                i <= self.block_entities@.len(),
                forall|j: int| 0 <= j < i ==> self.block_entities@[j].0 != pos,
            decreases self.block_entities@.len() - i,
        {
            if self.block_entities[i].0 == pos {
                return Some(i);
            }
            i = i + 1;
        }
        None
    }

    /// The block entity at `pos`, if any.
    pub fn get_block_entity(&self, pos: BlockPos) -> (r: Option<&BlockEntity>)
        requires
            self.wf(),
        ensures
            match r {
                Some(e) => self.entity(pos) == Some(e.view()),
                None => self.entity(pos) is None,
            },
    {
        match self.block_entity_index(pos) {
            Some(i) => {
                proof {
                    lemma_lookup_at(self.block_entities@, i as int);
                }
                Some(&self.block_entities[i].1)
            },
            None => {
                proof {
                    lemma_lookup_absent(self.block_entities@, pos);
                }
                None
            },
        }
    }

    /// Removes the block entity at `pos`, if any; the others stay.
    pub fn delete_block_entity(&mut self, pos: BlockPos)
        requires
            old(self).wf(),
        ensures
            final(self).wf(),
            final(self).view() == old(self).view(),
            final(self).entity(pos) is None,
            forall|q: BlockPos| q != pos ==> final(self).entity(q) == old(self).entity(q),
    {
        let ghost s = self.block_entities@;
        match self.block_entity_index(pos) {
            Some(i) => {
                self.block_entities.remove(i);
                proof {
                    let t = self.block_entities@;
                    assert(t =~= s.remove(i as int));
                    assert forall|a: int, b: int| 0 <= a < b < t.len() implies #[trigger] t[a].0
                        != #[trigger] t[b].0 by {
                        let a0 = if a < i { a } else { a + 1 };
                        let b0 = if b < i { b } else { b + 1 };
                        assert(s[a0].0 != s[b0].0);
                    }
                    assert forall|j: int| 0 <= j < t.len() implies t[j].0 != pos by {
                        let j0 = if j < i { j } else { j + 1 };
                        assert(s[j0].0 != s[i as int].0);
                    }
                    lemma_lookup_absent(t, pos);
                    assert forall|q: BlockPos| q != pos implies lookup(t, q) == lookup(s, q) by {
                        assert forall|p: BlockPos| p != pos implies (#[trigger] holds_pos(s, p) <==> holds_pos(t, p)) by {
                            if exists|k: int| 0 <= k < s.len() && s[k].0 == p {
                                let k = choose|k: int| 0 <= k < s.len() && s[k].0 == p;
                                assert(k != i);
                                let k1 = if k < i { k } else { k - 1 };
                                assert(t[k1].0 == p);
                            }
                            if exists|k: int| 0 <= k < t.len() && t[k].0 == p {
                                let k = choose|k: int| 0 <= k < t.len() && t[k].0 == p;
                                let k0 = if k < i { k } else { k + 1 };
                                assert(s[k0].0 == p);
                            }
                        }
                        assert forall|a: int, b: int|
                            0 <= a < s.len() && 0 <= b < t.len() && s[a].0 == t[b].0 && s[a].0 != pos
                            implies s[a].1.view() == t[b].1.view() by {
                            let b0 = if b < i { b } else { b + 1 };
                            assert(s[b0] == t[b]);
                            if a != b0 {
                                assert(s[a].0 != s[b0].0);
                            }
                        }
                        lemma_lookup_other(s, t, pos, q);
                    }
                }
            },
            None => {
                proof {
                    lemma_lookup_absent(s, pos);
                }
            },
        }
    }

    /// Stores `block_entity` at `pos`, in place of any there before; the others stay.
    pub fn set_block_entity(&mut self, pos: BlockPos, block_entity: BlockEntity)
        requires
            old(self).wf(),
        ensures
            final(self).wf(),
            final(self).view() == old(self).view(),
            final(self).entity(pos) == Some(block_entity.view()),
            forall|q: BlockPos| q != pos ==> final(self).entity(q) == old(self).entity(q),
    {
        let ghost s = self.block_entities@;
        match self.block_entity_index(pos) {
            Some(i) => {
                self.block_entities.set(i, (pos, block_entity));
                proof {
                    let t = self.block_entities@;
                    assert forall|a: int, b: int| 0 <= a < b < t.len() implies #[trigger] t[a].0
                        != #[trigger] t[b].0 by {
                        assert(s[a].0 != s[b].0);
                    }
                    lemma_lookup_at(t, i as int);
                    assert forall|q: BlockPos| q != pos implies lookup(t, q) == lookup(s, q) by {
                        assert forall|p: BlockPos| p != pos implies (#[trigger] holds_pos(s, p) <==> holds_pos(t, p)) by {
                            if exists|k: int| 0 <= k < s.len() && s[k].0 == p {
                                let k = choose|k: int| 0 <= k < s.len() && s[k].0 == p;
                                assert(t[k].0 == p);
                            }
                            if exists|k: int| 0 <= k < t.len() && t[k].0 == p {
                                let k = choose|k: int| 0 <= k < t.len() && t[k].0 == p;
                                assert(s[k].0 == p);
                            }
                        }
                        assert forall|a: int, b: int|
                            0 <= a < s.len() && 0 <= b < t.len() && s[a].0 == t[b].0 && s[a].0 != pos
                            implies s[a].1.view() == t[b].1.view() by {
                            if a != b {
                                assert(s[a].0 != s[b].0);
                            }
                        }
                        lemma_lookup_other(s, t, pos, q);
                    }
                }
            },
            None => {
                self.block_entities.push((pos, block_entity));
                proof {
                    let t = self.block_entities@;
                    assert(t.drop_last() =~= s);
                }
            },
        }
    }

    /// Flushes and stores every section, bottom first, and the block entities.
    pub fn save(&mut self) -> (r: ChunkData)
        requires
            old(self).wf(),
        ensures
            final(self).wf(),
            final(self).view() == old(self).view(),
            forall|p: BlockPos| final(self).entity(p) == old(self).entity(p),
            r.valid(),
            forall|i: int| 0 <= i < SECTIONS ==> saves_as(#[trigger] r.sections@[i], old(self).view()[i]),
            forall|p: BlockPos| lookup(r.block_entities@, p) == old(self).entity(p),
            forall|i: int| 0 <= i < SECTIONS && old(self).section(i).only_air() ==> #[trigger] r.sections@[i]
                is None,
    {
        let ghost before = self.view();
        let ghost start = self.sections@;
        let mut sections: Vec<Option<ChunkSectionData>> = Vec::new();
        let mut i: usize = 0;
        while i < SECTIONS
            invariant
                self.wf(),
                self.view() == before,
                self.block_entities == old(self).block_entities,
                i <= SECTIONS,
                sections@.len() == i,
                forall|j: int| 0 <= j < i ==> saves_as(#[trigger] sections@[j], before[j]),
                start == old(self).sections@,
                forall|j: int| 0 <= j < i && start[j].only_air() ==> #[trigger] sections@[j] is None,
                forall|j: int| i <= j < SECTIONS ==> #[trigger] self.sections@[j] == start[j],
            decreases SECTIONS - i,
        {
            let mut section = self.sections.remove(i);
            let saved = section.save();
            self.sections.insert(i, section);
            proof {
                assert(self.view() =~= before);
            }
            sections.push(saved);
            i = i + 1;
        }
        let mut block_entities: Vec<(BlockPos, BlockEntity)> = Vec::new();
        let mut k: usize = 0;
        while k < self.block_entities.len()
            invariant
                k <= self.block_entities@.len(),
                block_entities@.len() == k,
                forall|j: int| 0 <= j < k ==> (#[trigger] block_entities@[j]).0 == self.block_entities@[j].0
                    && block_entities@[j].1.view() == self.block_entities@[j].1.view(),
            decreases self.block_entities@.len() - k,
        {
            let pos = self.block_entities[k].0;
            let e = self.block_entities[k].1.duplicate();
            block_entities.push((pos, e));
            k = k + 1;
        }
        proof {
            lemma_lookup_same(self.block_entities@, block_entities@);
        }
        let r = ChunkData { sections, block_entities };
        proof {
            lemma_chunk_round_trip(r.sections@, before);
        }
        r
    }

    /// The chunk at `(x, z)` from its stored form.
    pub fn load(x: i32, z: i32, chunk_data: ChunkData) -> (r: Chunk)
        requires
            chunk_data.valid(),
        ensures
            r.wf(),
            r.chunk_x() == x,
            r.chunk_z() == z,
            forall|i: int| 0 <= i < SECTIONS ==> #[trigger] r.view()[i] == stored_cells(chunk_data.sections@[i]),
            forall|p: BlockPos| r.entity(p) == lookup(chunk_data.block_entities@, p),
            forall|i: int| 0 <= i < SECTIONS && chunk_data.sections@[i] is None ==> (#[trigger] r.section(
                i,
            )).only_air(),
    {
        let ChunkData { sections: stored, block_entities } = chunk_data;
        let ghost stored_view = stored@;
        let mut stored = stored;
        let mut sections: Vec<ChunkSection> = Vec::new();
        let mut i: usize = 0;
        while i < SECTIONS
            invariant
                i <= SECTIONS,
                stored_view.len() == SECTIONS,
                forall|j: int| 0 <= j < SECTIONS ==> loadable_section(#[trigger] stored_view[j]),
                stored@ == stored_view.subrange(i as int, SECTIONS as int),
                sections@.len() == i,
                forall|j: int| 0 <= j < i ==> (#[trigger] sections@[j]).wf() && sections@[j].view()
                    == stored_cells(stored_view[j]) && (stored_view[j] is None ==> sections@[j].only_air()),
            decreases SECTIONS - i,
        {
            let data = stored.remove(0);
            assert(data == stored_view[i as int]);
            sections.push(ChunkSection::load(data));
            i = i + 1;
            assert(stored@ =~= stored_view.subrange(i as int, SECTIONS as int));
        }
        let r = Chunk { sections, x, z, block_entities };
        proof {
            assert forall|i: int| 0 <= i < SECTIONS implies #[trigger] r.view()[i] == stored_cells(stored_view[i]) by {}
        }
        r
    }

    /// Rebuilds every section's buffer from a fresh palette.
    pub fn compress(&mut self)
        requires
            old(self).wf(),
        ensures
            final(self).wf(),
            final(self).view() == old(self).view(),
            forall|p: BlockPos| final(self).entity(p) == old(self).entity(p),
            forall|i: int| 0 <= i < SECTIONS ==> {
                &&& (#[trigger] final(self).section(i)).overlay() == old(self).section(i).overlay()
                &&& final(self).section(i).backing().view() == old(self).section(i).backing().view()
                &&& final(self).section(i).backing().shape() == shape_after(
                    old(self).section(i).backing().view(),
                    BLOCK_DIRECT_THRESHOLD,
                )
            },
    {
        let ghost before = self.view();
        let ghost start = self.sections@;
        let mut i: usize = 0;
        while i < SECTIONS
            invariant
                self.wf(),
                self.view() == before,
                self.block_entities == old(self).block_entities,
                start == old(self).sections@,
                i <= SECTIONS,
                forall|j: int| i <= j < SECTIONS ==> #[trigger] self.sections@[j] == start[j],
                forall|j: int| 0 <= j < i ==> {
                    &&& (#[trigger] self.sections@[j]).overlay() == start[j].overlay()
                    &&& self.sections@[j].backing().view() == start[j].backing().view()
                    &&& self.sections@[j].backing().shape() == shape_after(
                        start[j].backing().view(),
                        BLOCK_DIRECT_THRESHOLD,
                    )
                },
            decreases SECTIONS - i,
        {
            let mut section = self.sections.remove(i);
            section.compress();
            self.sections.insert(i, section);
            proof {
                assert(self.view() =~= before);
            }
            i = i + 1;
        }
    }

    /// The chunk as a chunk data packet, after flushing every section: each
    /// section's count and block states, a single biome, and the block entities
    /// at their positions in the chunk. `heightmaps` is the NBT encoding of the
    /// heightmaps.
    pub fn to_packet(&mut self, heightmaps: Vec<u8>) -> (r: CChunkData)
        requires
            old(self).wf(),
        ensures
            final(self).wf(),
            final(self).view() == old(self).view(),
            forall|p: BlockPos| final(self).entity(p) == old(self).entity(p),
            r.chunk_x == old(self).chunk_x(),
            r.chunk_z == old(self).chunk_z(),
            r.heightmaps@ == heightmaps@,
            r.well_formed(),
            r.chunk_sections@.len() == SECTIONS,
            forall|i: int| 0 <= i < SECTIONS ==> {
                let s = #[trigger] r.chunk_sections@[i];
                &&& s.block_count as int == count_nonzero(old(self).view()[i])
                &&& container_holds(s.block_states, old(self).view()[i])
                &&& s.biomes.bits_per_entry == 0
                &&& s.biomes.palette matches Some(p) && p@ == seq![0i32]
                &&& s.biomes.data_array@.len() == 0
            },
            r.block_entities@.len() == old(self).entity_list().len(),
            forall|k: int| 0 <= k < r.block_entities@.len() ==> {
                let e = #[trigger] r.block_entities@[k];
                let (pos, be) = old(self).entity_list()[k];
                &&& e.x == pos.x as i8
                &&& e.y == pos.y as i16
                &&& e.z == pos.z as i8
                &&& (e.ty, e.data@) == be.view()
            },
    {
        let ghost before = self.view();
        let mut chunk_sections: Vec<CChunkDataSection> = Vec::new();
        let mut i: usize = 0;
        while i < SECTIONS
            invariant
                self.wf(),
                self.view() == before,
                self.block_entities == old(self).block_entities,
                self.x == old(self).x,
                self.z == old(self).z,
                i <= SECTIONS,
                chunk_sections@.len() == i,
                forall|j: int| 0 <= j < i ==> {
                    let s = #[trigger] chunk_sections@[j];
                    &&& s.block_count as int == count_nonzero(before[j])
                    &&& container_holds(s.block_states, before[j])
                    &&& s.biomes.bits_per_entry == 0
                    &&& s.biomes.palette matches Some(p) && p@ == seq![0i32]
                    &&& s.biomes.data_array@.len() == 0
                },
            decreases SECTIONS - i,
        {
            let mut section = self.sections.remove(i);
            let block_states = section.block_states();
            let count = section.block_count();
            proof {
                lemma_count_bound(section.view());
            }
            self.sections.insert(i, section);
            proof {
                assert(self.view() =~= before);
            }
            let mut biome: Vec<i32> = Vec::new();
            biome.push(0);
            proof {
                assert(biome@ =~= seq![0i32]);
            }
            chunk_sections.push(
                CChunkDataSection {
                    block_count: count as i16,
                    block_states,
                    biomes: PalettedContainer { bits_per_entry: 0, palette: Some(biome), data_array: Vec::new() },
                },
            );
            i = i + 1;
        }
        let mut block_entities: Vec<CChunkDataBlockEntity> = Vec::new();
        let mut k: usize = 0;
        while k < self.block_entities.len()
            invariant
                k <= self.block_entities@.len(),
                block_entities@.len() == k,
                forall|j: int| 0 <= j < k ==> {
                    let e = #[trigger] block_entities@[j];
                    let (pos, be) = self.block_entities@[j];
                    &&& e.x == pos.x as i8
                    &&& e.y == pos.y as i16
                    &&& e.z == pos.z as i8
                    &&& (e.ty, e.data@) == be.view()
                },
            decreases self.block_entities@.len() - k,
        {
            let pos = self.block_entities[k].0;
            let be = self.block_entities[k].1.duplicate();
            block_entities.push(
                CChunkDataBlockEntity {
                    x: pos.x as i8,
                    z: pos.z as i8,
                    y: pos.y as i16,
                    ty: be.ty,
                    data: be.data,
                },
            );
            k = k + 1;
        }
        CChunkData { chunk_x: self.x, chunk_z: self.z, heightmaps, chunk_sections, block_entities }
    }
}

} // verus!
