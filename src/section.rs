use crate::bit_buffer::{packed, BitBuffer};
use crate::palette::{distinct, shape_after, loadable, loaded_values, PalettedBitBuffer, DIRECT_BITS, GLOBAL_IDS};
use vstd::prelude::*;

verus! {

/// The number of cells in a section.
pub const SECTION_CELLS: usize = 4096;

/// The width at which a section's block states leave their palette.
pub const BLOCK_DIRECT_THRESHOLD: u64 = 9;

/// The number of non-zero values in `s`.
pub open spec fn count_nonzero(s: Seq<u32>) -> nat
    decreases s.len(),
{
    if s.len() == 0 {
        0
    } else {
        count_nonzero(s.drop_last()) + if s.last() != 0 {
            1nat
        } else {
            0nat
        }
    }
}

/// `n` zeros.
pub open spec fn zeros(n: nat) -> Seq<u32> {
    Seq::new(n, |i: int| 0u32)
}

/// No more cells are non-empty than there are cells.
pub proof fn lemma_count_bound(s: Seq<u32>)
    ensures
        count_nonzero(s) <= s.len(),
    decreases s.len(),
{
    if s.len() > 0 {
        lemma_count_bound(s.drop_last());
    }
}

/// Zeros have no non-empty cell.
pub proof fn lemma_count_zeros(n: nat)
    ensures
        count_nonzero(zeros(n)) == 0,
    decreases n,
{
    if n > 0 {
        lemma_count_zeros((n - 1) as nat);
        assert(zeros(n).drop_last() =~= zeros((n - 1) as nat));
    }
}

/// Writing one cell changes the count of non-empty cells by what that cell was and becomes.
pub proof fn lemma_count_update(s: Seq<u32>, i: int, v: u32)
    requires
        0 <= i < s.len(),
    ensures
        count_nonzero(s.update(i, v)) + (if s[i] != 0 {
            1int
        } else {
            0int
        }) == count_nonzero(s) + (if v != 0 {
            1int
        } else {
            0int
        }),
    decreases s.len(),
{
    let t = s.update(i, v);
    if i == s.len() - 1 {
        assert(t.drop_last() =~= s.drop_last());
    } else {
        lemma_count_update(s.drop_last(), i, v);
        assert(t.drop_last() =~= s.drop_last().update(i, v));
    }
}

/// The flat index of the cell at `(x, y, z)` of a section.
pub open spec fn cell_index(x: u32, y: u32, z: u32) -> int {
    y * 256 + z * 16 + x
}

/// A section as stored: the entry width, the palette (empty once direct), the
/// packed words, the count of non-empty cells and the number of entries.
#[derive(Clone, Debug)]
pub struct ChunkSectionData {
    pub data: Vec<u64>,
    pub palette: Vec<u32>,
    pub bits_per_block: u8,
    pub block_count: u32,
    pub entries: usize,
}

impl ChunkSectionData {
    /// The values that the record holds, cell by cell.
    pub open spec fn cells(&self) -> Seq<u32> {
        loaded_values(self.entries as int, self.bits_per_block as u64, self.data@, self.palette@)
    }

    /// Whether the record describes a section: its shape is consistent and its
    /// count is that of its non-zero cells.
    pub open spec fn valid(&self) -> bool {
        &&& self.entries == SECTION_CELLS
        &&& loadable(self.entries as int, self.bits_per_block as u64, self.data@, self.palette@)
        &&& forall|i: int| 0 <= i < self.entries ==> (#[trigger] self.cells()[i]) < GLOBAL_IDS
        &&& self.block_count == count_nonzero(self.cells())
    }
}

impl ChunkSectionData {
    /// Whether the record describes a section.
    pub fn is_valid(&self) -> (r: bool)
        ensures
            r == self.valid(),
    {
        if self.entries != SECTION_CELLS {
            return false;
        }
        let bits = self.bits_per_block;
        if bits < 1 || bits > DIRECT_BITS {
            return false;
        }
        let ghost b = bits as u64;
        proof {
            crate::bit_buffer::lemma_width(b);
        }
        let epl: usize = 64 / bits as usize;
        let needed: usize = (SECTION_CELLS + epl - 1) / epl;
        if self.data.len() != needed {
            return false;
        }
        let paletted = bits < DIRECT_BITS;
        if !paletted && self.palette.len() != 0 {
            return false;
        }
        if paletted {
            proof {
                crate::bit_buffer::lemma_shl_pow2(bits as u32);
            }
            if self.palette.len() < 1 || self.palette.len() > (1u32 << bits as u32) as usize {
                return false;
            }
            let mut k: usize = 0;
            while k < self.palette.len()
                invariant
                    bits == self.bits_per_block,
                    bits < DIRECT_BITS,
                    k <= self.palette@.len(),
                    forall|j: int| 0 <= j < k ==> (#[trigger] self.palette@[j]) < GLOBAL_IDS,
                    forall|a: int, c: int| 0 <= a < c < k ==> #[trigger] self.palette@[a] != #[trigger] self.palette@[c],
                decreases self.palette@.len() - k,
            {
                if self.palette[k] >= GLOBAL_IDS {
                    assert(self.palette@[k as int] >= GLOBAL_IDS);
                    return false;
                }
                let mut m: usize = 0;
                while m < k
                    invariant
                        k < self.palette@.len(),
                        m <= k,
                        forall|j: int| 0 <= j < m ==> self.palette@[j] != self.palette@[k as int],
                    decreases k - m,
                {
                    if self.palette[m] == self.palette[k] {
                        assert(!distinct(self.palette@)) by {
                            assert(self.palette@[m as int] == self.palette@[k as int]);
                        }
                        return false;
                    }
                    m = m + 1;
                }
                k = k + 1;
            }
            if self.palette[0] != 0 {
                return false;
            }
        }
        let buffer = BitBuffer::load(SECTION_CELLS, bits, self.data.clone());
        proof {
            assert(buffer.words() =~= self.data@);
        }
        let ghost cells = self.cells();
        let mut count: u32 = 0;
        let mut i: usize = 0;
        while i < SECTION_CELLS
            invariant
                self.entries == SECTION_CELLS,
                1 <= b <= DIRECT_BITS,
                b == bits as u64,
                bits == self.bits_per_block,
                paletted == (b < DIRECT_BITS),
                buffer.wf(),
                buffer.entries == SECTION_CELLS,
                buffer.bits() == b,
                buffer.words() == self.data@,
                cells == self.cells(),
                i <= SECTION_CELLS,
                paletted ==> forall|j: int| 0 <= j < self.palette@.len() ==> (#[trigger] self.palette@[j]) < GLOBAL_IDS,
                forall|j: int| 0 <= j < i ==> (#[trigger] packed(self.data@, b, j)) < (if paletted {
                    self.palette@.len() as int
                } else {
                    0x1_0000_0000int
                }),
                forall|j: int| 0 <= j < i ==> (#[trigger] cells[j]) < GLOBAL_IDS,
                count == count_nonzero(cells.subrange(0, i as int)),
                count <= i,
            decreases SECTION_CELLS - i,
        {
            proof {
                buffer.lemma_locate(i as int);
                crate::bit_buffer::lemma_packed_fits(self.data@, b, i as int);
            }
            let raw = buffer.get_entry(i);
            assert(raw as int == packed(self.data@, b, i as int));
            let v = if paletted {
                if raw as usize >= self.palette.len() {
                    assert(packed(self.data@, b, i as int) >= self.palette@.len());
                    return false;
                }
                self.palette[raw as usize]
            } else {
                raw
            };
            assert(cells[i as int] == (if b < DIRECT_BITS {
                self.palette@[packed(self.data@, b, i as int) as int]
            } else {
                packed(self.data@, b, i as int) as u32
            }));
            assert(v == cells[i as int]);
            if v >= GLOBAL_IDS {
                return false;
            }
            proof {
                assert(cells.subrange(0, i + 1).drop_last() =~= cells.subrange(0, i as int));
            }
            if v != 0 {
                count = count + 1;
            }
            i = i + 1;
        }
        proof {
            assert(cells.subrange(0, SECTION_CELLS as int) =~= cells);
        }
        count == self.block_count
    }
}

/// What loading a stored section, or its absence, yields.
pub open spec fn stored_cells(data: Option<ChunkSectionData>) -> Seq<u32> {
    match data {
        Some(d) => d.cells(),
        None => zeros(SECTION_CELLS as nat),
    }
}

/// Whether `data` can be loaded: absent, or a valid record.
pub open spec fn loadable_section(data: Option<ChunkSectionData>) -> bool {
    match data {
        Some(d) => d.valid(),
        None => true,
    }
}

/// Whether `saved` is what saving a section whose cells are `cells` may give:
/// a valid record of exactly those cells, or absence where every cell is empty.
pub open spec fn saves_as(saved: Option<ChunkSectionData>, cells: Seq<u32>) -> bool {
    match saved {
        Some(d) => d.valid() && d.cells() == cells,
        None => cells == zeros(SECTION_CELLS as nat),
    }
}

/// Loading what a section saved gives back every one of its cells.
pub proof fn lemma_save_load_round_trip(saved: Option<ChunkSectionData>, cells: Seq<u32>)
    requires
        saves_as(saved, cells),
    ensures
        loadable_section(saved),
        stored_cells(saved) == cells,
{
}

/// Whether `c` carries `cells` on the wire: a single value at width 0 where all
/// cells hold it; else the buffer's width with its palette and words, or its
/// words alone once direct.
pub open spec fn container_holds(c: crate::clientbound::PalettedContainer, cells: Seq<u32>) -> bool {
    if c.bits_per_entry == 0 {
        &&& c.palette matches Some(p) && p@ == seq![cells[0] as i32]
        &&& c.data_array@.len() == 0
        &&& forall|i: int| 0 <= i < cells.len() ==> #[trigger] cells[i] == cells[0]
    } else {
        &&& 1 <= c.bits_per_entry <= DIRECT_BITS
        &&& c.data_array@.len() == crate::bit_buffer::longs_needed(cells.len() as int, c.bits_per_entry as u64)
        &&& (c.palette is Some <==> c.bits_per_entry < DIRECT_BITS)
        &&& forall|i: int| 0 <= i < cells.len() ==> #[trigger] cells[i] as int == (match c.palette {
            Some(p) => p@[packed(c.data_array@, c.bits_per_entry as u64, i) as int] as int,
            None => packed(c.data_array@, c.bits_per_entry as u64, i) as int,
        })
        &&& exists|i: int| 0 <= i < cells.len() && #[trigger] cells[i] != cells[0]
    }
}

/// A 16×16×16 volume of cells: a paletted buffer, shadowed by an overlay of the
/// values written since, and the count of non-empty cells.
pub struct ChunkSection {
    pub(crate) buffer: PalettedBitBuffer,
    pub(crate) block_count: u32,
    pub(crate) changed_blocks: Vec<i16>,
    pub(crate) changed: bool,
}

impl ChunkSection {
    /// A buffer of 4096 global ids at the block-state threshold, an overlay of 4096 slots
    /// (negative where never written), overlay and buffer in agreement unless dirty, and the
    /// count of non-empty cells exact.
    pub open(crate) spec fn wf(&self) -> bool {
        &&& self.buffer.wf()
        &&& self.buffer.view().len() == SECTION_CELLS
        &&& self.buffer.threshold() == BLOCK_DIRECT_THRESHOLD
        &&& self.changed_blocks@.len() == SECTION_CELLS
        &&& forall|i: int|
            0 <= i < SECTION_CELLS ==> (#[trigger] self.buffer.view()[i]) < GLOBAL_IDS
        &&& !self.changed ==> forall|i: int|
            0 <= i < SECTION_CELLS && #[trigger] self.changed_blocks@[i] >= 0
                ==> self.changed_blocks@[i] as u32 == self.buffer.view()[i]
        &&& self.block_count == count_nonzero(self.view())
    }

    /// The current value of each cell: the overlay where it was written, else the buffer.
    pub open(crate) spec fn view(&self) -> Seq<u32> {
        Seq::new(
            SECTION_CELLS as nat,
            |i: int|
                if self.changed_blocks@[i] >= 0 {
                    self.changed_blocks@[i] as u32
                } else {
                    self.buffer.view()[i]
                },
        )
    }

    /// The backing buffer behind the overlay.
    pub open(crate) spec fn backing(&self) -> PalettedBitBuffer {
        self.buffer
    }

    /// The overlay: the value last written to each cell, negative where none was.
    pub open(crate) spec fn overlay(&self) -> Seq<i16> {
        self.changed_blocks@
    }

    /// Whether the overlay holds writes not yet copied into the buffer.
    pub open(crate) spec fn is_dirty(&self) -> bool {
        self.changed
    }

    /// Whether nothing but empty cells was ever stored: the palette is `[0]` and
    /// the overlay holds no other value.
    pub open(crate) spec fn only_air(&self) -> bool {
        &&& !self.buffer.is_direct()
        &&& self.buffer.palette_view() == seq![0u32]
        &&& forall|i: int| 0 <= i < SECTION_CELLS ==> #[trigger] self.changed_blocks@[i] <= 0
    }

    /// An empty section.
    pub fn new() -> (r: ChunkSection)
        ensures
            r.wf(),
            r.view() == zeros(SECTION_CELLS as nat),
            r.only_air(),
            r.overlay() == Seq::new(SECTION_CELLS as nat, |i: int| -1i16),
    {
        let r = ChunkSection {
            buffer: PalettedBitBuffer::new(SECTION_CELLS, BLOCK_DIRECT_THRESHOLD),
            block_count: 0,
            changed_blocks: vec![-1i16; SECTION_CELLS],
            changed: false,
        };
        proof {
            assert(r.view() =~= zeros(SECTION_CELLS as nat));
            assert(r.overlay() =~= Seq::new(SECTION_CELLS as nat, |i: int| -1i16));
            lemma_count_zeros(SECTION_CELLS as nat);
        }
        r
    }

    /// The flat index of `(x, y, z)`.
    pub fn get_index(x: u32, y: u32, z: u32) -> (r: usize)
        requires
            x < 16,
            y < 16,
            z < 16,
        ensures
            r == cell_index(x, y, z),
            r < SECTION_CELLS,
    {
        let r = (y << 8) | (z << 4) | x;
        assert(r == y * 256 + z * 16 + x) by (bit_vector)
            requires
                x < 16,
                y < 16,
                z < 16,
                r == (y << 8) | (z << 4) | x,
        ;
        r as usize
    }

    /// The value of the cell at `(x, y, z)`.
    pub fn get_block(&self, x: u32, y: u32, z: u32) -> (r: u32)
        requires
            self.wf(),
            x < 16,
            y < 16,
            z < 16,
        ensures
            r == self.view()[cell_index(x, y, z)],
    {
        let idx = ChunkSection::get_index(x, y, z);
        if self.changed_blocks[idx] >= 0 {
            self.changed_blocks[idx] as u32
        } else {
            self.buffer.get_entry(idx)
        }
    }

    /// Writes `block` at `(x, y, z)` through the overlay and keeps the count of
    /// non-empty cells. Returns whether the cell's value changed.
    pub fn set_block(&mut self, x: u32, y: u32, z: u32, block: u32) -> (r: bool)
        requires
            old(self).wf(),
            x < 16,
            y < 16,
            z < 16,
            block < GLOBAL_IDS,
        ensures
            final(self).wf(),
            final(self).view() == old(self).view().update(cell_index(x, y, z), block),
            r == (old(self).view()[cell_index(x, y, z)] != block),
            old(self).only_air() && block == 0 ==> final(self).only_air(),
            final(self).backing() == old(self).backing(),
            final(self).overlay() == old(self).overlay().update(cell_index(x, y, z), block as i16),
    {
        let ghost before = self.view();
        let old_block = self.get_block(x, y, z);
        let idx = ChunkSection::get_index(x, y, z);
        proof {
            lemma_count_update(before, idx as int, block);
            lemma_count_bound(before.update(idx as int, block));
        }
        if old_block == 0 && block != 0 {
            self.block_count = self.block_count + 1;
        } else if old_block != 0 && block == 0 {
            self.block_count = self.block_count - 1;
        }
        self.changed_blocks.set(idx, block as i16);
        self.changed = true;
        proof {
            assert(self.view() =~= before.update(idx as int, block));
        }
        old_block != block
    }

    /// Copies every written cell of the overlay into the buffer. The overlay stays.
    pub fn flush(&mut self)
        requires
            old(self).wf(),
        ensures
            final(self).wf(),
            final(self).view() == old(self).view(),
            !final(self).is_dirty(),
            old(self).only_air() ==> final(self).only_air(),
            final(self).overlay() == old(self).overlay(),
            final(self).backing().view() == final(self).view(),
            final(self).backing().threshold() == old(self).backing().threshold(),
    {
        if self.changed {
            let ghost before = *self;
            let mut i: usize = 0;
            while i < SECTION_CELLS
                invariant
                    before.wf(),
                    self.buffer.wf(),
                    self.buffer.threshold() == BLOCK_DIRECT_THRESHOLD,
                    self.buffer.view().len() == SECTION_CELLS,
                    self.changed_blocks == before.changed_blocks,
                    self.block_count == before.block_count,
                    i <= SECTION_CELLS,
                    forall|j: int|
                        0 <= j < i ==> #[trigger] self.buffer.view()[j] == before.view()[j],
                    forall|j: int|
                        i <= j < SECTION_CELLS ==> #[trigger] self.buffer.view()[j]
                            == before.buffer.view()[j],
                    before.only_air() ==> {
                        &&& !self.buffer.is_direct()
                        &&& self.buffer.palette_view() == seq![0u32]
                    },
                decreases SECTION_CELLS - i,
            {
                let c = self.changed_blocks[i];
                if c >= 0 {
                    let ghost mid = self.buffer;
                    self.buffer.set_entry(i, c as u32);
                    proof {
                        if before.only_air() {
                            assert(mid.palette_view()[0] == c as u32);
                        }
                    }
                }
                i = i + 1;
            }
            self.changed = false;
            proof {
                assert(self.view() =~= before.view());
            }
        }
    }

    /// The number of non-empty cells.
    pub fn block_count(&self) -> (r: u32)
        requires
            self.wf(),
        ensures
            r == count_nonzero(self.view()),
    {
        self.block_count
    }

    /// Flushes the overlay, then gives the stored form of the section: `None`
    /// where its buffer holds nothing but empty cells behind the palette `[0]`.
    pub fn save(&mut self) -> (r: Option<ChunkSectionData>)
        requires
            old(self).wf(),
        ensures
            final(self).wf(),
            final(self).view() == old(self).view(),
            saves_as(r, old(self).view()),
            old(self).only_air() ==> r is None,
            final(self).overlay() == old(self).overlay(),
            r is None <==> (!final(self).backing().is_direct() && final(self).backing().palette_view()
                == seq![0u32]),
            match r {
                Some(d) => {
                    &&& d.bits_per_block == final(self).backing().bits()
                    &&& d.data@ == final(self).backing().words()
                    &&& d.palette@ == final(self).backing().palette_view()
                    &&& d.block_count == count_nonzero(old(self).view())
                    &&& d.entries == SECTION_CELLS
                },
                None => true,
            },
    {
        self.flush();
        if self.buffer.use_palette && self.buffer.palette.len() == 1 && self.buffer.palette[0] == 0 {
            proof {
                assert forall|i: int| 0 <= i < SECTION_CELLS implies self.buffer.view()[i] == 0u32 by {
                    assert(self.buffer.data.view()[i] < 1);
                }
                assert(self.view() =~= zeros(SECTION_CELLS as nat));
                assert(self.buffer.palette@ =~= seq![0u32]);
            }
            return None;
        }
        let data = self.buffer.data.longs.clone();
        let palette = self.buffer.palette.clone();
        let d = ChunkSectionData {
            data,
            palette,
            bits_per_block: self.buffer.data.bits_per_entry as u8,
            block_count: self.block_count,
            entries: self.buffer.entries(),
        };
        proof {
            let b = self.buffer.data.bits_per_entry;
            let longs = self.buffer.data.longs@;
            assert(d.data@ =~= longs);
            assert(d.palette@ =~= self.buffer.palette@);
            assert forall|i: int| 0 <= i < SECTION_CELLS implies self.buffer.data.view()[i] as int
                == packed(longs, b, i) as int by {
                self.buffer.data.lemma_locate(i);
                crate::bit_buffer::lemma_packed_fits(longs, b, i);
            }
            assert(self.view() =~= self.buffer.view());
            assert(d.cells() =~= self.buffer.view());
        }
        Some(d)
    }

    /// A section from its stored form; an absent one is empty.
    pub fn load(data: Option<ChunkSectionData>) -> (r: ChunkSection)
        requires
            loadable_section(data),
        ensures
            r.wf(),
            r.view() == stored_cells(data),
            data is None ==> r.only_air(),
            r.overlay() == Seq::new(SECTION_CELLS as nat, |i: int| -1i16),
            match data {
                Some(d) => {
                    &&& r.backing().bits() == d.bits_per_block
                    &&& r.backing().words() == d.data@
                    &&& r.backing().palette_view() == d.palette@
                    &&& r.backing().is_direct() == (d.bits_per_block == DIRECT_BITS)
                },
                None => true,
            },
    {
        match data {
            None => ChunkSection::new(),
            Some(d) => {
                let ghost cells = d.cells();
                let buffer = PalettedBitBuffer::load(
                    d.entries,
                    d.bits_per_block,
                    d.data,
                    d.palette,
                    BLOCK_DIRECT_THRESHOLD,
                );
                let r = ChunkSection {
                    buffer,
                    block_count: d.block_count,
                    changed_blocks: vec![-1i16; SECTION_CELLS],
                    changed: false,
                };
                proof {
                    assert(r.view() =~= cells);
                    assert(r.overlay() =~= Seq::new(SECTION_CELLS as nat, |i: int| -1i16));
                }
                r
            },
        }
    }

    /// Rebuilds the buffer from four bits up with a fresh palette of the values
    /// it holds.
    pub fn compress(&mut self)
        requires
            old(self).wf(),
        ensures
            final(self).wf(),
            final(self).view() == old(self).view(),
            final(self).overlay() == old(self).overlay(),
            final(self).backing().view() == old(self).backing().view(),
            final(self).backing().shape() == shape_after(
                old(self).backing().view(),
                BLOCK_DIRECT_THRESHOLD,
            ),
    {
        let mut new_buffer = PalettedBitBuffer::new(SECTION_CELLS, BLOCK_DIRECT_THRESHOLD);
        proof {
            assert(self.buffer.view().subrange(0, 0) =~= Seq::<u32>::empty());
        }
        let mut i: usize = 0;
        while i < SECTION_CELLS
            invariant
                self.wf(),
                new_buffer.wf(),
                new_buffer.threshold() == BLOCK_DIRECT_THRESHOLD,
                new_buffer.view().len() == SECTION_CELLS,
                i <= SECTION_CELLS,
                forall|j: int| 0 <= j < i ==> #[trigger] new_buffer.view()[j] == self.buffer.view()[j],
                new_buffer.shape() == shape_after(self.buffer.view().subrange(0, i as int), BLOCK_DIRECT_THRESHOLD),
            decreases SECTION_CELLS - i,
        {
            let v = self.buffer.get_entry(i);
            new_buffer.set_entry(i, v);
            proof {
                assert(self.buffer.view().subrange(0, i + 1).drop_last() =~= self.buffer.view().subrange(0, i as int));
            }
            i = i + 1;
        }
        proof {
            assert(self.buffer.view().subrange(0, SECTION_CELLS as int) =~= self.buffer.view());
        }
        let ghost before = *self;
        self.buffer = new_buffer;
        proof {
            assert(self.buffer.view() =~= before.buffer.view());
            assert(self.view() =~= before.view());
        }
    }

    /// The section's block states as a wire container, after a flush: width 0
    /// with the one value where every cell holds it, else the buffer as it is.
    pub fn block_states(&mut self) -> (r: crate::clientbound::PalettedContainer)
        requires
            old(self).wf(),
        ensures
            final(self).wf(),
            final(self).view() == old(self).view(),
            container_holds(r, old(self).view()),
    {
        self.flush();
        let first = self.buffer.get_entry(0);
        let mut i: usize = 1;
        let mut uniform = true;
        while i < SECTION_CELLS
            invariant
                self.wf(),
                !self.changed,
                1 <= i <= SECTION_CELLS,
                first == self.buffer.view()[0],
                uniform ==> forall|j: int| 0 <= j < i ==> #[trigger] self.buffer.view()[j] == first,
                !uniform ==> exists|j: int| 0 <= j < SECTION_CELLS && #[trigger] self.buffer.view()[j] != first,
            decreases SECTION_CELLS - i,
        {
            if self.buffer.get_entry(i) != first {
                uniform = false;
            }
            i = i + 1;
        }
        proof {
            assert(self.view() =~= self.buffer.view());
        }
        if uniform {
            let mut single: Vec<i32> = Vec::new();
            single.push(first as i32);
            proof {
                assert(single@ =~= seq![self.view()[0] as i32]);
            }
            return crate::clientbound::PalettedContainer {
                bits_per_entry: 0,
                palette: Some(single),
                data_array: Vec::new(),
            };
        }
        let data_array = self.buffer.data.longs.clone();
        proof {
            assert(data_array@ =~= self.buffer.data.longs@);
        }
        let palette = if self.buffer.use_palette {
            let mut p: Vec<i32> = Vec::new();
            let mut k: usize = 0;
            while k < self.buffer.palette.len()
                invariant
                    k <= self.buffer.palette@.len(),
                    p@.len() == k,
                    forall|j: int| 0 <= j < k ==> #[trigger] p@[j] == self.buffer.palette@[j] as i32,
                decreases self.buffer.palette@.len() - k,
            {
                p.push(self.buffer.palette[k] as i32);
                k = k + 1;
            }
            Some(p)
        } else {
            None
        };
        let r = crate::clientbound::PalettedContainer {
            bits_per_entry: self.buffer.data.bits_per_entry as u8,
            palette,
            data_array,
        };
        proof {
            let b = self.buffer.data.bits_per_entry;
            let longs = self.buffer.data.longs@;
            assert forall|i: int| 0 <= i < SECTION_CELLS implies #[trigger] self.view()[i] as int == (match r.palette {
                Some(p) => p@[packed(r.data_array@, b, i) as int] as int,
                None => packed(r.data_array@, b, i) as int,
            }) by {
                self.buffer.data.lemma_locate(i);
                crate::bit_buffer::lemma_packed_fits(longs, b, i);
                if self.buffer.use_palette {
                    let k = self.buffer.data.view()[i];
                    assert(k < self.buffer.palette@.len());
                    assert(self.buffer.palette@[k as int] < GLOBAL_IDS);
                }
            }
        }
        r
    }
}

} // verus!
