use crate::bit_buffer::{packed, pow2, BitBuffer};
use vstd::prelude::*;

verus! {

/// The width of an entry once a buffer has left its palette: enough for every global id.
pub const DIRECT_BITS: u8 = 15;

/// The number of global ids that the direct encoding can hold.
pub const GLOBAL_IDS: u32 = 32768;

/// The width at which a fresh buffer starts.
pub const INITIAL_BITS: u8 = 4;

/// A bit-packed array of global ids behind a palette of the ids in use. The entry
/// width grows as the palette fills, and past a threshold the palette is dropped
/// for good and entries hold global ids directly.
#[derive(Clone, Debug)]
pub struct PalettedBitBuffer {
    pub(crate) data: BitBuffer,
    pub(crate) palette: Vec<u32>,
    pub(crate) max_entries: u32,
    pub(crate) use_palette: bool,
    /// 9 for block states, 4 for biomes
    pub(crate) direct_threshold: u64,
}

/// Whether no value appears twice in `s`.
pub open spec fn distinct(s: Seq<u32>) -> bool {
    forall|i: int, j: int| 0 <= i < j < s.len() ==> #[trigger] s[i] != #[trigger] s[j]
}

/// The mode, width and palette of a buffer after `val` is written to one whose
/// mode, width and palette are `shape`: a direct buffer stays as it is; a value
/// in the palette changes nothing; a new value joins a palette with room; a
/// full palette first widens by one bit, or gives way to the direct width once
/// the next width reaches `threshold`.
pub open spec fn step(shape: (bool, u64, Seq<u32>), threshold: u64, val: u32) -> (bool, u64, Seq<u32>) {
    let (direct, bits, palette) = shape;
    if direct || palette.contains(val) {
        shape
    } else if palette.len() < pow2(bits) {
        (false, bits, palette.push(val))
    } else if bits + 1 >= threshold {
        (true, DIRECT_BITS as u64, seq![])
    } else {
        (false, (bits + 1) as u64, palette.push(val))
    }
}

/// The mode, width and palette of a fresh buffer after `vals` are written in order.
pub open spec fn shape_after(vals: Seq<u32>, threshold: u64) -> (bool, u64, Seq<u32>)
    decreases vals.len(),
{
    if vals.len() == 0 {
        (false, INITIAL_BITS as u64, seq![0u32])
    } else {
        step(shape_after(vals.drop_last(), threshold), threshold, vals.last())
    }
}

/// Whether stored words, a width and a palette make a valid buffer of `entries` entries.
pub open spec fn loadable(entries: int, bits: u64, longs: Seq<u64>, palette: Seq<u32>) -> bool {
    &&& 1 <= bits <= DIRECT_BITS
    &&& entries + 64 <= usize::MAX
    &&& longs.len() == crate::bit_buffer::longs_needed(entries, bits)
    &&& bits == DIRECT_BITS ==> palette.len() == 0
    &&& bits < DIRECT_BITS ==> {
        &&& 1 <= palette.len() <= pow2(bits)
        &&& palette[0] == 0
        &&& distinct(palette)
        &&& forall|k: int| 0 <= k < palette.len() ==> (#[trigger] palette[k]) < GLOBAL_IDS
        &&& forall|i: int| 0 <= i < entries ==> (#[trigger] packed(longs, bits, i)) < palette.len()
    }
}

/// The values that stored words and a palette hold.
pub open spec fn loaded_values(entries: int, bits: u64, longs: Seq<u64>, palette: Seq<u32>) -> Seq<
    u32,
> {
    Seq::new(
        entries as nat,
        |i: int|
            if bits < DIRECT_BITS {
                palette[packed(longs, bits, i) as int]
            } else {
                packed(longs, bits, i) as u32
            },
    )
}

impl PalettedBitBuffer {
    /// A well-formed buffer of at most 15 bits. While paletted: narrower than the direct width,
    /// a palette of at least one and at most `2^bits` global ids, and every entry an index into
    /// it. Once direct: the direct width.
    pub open(crate) spec fn wf(&self) -> bool {
        &&& self.data.wf()
        &&& self.data.entries + 64 <= usize::MAX
        &&& self.direct_threshold <= DIRECT_BITS
        &&& 1 <= self.data.bits() <= DIRECT_BITS
        &&& if self.use_palette {
            &&& self.data.bits() < DIRECT_BITS
            &&& self.max_entries == pow2(self.data.bits())
            &&& 1 <= self.palette@.len() <= self.max_entries
            &&& self.palette@[0] == 0
            &&& distinct(self.palette@)
            &&& forall|k: int|
                0 <= k < self.palette@.len() ==> (#[trigger] self.palette@[k]) < GLOBAL_IDS
            &&& forall|i: int|
                0 <= i < self.data.view().len() ==> (#[trigger] self.data.view()[i])
                    < self.palette@.len()
        } else {
            &&& self.data.bits() == DIRECT_BITS
            &&& self.max_entries == GLOBAL_IDS
            &&& self.palette@.len() == 0
        }
    }

    /// The global id at each index.
    pub open(crate) spec fn view(&self) -> Seq<u32> {
        Seq::new(
            self.data.view().len(),
            |i: int|
                if self.use_palette {
                    self.palette@[self.data.view()[i] as int]
                } else {
                    self.data.view()[i]
                },
        )
    }

    /// The width of an entry, in bits.
    pub open(crate) spec fn bits(&self) -> u64 {
        self.data.bits()
    }

    /// The backing words.
    pub open(crate) spec fn words(&self) -> Seq<u64> {
        self.data.words()
    }

    /// The buffer's mode (direct or not), width and palette.
    pub open(crate) spec fn shape(&self) -> (bool, u64, Seq<u32>) {
        (!self.use_palette, self.data.bits(), self.palette@)
    }

    /// Whether entries hold global ids directly.
    pub open(crate) spec fn is_direct(&self) -> bool {
        !self.use_palette
    }

    /// The palette, while there is one.
    pub open(crate) spec fn palette_view(&self) -> Seq<u32> {
        self.palette@
    }

    /// The width at which the palette is dropped.
    pub open(crate) spec fn threshold(&self) -> u64 {
        self.direct_threshold
    }

    /// A buffer of `entries` zeros, paletted at four bits with the palette `[0]`.
    /// The palette is dropped once the next width reaches `direct_threshold`,
    /// which is at most the direct width: a larger one could never be reached.
    pub fn new(entries: usize, direct_threshold: u64) -> (r: PalettedBitBuffer)
        requires
            entries + 64 <= usize::MAX,
            direct_threshold <= DIRECT_BITS,
        ensures
            r.wf(),
            r.view() == Seq::new(entries as nat, |i: int| 0u32),
            r.bits() == INITIAL_BITS,
            !r.is_direct(),
            r.palette_view() == seq![0u32],
            r.shape() == shape_after(seq![], direct_threshold),
            r.threshold() == direct_threshold,
    {
        let palette: Vec<u32> = vec![0];
        let r = PalettedBitBuffer {
            data: BitBuffer::create(INITIAL_BITS, entries),
            palette,
            max_entries: 16,
            use_palette: true,
            direct_threshold,
        };
        proof {
            reveal_with_fuel(pow2, 5);
            assert(r.view() =~= Seq::new(entries as nat, |i: int| 0u32));
        }
        r
    }

    /// A buffer over stored words, width and palette.
    pub(crate) fn load(
        entries: usize,
        bits_per_entry: u8,
        longs: Vec<u64>,
        palette: Vec<u32>,
        direct_threshold: u64,
    ) -> (r: PalettedBitBuffer)
        requires
            loadable(entries as int, bits_per_entry as u64, longs@, palette@),
            direct_threshold <= DIRECT_BITS,
        ensures
            r.wf(),
            r.view() == loaded_values(entries as int, bits_per_entry as u64, longs@, palette@),
            r.bits() == bits_per_entry,
            r.is_direct() == (bits_per_entry == DIRECT_BITS),
            r.palette_view() == palette@,
            r.words() == longs@,
            r.threshold() == direct_threshold,
    {
        let ghost words = longs@;
        let data = BitBuffer::load(entries, bits_per_entry, longs);
        let use_palette = bits_per_entry < DIRECT_BITS;
        let max_entries: u32 = if use_palette {
            1u32 << bits_per_entry as u32
        } else {
            GLOBAL_IDS
        };
        let r = PalettedBitBuffer { data, palette, use_palette, max_entries, direct_threshold };
        proof {
            let b = bits_per_entry as u32;
            if use_palette {
                crate::bit_buffer::lemma_shl_pow2(b);
            }
            assert(forall|i: int| 0 <= i < entries ==> r.data.view()[i] == packed(words, b as u64, i) as u32);
            if use_palette {
                assert forall|i: int| 0 <= i < r.data.view().len() implies (#[trigger] r.data.view()[i]) < r.palette@.len() by {
                    assert(packed(words, b as u64, i) < palette@.len());
                }
            }
            assert(r.view() =~= loaded_values(entries as int, bits_per_entry as u64, words, palette@));
        }
        r
    }

    /// The global id at `index`.
    pub fn get_entry(&self, index: usize) -> (r: u32)
        requires
            self.wf(),
            index < self.view().len(),
        ensures
            r == self.view()[index as int],
    {
        if self.use_palette {
            let k = self.data.get_entry(index);
            self.palette[k as usize]
        } else {
            self.data.get_entry(index)
        }
    }

    /// The width of an entry, in bits.
    pub fn bits_per_entry(&self) -> (r: u64)
        ensures
            r == self.bits(),
    {
        self.data.bits_per_entry
    }

    /// Whether entries hold global ids directly.
    pub fn uses_direct(&self) -> (r: bool)
        ensures
            r == self.is_direct(),
    {
        !self.use_palette
    }

    /// The palette, while there is one.
    pub fn palette(&self) -> (r: &Vec<u32>)
        ensures
            r@ == self.palette_view(),
    {
        &self.palette
    }

    /// The number of entries.
    pub fn entries(&self) -> (r: usize)
        ensures
            r == self.view().len(),
    {
        self.data.len()
    }

    /// The position of `val` in the palette.
    fn palette_index(&self, val: u32) -> (r: Option<usize>)
        ensures
            match r {
                Some(k) => k < self.palette@.len() && self.palette@[k as int] == val,
                None => forall|k: int| 0 <= k < self.palette@.len() ==> self.palette@[k] != val,
            },
    {
        let mut k: usize = 0;
        while k < self.palette.len()
            invariant
                k <= self.palette@.len(),
                forall|j: int| 0 <= j < k ==> self.palette@[j] != val,
            decreases self.palette@.len() - k,
        {
            if self.palette[k] == val {
                return Some(k);
            }
            k = k + 1;
        }
        None
    }

    /// Rebuilds the entries one bit wider, or at the direct width once the next
    /// width reaches the threshold; the values stay.
    fn resize_buffer(&mut self)
        requires
            old(self).wf(),
            old(self).use_palette,
        ensures
            final(self).wf(),
            final(self).view() == old(self).view(),
            final(self).bits() > old(self).bits(),
            final(self).threshold() == old(self).threshold(),
            old(self).bits() + 1 >= old(self).threshold() ==> {
                &&& !final(self).use_palette
                &&& final(self).bits() == DIRECT_BITS
                &&& final(self).palette@ == Seq::<u32>::empty()
                &&& final(self).max_entries == GLOBAL_IDS
            },
            old(self).bits() + 1 < old(self).threshold() ==> {
                &&& final(self).use_palette
                &&& final(self).bits() == old(self).bits() + 1
                &&& final(self).palette@ == old(self).palette@
                &&& final(self).max_entries == 2 * old(self).max_entries
            },
    {
        let ghost before = *self;
        let old_bits = self.data.bits_per_entry;
        let direct = old_bits + 1 >= self.direct_threshold;
        let new_bits: u8 = if direct {
            DIRECT_BITS
        } else {
            (old_bits + 1) as u8
        };
        let n = self.data.len();
        let mut data = BitBuffer::create(new_bits, n);
        proof {
            reveal_with_fuel(pow2, 16);
        }
        let mut i: usize = 0;
        while i < n
            invariant
                *self == before,
                before.wf(),
                before.use_palette,
                n == before.data.view().len(),
                data.wf(),
                data.bits() == new_bits,
                new_bits <= DIRECT_BITS,
                old_bits < new_bits,
                old_bits == before.data.bits(),
                direct ==> new_bits == DIRECT_BITS,
                !direct ==> new_bits == old_bits + 1,
                pow2(15) == 32768,
                data.view().len() == n,
                i <= n,
                forall|j: int|
                    0 <= j < i ==> #[trigger] data.view()[j] == (if direct {
                        before.view()[j]
                    } else {
                        before.data.view()[j]
                    }),
            decreases n - i,
        {
            let raw = self.data.get_entry(i);
            proof {
                assert(before.data.view()[i as int] < before.palette@.len());
            }
            let entry = if direct {
                self.palette[raw as usize]
            } else {
                raw
            };
            proof {
                crate::bit_buffer::lemma_pow2_monotone(old_bits, new_bits as u64);
                if direct {
                    assert(self.palette@[raw as int] < GLOBAL_IDS);
                }
            }
            data.set_entry(i, entry);
            i = i + 1;
        }
        self.data = data;
        if direct {
            self.max_entries = GLOBAL_IDS;
            self.use_palette = false;
            self.palette = Vec::new();
        } else {
            self.max_entries = self.max_entries * 2;
        }
        proof {
            assert(self.view() =~= before.view());
            if !direct {
                assert forall|j: int| 0 <= j < self.data.view().len() implies (#[trigger] self.data.view()[j])
                    < self.palette@.len() by {
                    assert(before.data.view()[j] < before.palette@.len());
                }
            }
        }
    }

    /// Writes `val` at `index`. A value new to a full palette first widens the
    /// entries, or drops the palette once the next width reaches the threshold.
    /// The width never shrinks and a direct buffer stays direct.
    pub fn set_entry(&mut self, index: usize, val: u32)
        requires
            old(self).wf(),
            index < old(self).view().len(),
            val < GLOBAL_IDS,
        ensures
            final(self).wf(),
            final(self).view() == old(self).view().update(index as int, val),
            final(self).bits() >= old(self).bits(),
            old(self).is_direct() ==> final(self).is_direct(),
            !final(self).is_direct() ==> old(self).palette_view().is_prefix_of(
                final(self).palette_view(),
            ),
            final(self).threshold() == old(self).threshold(),
            !old(self).is_direct() && old(self).palette_view().contains(val) ==> {
                &&& !final(self).is_direct()
                &&& final(self).palette_view() == old(self).palette_view()
                &&& final(self).bits() == old(self).bits()
            },
            final(self).shape() == step(old(self).shape(), old(self).threshold(), val),
            final(self).bits() == old(self).bits() || final(self).bits() == old(self).bits() + 1
                || final(self).bits() == DIRECT_BITS,
            final(self).palette_view().len() <= old(self).palette_view().len() + 1,
            final(self).is_direct() ==> final(self).palette_view().len() == 0,
    {
        let ghost before = *self;
        proof {
            reveal_with_fuel(pow2, 16);
        }
        if self.use_palette {
            match self.palette_index(val) {
                Some(k) => {
                    proof {
                        crate::bit_buffer::lemma_pow2_monotone(0, 0);
                    }
                    self.data.set_entry(index, k as u32);
                    proof {
                        assert(self.view() =~= before.view().update(index as int, val));
                    }
                    return;
                },
                None => {
                    proof {
                        assert(!before.palette@.contains(val));
                    }
                },
            }
            if self.palette.len() + 1 > self.max_entries as usize {
                self.resize_buffer();
            }
        }
        let ghost mid = *self;
        if self.use_palette {
            let k = self.palette.len();
            self.palette.push(val);
            proof {
                assert(mid.palette@.is_prefix_of(self.palette@));
            }
            self.data.set_entry(index, k as u32);
            proof {
                assert forall|j: int| 0 <= j < self.data.view().len() implies (#[trigger] self.data.view()[j])
                    < self.palette@.len() by {
                    if j != index {
                        assert(mid.data.view()[j] < mid.palette@.len());
                    }
                }
                assert forall|j: int| 0 <= j < self.data.view().len() implies mid.palette@[mid.data.view()[j] as int] == self.palette@[mid.data.view()[j] as int] by {
                    if j != index {
                        assert(mid.data.view()[j] < mid.palette@.len());
                    }
                }
                assert(self.view() =~= before.view().update(index as int, val));
            }
        } else {
            self.data.set_entry(index, val);
            proof {
                assert(self.view() =~= before.view().update(index as int, val));
            }
        }
    }
}

} // verus!
