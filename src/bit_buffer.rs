use vstd::arithmetic::div_mod::{lemma_fundamental_div_mod, lemma_mod_bound};
use vstd::prelude::*;

verus! {

/// The mask of the low `bits` bits of a word.
pub open spec fn low_mask(bits: u64) -> u64 {
    vstd::prelude::sub(1u64 << bits, 1u64)
}

/// The entry stored at `slot` of a word packed with `bits`-wide entries.
pub open spec fn word_entry(word: u64, slot: int, bits: u64) -> u64 {
    (word >> ((slot * bits) as u64)) & low_mask(bits)
}

/// A word in which the entry at bit offset `shift` is replaced by `value`.
pub open spec fn word_with(word: u64, shift: u64, bits: u64, value: u64) -> u64 {
    (word & !(low_mask(bits) << shift)) | (value << shift)
}

/// Writing an entry into a word and reading it back gives the entry.
proof fn lemma_word_with_same(word: u64, shift: u64, bits: u64, value: u64)
    requires
        1 <= bits <= 32,
        shift + bits <= 64,
        value <= low_mask(bits),
    ensures
        (word_with(word, shift, bits, value) >> shift) & low_mask(bits) == value,
{
    assert(((((word & !(vstd::prelude::sub(1u64 << bits, 1u64) << shift)) | (value << shift)) >> shift) & vstd::prelude::sub(
        1u64 << bits,
        1u64,
    )) == value) by (bit_vector)
        requires
            1 <= bits <= 32,
            shift + bits <= 64,
            value <= vstd::prelude::sub(1u64 << bits, 1u64),
    ;
}

/// Writing an entry into a word leaves an entry at another, disjoint offset as it was.
proof fn lemma_word_with_other(word: u64, shift: u64, other: u64, bits: u64, value: u64)
    requires
        1 <= bits <= 32,
        shift + bits <= 64,
        other + bits <= 64,
        shift + bits <= other || other + bits <= shift,
        value <= low_mask(bits),
    ensures
        (word_with(word, shift, bits, value) >> other) & low_mask(bits) == (word >> other)
            & low_mask(bits),
{
    assert(((((word & !(vstd::prelude::sub(1u64 << bits, 1u64) << shift)) | (value << shift)) >> other) & vstd::prelude::sub(
        1u64 << bits,
        1u64,
    )) == ((word >> other) & vstd::prelude::sub(1u64 << bits, 1u64))) by (bit_vector)
        requires
            1 <= bits <= 32,
            shift + bits <= 64,
            other + bits <= 64,
            shift + bits <= other || other + bits <= shift,
            value <= vstd::prelude::sub(1u64 << bits, 1u64),
    ;
}

/// Writing an entry below `used` keeps the bits of the word above `used` zero.
proof fn lemma_word_with_padding(word: u64, shift: u64, bits: u64, value: u64, used: u64)
    requires
        1 <= bits <= 32,
        shift + bits <= used,
        used <= 64,
        value <= low_mask(bits),
        used == 64 || word >> used == 0,
    ensures
        used == 64 || word_with(word, shift, bits, value) >> used == 0,
{
    if used < 64 {
        assert((((word & !(vstd::prelude::sub(1u64 << bits, 1u64) << shift)) | (value << shift))
            >> used) == 0) by (bit_vector)
            requires
                1 <= bits <= 32,
                shift + bits <= used,
                used < 64,
                value <= vstd::prelude::sub(1u64 << bits, 1u64),
                word >> used == 0,
        ;
    }
}

/// Every entry of a zero word is zero.
proof fn lemma_zero_word(shift: u64, bits: u64)
    ensures
        (0u64 >> shift) & low_mask(bits) == 0,
{
    assert((0u64 >> shift) & vstd::prelude::sub(1u64 << bits, 1u64) == 0) by (bit_vector);
}

/// An entry fits its mask, and the mask of at most 32 bits fits in 32 bits.
pub(crate) proof fn lemma_entry_fits(word: u64, shift: u64, bits: u64)
    requires
        1 <= bits <= 32,
    ensures
        (word >> shift) & low_mask(bits) <= low_mask(bits),
        low_mask(bits) < 0x1_0000_0000,
        low_mask(bits) as int + 1 == pow2(bits),
{
    assert((word >> shift) & vstd::prelude::sub(1u64 << bits, 1u64) <= vstd::prelude::sub(1u64 << bits, 1u64)) by (bit_vector);
    assert(vstd::prelude::sub(1u64 << bits, 1u64) < 0x1_0000_0000u64) by (bit_vector)
        requires
            1 <= bits <= 32,
    ;
    lemma_mask_pow2(bits);
}

/// A word holds at least two entries of at most 32 bits.
pub(crate) proof fn lemma_width(bits: u64)
    requires
        1 <= bits <= 32,
    ensures
        2 <= 64u64 / bits <= 64,
        (1u64 << bits) >= 1,
{
    assert(2 <= 64u64 / bits <= 64) by (bit_vector)
        requires
            1 <= bits <= 32,
    ;
    assert((1u64 << bits) >= 1) by (bit_vector)
        requires
            bits <= 32,
    ;
}

/// A packed entry fits in its width, and so in 32 bits.
pub proof fn lemma_packed_fits(longs: Seq<u64>, bits: u64, index: int)
    requires
        1 <= bits <= 32,
        0 <= index / ((64u64 / bits) as int) < longs.len(),
    ensures
        packed(longs, bits, index) <= low_mask(bits),
        packed(longs, bits, index) < 0x1_0000_0000,
{
    let e = (64u64 / bits) as int;
    lemma_entry_fits(longs[index / e], ((index % e) * bits) as u64, bits);
}

/// A left shift of one is a power of two.
pub proof fn lemma_shl_pow2(bits: u32)
    requires
        bits <= 31,
    ensures
        (1u32 << bits) as int == pow2(bits as u64),
{
    lemma_mask_pow2(bits as u64);
    assert((1u32 << bits) as u64 == vstd::prelude::sub(1u64 << (bits as u64), 1u64) + 1) by (bit_vector)
        requires
            bits <= 31,
    ;
}

/// Powers of two grow with the exponent.
pub proof fn lemma_pow2_monotone(a: u64, b: u64)
    requires
        a <= b,
    ensures
        pow2(a) <= pow2(b),
        pow2(a) >= 1,
    decreases b,
{
    if a < b {
        lemma_pow2_monotone(a, (b - 1) as u64);
    } else if a > 0 {
        lemma_pow2_monotone(0, (a - 1) as u64);
    }
}

/// `2` raised to `n`.
pub open spec fn pow2(n: u64) -> int
    decreases n,
{
    if n == 0 {
        1
    } else {
        2 * pow2((n - 1) as u64)
    }
}

/// The mask of `bits` bits is one less than `2^bits`.
proof fn lemma_mask_pow2(bits: u64)
    requires
        bits <= 32,
    ensures
        low_mask(bits) as int + 1 == pow2(bits),
    decreases bits,
{
    if bits == 0 {
        assert(vstd::prelude::sub(1u64 << 0u64, 1u64) == 0) by (bit_vector);
    } else {
        lemma_mask_pow2((bits - 1) as u64);
        let b = (bits - 1) as u64;
        assert(vstd::prelude::sub(1u64 << bits, 1u64) == 2 * vstd::prelude::sub(1u64 << b, 1u64) + 1) by (bit_vector)
            requires
                1 <= bits <= 32,
                b == bits - 1,
        ;
    }
}

/// A fixed-width bit-packed array of unsigned entries backed by 64-bit words.
/// An entry never spans two words.
#[derive(Clone, Debug)]
pub struct BitBuffer {
    pub(crate) bits_per_entry: u64,
    pub(crate) entries_per_long: u64,
    pub(crate) entries: usize,
    pub(crate) mask: u64,
    pub(crate) longs: Vec<u64>,
}

/// The entry at `index` of words packed with `bits`-wide entries.
pub open spec fn packed(longs: Seq<u64>, bits: u64, index: int) -> u64 {
    word_entry(longs[index / ((64u64 / bits) as int)], index % ((64u64 / bits) as int), bits)
}

/// The number of words that `entries` entries of `bits` bits take.
pub open spec fn longs_needed(entries: int, bits: u64) -> int {
    (entries + (64u64 / bits) as int - 1) / ((64u64 / bits) as int)
}

impl BitBuffer {
    /// Width in 1..=32, entries per word and mask that match it, and enough words for the
    /// entries.
    pub open(crate) spec fn wf(&self) -> bool {
        &&& 1 <= self.bits_per_entry <= 32
        &&& self.entries_per_long == 64u64 / self.bits_per_entry
        &&& self.mask == low_mask(self.bits_per_entry)
        &&& self.longs@.len() == longs_needed(self.entries as int, self.bits_per_entry)
    }

    /// Whether the bits of each word above its last entry are all zero.
    pub open(crate) spec fn padding_clear(&self) -> bool {
        let used = (self.entries_per_long * self.bits_per_entry) as u64;
        forall|k: int| 0 <= k < self.longs@.len() ==> used == 64 || #[trigger] self.longs@[k] >> used == 0
    }

    /// The width of an entry, in bits.
    pub open(crate) spec fn bits(&self) -> u64 {
        self.bits_per_entry
    }

    /// The number of entries that a word holds.
    pub open(crate) spec fn per_word(&self) -> int {
        self.entries_per_long as int
    }

    /// The backing words.
    pub open(crate) spec fn words(&self) -> Seq<u64> {
        self.longs@
    }

    /// The entry at `index`, read from the backing words.
    pub open(crate) spec fn raw(&self, index: int) -> u64 {
        packed(self.longs@, self.bits_per_entry, index)
    }

    /// The entries, in order.
    pub open(crate) spec fn view(&self) -> Seq<u32> {
        Seq::new(self.entries as nat, |i: int| self.raw(i) as u32)
    }

    /// An entry lies in a word of the buffer, within the word.
    pub(crate) proof fn lemma_locate(&self, index: int)
        requires
            self.wf(),
            0 <= index < self.entries,
        ensures
            0 <= index / (self.entries_per_long as int) < self.longs@.len(),
            0 <= index % (self.entries_per_long as int) < self.entries_per_long,
            (index % (self.entries_per_long as int)) * self.bits_per_entry + self.bits_per_entry
                <= 64,
            index == (index / (self.entries_per_long as int)) * (self.entries_per_long as int)
                + index % (self.entries_per_long as int),
            self.entries_per_long * self.bits_per_entry <= 64,
            (index % (self.entries_per_long as int)) * self.bits_per_entry + self.bits_per_entry
                <= self.entries_per_long * self.bits_per_entry,
    {
        let e = self.entries_per_long as int;
        let b = self.bits_per_entry as int;
        lemma_width(self.bits_per_entry);
        assert(e * b <= 64) by {
            lemma_fundamental_div_mod(64, b);
            lemma_mod_bound(64, b);
        }
        lemma_fundamental_div_mod(index, e);
        lemma_mod_bound(index, e);
        let q = index / e;
        let r = index % e;
        assert(r * b + b <= e * b) by (nonlinear_arith)
            requires
                0 <= r < e,
                b >= 1,
        ;
        let n = self.entries as int;
        lemma_fundamental_div_mod(n + e - 1, e);
        lemma_mod_bound(n + e - 1, e);
        let l = (n + e - 1) / e;
        assert(q < l) by (nonlinear_arith)
            requires
                index == q * e + r,
                0 <= r < e,
                n + e - 1 == l * e + (n + e - 1) % e,
                0 <= (n + e - 1) % e < e,
                index < n,
                e >= 2,
        ;
        assert(q >= 0) by (nonlinear_arith)
            requires
                index == q * e + r,
                0 <= r < e,
                index >= 0,
        ;
    }

    /// A buffer of `entries` entries of `bits_per_entry` bits, all zero.
    pub fn create(bits_per_entry: u8, entries: usize) -> (r: BitBuffer)
        requires
            1 <= bits_per_entry <= 32,
            entries + 64 <= usize::MAX,
        ensures
            r.wf(),
            r.bits() == bits_per_entry,
            r.view() == Seq::new(entries as nat, |i: int| 0u32),
            r.words() == Seq::new(longs_needed(entries as int, bits_per_entry as u64) as nat, |k: int| 0u64),
            r.padding_clear(),
    {
        proof {
            lemma_width(bits_per_entry as u64);
        }
        let entries_per_long: u64 = 64 / bits_per_entry as u64;
        let longs_len: usize = (entries + entries_per_long as usize - 1) / entries_per_long as usize;
        let longs: Vec<u64> = vec![0; longs_len];
        let r = BitBuffer {
            bits_per_entry: bits_per_entry as u64,
            longs,
            entries,
            entries_per_long,
            mask: (1u64 << bits_per_entry as u64) - 1,
        };
        proof {
            let b = bits_per_entry as u64;
            assert forall|i: int| 0 <= i < entries implies r.raw(i) == 0 by {
                r.lemma_locate(i);
                lemma_zero_word((i % (entries_per_long as int) * b) as u64, b);
            }
            assert(r.view() =~= Seq::new(entries as nat, |i: int| 0u32));
            assert(r.words() =~= Seq::new(longs_needed(entries as int, b) as nat, |k: int| 0u64));
            assert forall|k: int| 0 <= k < r.longs@.len() implies (entries_per_long * b) as u64 == 64
                || #[trigger] r.longs@[k] >> ((entries_per_long * b) as u64) == 0 by {
                let used = (entries_per_long * b) as u64;
                assert(0u64 >> used == 0) by (bit_vector);
            }
        }
        r
    }

    /// A buffer over words read back from storage.
    pub(crate) fn load(entries: usize, bits_per_entry: u8, longs: Vec<u64>) -> (r: BitBuffer)
        requires
            1 <= bits_per_entry <= 32,
            longs@.len() == longs_needed(entries as int, bits_per_entry as u64),
        ensures
            r.wf(),
            r.bits() == bits_per_entry,
            r.words() == longs@,
            r.entries == entries,
    {
        proof {
            lemma_width(bits_per_entry as u64);
        }
        let entries_per_long: u64 = 64 / bits_per_entry as u64;
        BitBuffer {
            bits_per_entry: bits_per_entry as u64,
            longs,
            entries,
            entries_per_long,
            mask: (1u64 << bits_per_entry as u64) - 1,
        }
    }

    /// The backing words.
    pub fn longs(&self) -> (r: &Vec<u64>)
        ensures
            r@ == self.words(),
    {
        &self.longs
    }

    /// The number of entries.
    pub fn len(&self) -> (r: usize)
        ensures
            r == self.view().len(),
    {
        self.entries
    }

    /// The entry at `word_idx`.
    pub fn get_entry(&self, word_idx: usize) -> (r: u32)
        requires
            self.wf(),
            word_idx < self.view().len(),
        ensures
            r == self.view()[word_idx as int],
            (r as int) < pow2(self.bits()),
    {
        proof {
            self.lemma_locate(word_idx as int);
        }
        let arr_idx: usize = word_idx / self.entries_per_long as usize;
        let sub_idx: u64 = (word_idx % self.entries_per_long as usize) as u64 * self.bits_per_entry;
        let word: u64 = (self.longs[arr_idx] >> sub_idx) & self.mask;
        proof {
            lemma_entry_fits(self.longs@[arr_idx as int], sub_idx, self.bits_per_entry);
        }
        word as u32
    }

    /// Writes `word` at `word_idx`; every other entry keeps its value.
    pub fn set_entry(&mut self, word_idx: usize, word: u32)
        requires
            old(self).wf(),
            word_idx < old(self).view().len(),
            (word as int) < pow2(old(self).bits()),
        ensures
            final(self).wf(),
            final(self).bits() == old(self).bits(),
            final(self).view() == old(self).view().update(word_idx as int, word),
            old(self).padding_clear() ==> final(self).padding_clear(),
            final(self).words().len() == old(self).words().len(),
            forall|k: int|
                0 <= k < old(self).words().len() && k != word_idx as int / old(self).per_word()
                    ==> #[trigger] final(self).words()[k] == old(self).words()[k],
    {
        proof {
            self.lemma_locate(word_idx as int);
            lemma_mask_pow2(self.bits_per_entry);
        }
        let ghost before = *self;
        let arr_idx: usize = word_idx / self.entries_per_long as usize;
        let sub_idx: u64 = (word_idx % self.entries_per_long as usize) as u64 * self.bits_per_entry;
        let mask: u64 = !(self.mask << sub_idx);
        let new_word: u64 = (self.longs[arr_idx] & mask) | ((word as u64) << sub_idx);
        self.longs.set(arr_idx, new_word);
        proof {
            let e = self.entries_per_long as int;
            let b = self.bits_per_entry;
            let w = before.longs@[arr_idx as int];
            assert(new_word == word_with(w, sub_idx, b, word as u64));
            assert forall|i: int| 0 <= i < self.entries implies #[trigger] self.raw(i) == (if i
                == word_idx {
                word as u64
            } else {
                before.raw(i)
            }) by {
                self.lemma_locate(i);
                if i == word_idx {
                    lemma_word_with_same(w, sub_idx, b, word as u64);
                } else if i / e == arr_idx as int {
                    let other = ((i % e) * b) as u64;
                    assert(i % e != word_idx as int % e);
                    assert(other + b <= sub_idx || sub_idx + b <= other) by (nonlinear_arith)
                        requires
                            other == (i % e) * b,
                            sub_idx == (word_idx as int % e) * b,
                            i % e != word_idx as int % e,
                            b >= 1,
                    ;
                    lemma_word_with_other(w, sub_idx, other, b, word as u64);
                }
            }
            assert(self.view() =~= before.view().update(word_idx as int, word));
            if before.padding_clear() {
                let used = (e * b) as u64;
                lemma_word_with_padding(w, sub_idx, b, word as u64, used);
                assert forall|k: int| 0 <= k < self.longs@.len() implies used == 64
                    || #[trigger] self.longs@[k] >> used == 0 by {
                    if k != arr_idx {
                        assert(self.longs@[k] == before.longs@[k]);
                    }
                }
            }
        }
    }
}

} // verus!
