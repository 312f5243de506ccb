use crate::codec::{
    be16, be32, be64, varint_bytes, varlong_bytes, write_bool, write_bytes, write_int, write_long,
    write_short, write_unsigned_byte, write_varint, write_varlong,
};
use crate::packets::PacketEncoder;
use vstd::prelude::*;

verus! {

/// The id of the chunk data packet.
pub const CHUNK_DATA_ID: u32 = 0x22;

/// The id of the multi block change packet.
pub const MULTI_BLOCK_CHANGE_ID: u32 = 0x3F;

/// A packet that the server sends.
pub trait ClientBoundPacket {
    /// The packet's id.
    spec fn spec_id(&self) -> u32;

    /// The packet's body, after its id.
    spec fn spec_body(&self) -> Seq<u8>;

    /// Whether the packet can be encoded.
    spec fn encodable(&self) -> bool;

    /// The packet with its id and body.
    fn encode(&self) -> (r: PacketEncoder)
        requires
            self.encodable(),
        ensures
            r.id() == self.spec_id(),
            r.body() == self.spec_body(),
    ;
}

/// One container of a chunk section on the wire: a single value (width 0,
/// palette of one), a palette and packed indices, or packed global ids.
#[derive(Debug, Clone)]
pub struct PalettedContainer {
    pub bits_per_entry: u8,
    pub palette: Option<Vec<i32>>,
    pub data_array: Vec<u64>,
}

/// The VarInt encodings of `s`, one after another.
pub open spec fn varints(s: Seq<i32>) -> Seq<u8>
    decreases s.len(),
{
    if s.len() == 0 {
        seq![]
    } else {
        varints(s.drop_last()) + varint_bytes(s.last())
    }
}

/// The big-endian words of `s`, one after another.
pub open spec fn longs_bytes(s: Seq<u64>) -> Seq<u8>
    decreases s.len(),
{
    if s.len() == 0 {
        seq![]
    } else {
        longs_bytes(s.drop_last()) + be64(s.last())
    }
}

impl PalettedContainer {
    /// A container of width 0 carries its one value as a palette of one.
    pub open spec fn well_formed(&self) -> bool {
        self.bits_per_entry == 0 ==> (self.palette matches Some(p) && p@.len() == 1)
    }

    /// The container on the wire: its width; the single value, or the palette
    /// behind its length, if any; the count of words and the words.
    pub open spec fn wire(&self) -> Seq<u8> {
        seq![self.bits_per_entry] + (if self.bits_per_entry == 0 {
            varint_bytes(self.palette->Some_0@[0])
        } else if self.palette is Some {
            varint_bytes(self.palette->Some_0@.len() as i32) + varints(self.palette->Some_0@)
        } else {
            seq![]
        }) + varint_bytes(self.data_array@.len() as i32) + longs_bytes(self.data_array@)
    }

    /// Appends the container to `buf`.
    pub fn write(&self, buf: &mut Vec<u8>)
        requires
            self.well_formed(),
        ensures
            final(buf)@ == old(buf)@ + self.wire(),
    {
        let ghost start = buf@;
        write_unsigned_byte(buf, self.bits_per_entry);
        if self.bits_per_entry == 0 {
            match &self.palette {
                Some(p) => write_varint(buf, p[0]),
                None => {},
            }
        } else {
            match &self.palette {
                Some(p) => {
                    write_varint(buf, p.len() as i32);
                    write_varints(buf, p);
                },
                None => {},
            }
        }
        write_varint(buf, self.data_array.len() as i32);
        write_longs(buf, &self.data_array);
        proof {
            assert(buf@ =~= start + self.wire());
        }
    }
}

/// Appends the VarInt encodings of `vals`.
fn write_varints(buf: &mut Vec<u8>, vals: &Vec<i32>)
    ensures
        final(buf)@ == old(buf)@ + varints(vals@),
{
    let mut i: usize = 0;
    while i < vals.len()
        invariant
            i <= vals@.len(),
            buf@ == old(buf)@ + varints(vals@.subrange(0, i as int)),
        decreases vals@.len() - i,
    {
        write_varint(buf, vals[i]);
        proof {
            assert(vals@.subrange(0, i + 1).drop_last() =~= vals@.subrange(0, i as int));
        }
        i = i + 1;
        proof {
            assert(buf@ =~= old(buf)@ + varints(vals@.subrange(0, i as int)));
        }
    }
    assert(vals@.subrange(0, vals@.len() as int) =~= vals@);
}

/// Appends the big-endian words of `vals`.
fn write_longs(buf: &mut Vec<u8>, vals: &Vec<u64>)
    ensures
        final(buf)@ == old(buf)@ + longs_bytes(vals@),
{
    let mut i: usize = 0;
    while i < vals.len()
        invariant
            i <= vals@.len(),
            buf@ == old(buf)@ + longs_bytes(vals@.subrange(0, i as int)),
        decreases vals@.len() - i,
    {
        write_long(buf, vals[i] as i64);
        proof {
            let v = vals@[i as int];
            assert((v as i64) as u64 == v) by (bit_vector);
            assert(vals@.subrange(0, i + 1).drop_last() =~= vals@.subrange(0, i as int));
        }
        i = i + 1;
        proof {
            assert(buf@ =~= old(buf)@ + longs_bytes(vals@.subrange(0, i as int)));
        }
    }
    assert(vals@.subrange(0, vals@.len() as int) =~= vals@);
}

/// One section of a chunk on the wire.
#[derive(Debug, Clone)]
pub struct CChunkDataSection {
    pub block_count: i16,
    pub block_states: PalettedContainer,
    pub biomes: PalettedContainer,
}

impl CChunkDataSection {
    /// Both containers are well formed.
    pub open spec fn well_formed(&self) -> bool {
        self.block_states.well_formed() && self.biomes.well_formed()
    }

    /// The section on the wire: its count of non-empty cells, then its two containers.
    pub open spec fn wire(&self) -> Seq<u8> {
        be16(self.block_count as u16) + self.block_states.wire() + self.biomes.wire()
    }
}

/// The sections on the wire, one after another.
pub open spec fn sections_wire(s: Seq<CChunkDataSection>) -> Seq<u8>
    decreases s.len(),
{
    if s.len() == 0 {
        seq![]
    } else {
        sections_wire(s.drop_last()) + s.last().wire()
    }
}

/// A block entity on the wire: its position in the chunk, type and NBT data.
#[derive(Debug, Clone)]
pub struct CChunkDataBlockEntity {
    pub x: i8,
    pub z: i8,
    pub y: i16,
    pub ty: i32,
    /// The NBT encoding of the block entity's data.
    pub data: Vec<u8>,
}

impl CChunkDataBlockEntity {
    /// The block entity on the wire: `x` and `z` packed in one byte, `y`, the
    /// type, then the data.
    pub open spec fn wire(&self) -> Seq<u8> {
        seq![(((self.x as u8) << 4u8) | (self.z as u8)) as u8] + be16(self.y as u16)
            + varint_bytes(self.ty) + self.data@
    }
}

/// The block entities on the wire, one after another.
pub open spec fn block_entities_wire(s: Seq<CChunkDataBlockEntity>) -> Seq<u8>
    decreases s.len(),
{
    if s.len() == 0 {
        seq![]
    } else {
        block_entities_wire(s.drop_last()) + s.last().wire()
    }
}

/// The fixed light data that ends a chunk: edges trusted, no light arrays, and
/// every section marked empty of sky and block light.
pub open spec fn light_trailer() -> Seq<u8> {
    seq![1u8] + varint_bytes(0) + varint_bytes(0) + varint_bytes(1) + be64(0x3FFFF)
        + varint_bytes(1) + be64(0x3FFFF) + varint_bytes(0) + varint_bytes(0)
}

/// A whole chunk column on the wire.
#[derive(Debug, Clone)]
pub struct CChunkData {
    pub chunk_x: i32,
    pub chunk_z: i32,
    /// The NBT encoding of the heightmaps.
    pub heightmaps: Vec<u8>,
    pub chunk_sections: Vec<CChunkDataSection>,
    pub block_entities: Vec<CChunkDataBlockEntity>,
}

impl CChunkData {
    /// Every section is well formed.
    pub open spec fn well_formed(&self) -> bool {
        forall|i: int|
            0 <= i < self.chunk_sections@.len() ==> (#[trigger] self.chunk_sections@[i]).well_formed()
    }

    /// The packet's body: the chunk position, the heightmaps, the sections
    /// behind their byte length, the block entities behind their count, then
    /// the light data.
    pub open spec fn wire(&self) -> Seq<u8> {
        be32(self.chunk_x as u32) + be32(self.chunk_z as u32) + self.heightmaps@ + varint_bytes(
            sections_wire(self.chunk_sections@).len() as i32,
        ) + sections_wire(self.chunk_sections@) + varint_bytes(
            self.block_entities@.len() as i32,
        ) + block_entities_wire(self.block_entities@) + light_trailer()
    }

    /// The packet's body.
    pub fn payload(&self) -> (r: Vec<u8>)
        requires
            self.well_formed(),
        ensures
            r@ == self.wire(),
    {
        let mut buf: Vec<u8> = Vec::new();
        write_int(&mut buf, self.chunk_x);
        write_int(&mut buf, self.chunk_z);
        write_bytes(&mut buf, self.heightmaps.as_slice());
        let mut data: Vec<u8> = Vec::new();
        let mut i: usize = 0;
        while i < self.chunk_sections.len()
            invariant
                self.well_formed(),
                i <= self.chunk_sections@.len(),
                data@ == sections_wire(self.chunk_sections@.subrange(0, i as int)),
            decreases self.chunk_sections@.len() - i,
        {
            let section = &self.chunk_sections[i];
            write_short(&mut data, section.block_count);
            section.block_states.write(&mut data);
            section.biomes.write(&mut data);
            proof {
                assert(self.chunk_sections@.subrange(0, i + 1).drop_last()
                    =~= self.chunk_sections@.subrange(0, i as int));
            }
            i = i + 1;
            proof {
                assert(data@ =~= sections_wire(self.chunk_sections@.subrange(0, i as int)));
            }
        }
        proof {
            assert(self.chunk_sections@.subrange(0, self.chunk_sections@.len() as int)
                =~= self.chunk_sections@);
        }
        write_varint(&mut buf, data.len() as i32);
        write_bytes(&mut buf, data.as_slice());
        write_varint(&mut buf, self.block_entities.len() as i32);
        let ghost before_entities = buf@;
        let mut k: usize = 0;
        while k < self.block_entities.len()
            invariant
                k <= self.block_entities@.len(),
                buf@ == before_entities + block_entities_wire(
                    self.block_entities@.subrange(0, k as int),
                ),
            decreases self.block_entities@.len() - k,
        {
            let e = &self.block_entities[k];
            write_unsigned_byte(&mut buf, ((e.x as u8) << 4) | (e.z as u8));
            write_short(&mut buf, e.y);
            write_varint(&mut buf, e.ty);
            write_bytes(&mut buf, e.data.as_slice());
            proof {
                assert(self.block_entities@.subrange(0, k + 1).drop_last()
                    =~= self.block_entities@.subrange(0, k as int));
            }
            k = k + 1;
            proof {
                assert(buf@ =~= before_entities + block_entities_wire(
                    self.block_entities@.subrange(0, k as int),
                ));
            }
        }
        proof {
            assert(self.block_entities@.subrange(0, self.block_entities@.len() as int)
                =~= self.block_entities@);
        }
        let ghost before_light = buf@;
        write_bool(&mut buf, true);
        write_varint(&mut buf, 0);
        write_varint(&mut buf, 0);
        write_varint(&mut buf, 1);
        write_long(&mut buf, 0x3FFFF);
        write_varint(&mut buf, 1);
        write_long(&mut buf, 0x3FFFF);
        write_varint(&mut buf, 0);
        write_varint(&mut buf, 0);
        proof {
            assert(buf@ =~= before_light + light_trailer());
            assert(buf@ =~= self.wire());
        }
        buf
    }
}

impl ClientBoundPacket for CChunkData {
    open spec fn spec_id(&self) -> u32 {
        CHUNK_DATA_ID
    }

    open spec fn spec_body(&self) -> Seq<u8> {
        self.wire()
    }

    open spec fn encodable(&self) -> bool {
        self.well_formed()
    }

    fn encode(&self) -> (r: PacketEncoder) {
        PacketEncoder::new(self.payload(), CHUNK_DATA_ID)
    }
}

/// One changed block of a section: its position in the section and its new state.
#[derive(Debug, Clone, Copy)]
pub struct C3BMultiBlockChangeRecord {
    pub x: u8,
    pub y: u8,
    pub z: u8,
    pub block_id: u32,
}

impl C3BMultiBlockChangeRecord {
    /// The record packed in one word: the state above the position's `x`, `z`, `y`.
    pub open spec fn packed(&self) -> u64 {
        ((self.block_id as u64) << 12u64) | ((self.x as u64) << 8u64) | ((self.z as u64) << 4u64)
            | (self.y as u64)
    }
}

/// The records on the wire, one VarLong each.
pub open spec fn records_wire(s: Seq<C3BMultiBlockChangeRecord>) -> Seq<u8>
    decreases s.len(),
{
    if s.len() == 0 {
        seq![]
    } else {
        records_wire(s.drop_last()) + varlong_bytes(s.last().packed() as i64)
    }
}

/// The blocks changed in one section.
#[derive(Debug, Clone)]
pub struct CMultiBlockChange {
    pub chunk_x: i32,
    pub chunk_z: i32,
    pub chunk_y: u32,
    pub records: Vec<C3BMultiBlockChangeRecord>,
}

/// The section position packed in one word: 22 bits each of `x` and `z`, 20 of `y`.
pub open spec fn section_position(chunk_x: i32, chunk_z: i32, chunk_y: u32) -> u64 {
    (((chunk_x as u64) & 0x3F_FFFFu64) << 42u64) | (((chunk_z as u64) & 0x3F_FFFFu64) << 20u64)
        | ((chunk_y as u64) & 0xF_FFFFu64)
}

impl CMultiBlockChange {
    /// The packet's body: the section position, a true flag, the count of
    /// records, then the records.
    pub open spec fn wire(&self) -> Seq<u8> {
        be64(section_position(self.chunk_x, self.chunk_z, self.chunk_y)) + seq![1u8]
            + varint_bytes(self.records@.len() as i32) + records_wire(self.records@)
    }

    /// The packet's body.
    pub fn payload(&self) -> (r: Vec<u8>)
        ensures
            r@ == self.wire(),
    {
        let mut buf: Vec<u8> = Vec::new();
        let pos = (((self.chunk_x as u64) & 0x3F_FFFF) << 42) | (((self.chunk_z as u64)
            & 0x3F_FFFF) << 20) | ((self.chunk_y as u64) & 0xF_FFFF);
        write_long(&mut buf, pos as i64);
        assert((pos as i64) as u64 == pos) by (bit_vector);
        write_bool(&mut buf, true);
        write_varint(&mut buf, self.records.len() as i32);
        let ghost start = buf@;
        let mut i: usize = 0;
        while i < self.records.len()
            invariant
                i <= self.records@.len(),
                buf@ == start + records_wire(self.records@.subrange(0, i as int)),
            decreases self.records@.len() - i,
        {
            let record = self.records[i];
            let long = ((record.block_id as u64) << 12) | ((record.x as u64) << 8) | ((
            record.z as u64) << 4) | (record.y as u64);
            write_varlong(&mut buf, long as i64);
            proof {
                assert(self.records@.subrange(0, i + 1).drop_last() =~= self.records@.subrange(
                    0,
                    i as int,
                ));
            }
            i = i + 1;
            proof {
                assert(buf@ =~= start + records_wire(self.records@.subrange(0, i as int)));
            }
        }
        proof {
            assert(self.records@.subrange(0, self.records@.len() as int) =~= self.records@);
        }
        buf
    }
}

impl ClientBoundPacket for CMultiBlockChange {
    open spec fn spec_id(&self) -> u32 {
        MULTI_BLOCK_CHANGE_ID
    }

    open spec fn spec_body(&self) -> Seq<u8> {
        self.wire()
    }

    open spec fn encodable(&self) -> bool {
        true
    }

    fn encode(&self) -> (r: PacketEncoder) {
        PacketEncoder::new(self.payload(), MULTI_BLOCK_CHANGE_ID)
    }
}

} // verus!
