use crate::codec::{varint_bytes, write_bytes, write_unsigned_byte, write_varint};
use vstd::prelude::*;

verus! {

/// What flate2 makes of `data` at the default level: its zlib stream, or
/// `None` where the compressor reports an error.
pub uninterp spec fn zlib_of(data: Seq<u8>) -> Option<Seq<u8>>;

/// Relies on flate2's `ZlibEncoder` (write side) at `Compression::default()`:
/// `write_all` then `finish` on a `Vec` sink give the zlib stream of `data`.
/// Either step may report an error, which gives `None`.
#[verifier::external_body]
fn zlib_compress(data: &Vec<u8>) -> (r: Option<Vec<u8>>)
    ensures
        match r {
            Some(c) => zlib_of(data@) == Some(c@),
            None => zlib_of(data@) is None,
        },
{
    let mut encoder = flate2::write::ZlibEncoder::new(Vec::new(), flate2::Compression::default());
    match std::io::Write::write_all(&mut encoder, data) {
        Ok(()) => encoder.finish().ok(),
        Err(_) => None,
    }
}

/// Why a packet could not be encoded.
#[derive(Debug, PartialEq, Eq, Structural, Clone, Copy)]
pub enum PacketEncodeError {
    /// The compressor reported an error.
    Compression,
    /// The framed packet would not fit in a VarInt length.
    TooLong,
}

/// The uncompressed frame of a packet: its length, then its id and body.
pub open spec fn uncompressed_frame(id: u32, body: Seq<u8>) -> Seq<u8> {
    varint_bytes((body.len() + varint_bytes(id as i32).len()) as i32) + varint_bytes(id as i32)
        + body
}

/// The id and body of a packet, as one sequence.
pub open spec fn packet_data(id: u32, body: Seq<u8>) -> Seq<u8> {
    varint_bytes(id as i32) + body
}

/// The frame of a packet too short to compress: its length, a zero data length, then the data.
pub open spec fn short_frame(data: Seq<u8>) -> Seq<u8> {
    varint_bytes((1 + data.len()) as i32) + seq![0u8] + data
}

/// The frame of a compressed packet: its length, the length of the data, then
/// the compressed data.
pub open spec fn compressed_frame(data: Seq<u8>, compressed: Seq<u8>) -> Seq<u8> {
    varint_bytes((varint_bytes(data.len() as i32).len() + compressed.len()) as i32)
        + varint_bytes(data.len() as i32) + compressed
}

/// The body of a packet after its id, with the id.
pub struct PacketEncoder {
    buffer: Vec<u8>,
    packet_id: u32,
}

/// The largest body that a packet may have.
pub const MAX_BODY: usize = 0x7FFF_FF00;

/// The most bytes that a frame's VarInt length can cover, with room for the length fields.
pub const MAX_FRAMED: usize = 0x7FFF_FFF0;

impl PacketEncoder {
    /// The packet's id.
    pub closed spec fn id(&self) -> u32 {
        self.packet_id
    }

    /// The packet's body, after its id.
    pub closed spec fn body(&self) -> Seq<u8> {
        self.buffer@
    }

    /// A packet of id `packet_id` whose body is `buffer`.
    pub fn new(buffer: Vec<u8>, packet_id: u32) -> (r: PacketEncoder)
        ensures
            r.id() == packet_id,
            r.body() == buffer@,
    {
        PacketEncoder { buffer, packet_id }
    }

    /// The packet's body, after its id.
    pub fn buffer(&self) -> (r: &Vec<u8>)
        ensures
            r@ == self.body(),
    {
        &self.buffer
    }

    /// The packet's id.
    pub fn packet_id(&self) -> (r: u32)
        ensures
            r == self.id(),
    {
        self.packet_id
    }

    /// The VarInt encoding of `val`.
    pub fn varint(val: i32) -> (r: Vec<u8>)
        ensures
            r@ == varint_bytes(val),
    {
        let mut buf: Vec<u8> = Vec::new();
        write_varint(&mut buf, val);
        buf
    }

    /// The packet framed without compression: its length, then its id and body.
    pub fn write_uncompressed(&self) -> (r: Vec<u8>)
        requires
            self.body().len() <= MAX_BODY,
        ensures
            r@ == uncompressed_frame(self.id(), self.body()),
    {
        let packet_id = PacketEncoder::varint(self.packet_id as i32);
        proof {
            crate::codec::lemma_varint_round_trip(self.packet_id as i32, seq![]);
        }
        let mut out = PacketEncoder::varint((self.buffer.len() + packet_id.len()) as i32);
        write_bytes(&mut out, packet_id.as_slice());
        write_bytes(&mut out, self.buffer.as_slice());
        proof {
            assert(out@ =~= uncompressed_frame(self.id(), self.body()));
        }
        out
    }

    /// The packet framed for a compressed stream: a body under 256 bytes goes
    /// as it is behind a zero data length; a longer one is compressed.
    pub fn write_compressed(&self) -> (r: Result<Vec<u8>, PacketEncodeError>)
        requires
            self.body().len() <= MAX_BODY,
        ensures
            self.body().len() < 256 ==> (r matches Ok(v) && v@ == short_frame(
                packet_data(self.id(), self.body()),
            )),
            self.body().len() >= 256 ==> match zlib_of(packet_data(self.id(), self.body())) {
                None => r == Err::<Vec<u8>, PacketEncodeError>(PacketEncodeError::Compression),
                Some(c) => if c.len() > MAX_FRAMED {
                    r == Err::<Vec<u8>, PacketEncodeError>(PacketEncodeError::TooLong)
                } else {
                    (r matches Ok(v) && v@ == compressed_frame(packet_data(self.id(), self.body()), c))
                },
            },
    {
        let mut data = PacketEncoder::varint(self.packet_id as i32);
        proof {
            crate::codec::lemma_varint_round_trip(self.packet_id as i32, seq![]);
        }
        write_bytes(&mut data, self.buffer.as_slice());
        if self.buffer.len() < 256 {
            return Ok(frame_short(&data));
        }
        match zlib_compress(&data) {
            Some(compressed) => {
                if compressed.len() > MAX_FRAMED {
                    return Err(PacketEncodeError::TooLong);
                }
                Ok(frame_compressed(&data, &compressed))
            },
            None => Err(PacketEncodeError::Compression),
        }
    }
}

/// Frames `data` (a packet's id and body) uncompressed behind a zero data length.
pub fn frame_short(data: &Vec<u8>) -> (r: Vec<u8>)
    requires
        data@.len() <= MAX_FRAMED,
    ensures
        r@ == short_frame(data@),
{
    let mut out = PacketEncoder::varint((1 + data.len()) as i32);
    write_unsigned_byte(&mut out, 0);
    write_bytes(&mut out, data.as_slice());
    proof {
        assert(out@ =~= short_frame(data@));
    }
    out
}

/// Frames `compressed`, the compressed form of `data` (a packet's id and body):
/// the frame's length, the length of `data`, then `compressed`.
pub fn frame_compressed(data: &Vec<u8>, compressed: &Vec<u8>) -> (r: Vec<u8>)
    requires
        data@.len() <= MAX_FRAMED,
        compressed@.len() <= MAX_FRAMED,
    ensures
        r@ == compressed_frame(data@, compressed@),
{
    let data_length = PacketEncoder::varint(data.len() as i32);
    proof {
        crate::codec::lemma_varint_round_trip(data.len() as i32, seq![]);
    }
    let mut out = PacketEncoder::varint((data_length.len() + compressed.len()) as i32);
    write_bytes(&mut out, data_length.as_slice());
    write_bytes(&mut out, compressed.as_slice());
    proof {
        assert(out@ =~= compressed_frame(data@, compressed@));
    }
    out
}

} // verus!
