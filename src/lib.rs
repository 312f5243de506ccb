//! Storage and wire encoding of a voxel world: bit-packed paletted arrays,
//! 16×16×16 sections with a write overlay, chunks, plots, and the packets that
//! carry them to clients.

pub mod bit_buffer;
pub mod chunk;
pub mod clientbound;
pub mod codec;
pub mod items;
pub mod packets;
pub mod palette;
pub mod plot;
pub mod section;
