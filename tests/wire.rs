use mchprs_storage::clientbound::{
    C3BMultiBlockChangeRecord, CChunkData, CChunkDataBlockEntity, CChunkDataSection,
    CMultiBlockChange, ClientBoundPacket, PalettedContainer,
};
use mchprs_storage::codec::{
    read_bool, read_byte, read_bytes, read_int, read_short, read_unsigned_byte,
    read_unsigned_short, read_long, read_position, read_varint, read_varlong, write_bool, write_int, write_long,
    write_position, write_short, write_string, write_varint, write_varlong, PacketDecodeError,
};
use mchprs_storage::packets::{frame_compressed, PacketEncoder};
use std::io::Read;

#[test]
fn varint_known_encodings() {
    assert_eq!(PacketEncoder::varint(0), vec![0x00]);
    assert_eq!(PacketEncoder::varint(1), vec![0x01]);
    assert_eq!(PacketEncoder::varint(127), vec![0x7F]);
    assert_eq!(PacketEncoder::varint(128), vec![0x80, 0x01]);
    assert_eq!(PacketEncoder::varint(300), vec![0xAC, 0x02]);
    assert_eq!(PacketEncoder::varint(2147483647), vec![0xFF, 0xFF, 0xFF, 0xFF, 0x07]);
    assert_eq!(PacketEncoder::varint(-1), vec![0xFF, 0xFF, 0xFF, 0xFF, 0x0F]);
    assert_eq!(PacketEncoder::varint(-2147483648), vec![0x80, 0x80, 0x80, 0x80, 0x08]);
}

#[test]
fn varint_round_trip() {
    for v in [0, 1, -1, 127, 128, 255, 25565, 2097151, 2147483647, -2147483648, -12345] {
        let mut buf = vec![0xAA];
        write_varint(&mut buf, v);
        buf.push(0x55);
        let (got, next) = read_varint(&buf, 1).unwrap();
        assert_eq!(got, v);
        assert_eq!(buf[next], 0x55);
    }
}

#[test]
fn varlong_round_trip() {
    for v in [0i64, 1, -1, 127, 128, 2147483647, -2147483648, i64::MAX, i64::MIN, 1 << 40] {
        let mut buf = Vec::new();
        write_varlong(&mut buf, v);
        assert!(buf.len() <= 10);
        let (got, next) = read_varlong(&buf, 0).unwrap();
        assert_eq!(got, v);
        assert_eq!(next, buf.len());
    }
    let mut buf = Vec::new();
    write_varlong(&mut buf, -1);
    assert_eq!(buf, vec![0xFF, 0xFF, 0xFF, 0xFF, 0xFF, 0xFF, 0xFF, 0xFF, 0xFF, 0x01]);
}

#[test]
fn varint_too_long_fails() {
    let buf = [0x80u8, 0x80, 0x80, 0x80, 0x80, 0x80, 0x01];
    assert_eq!(read_varint(&buf, 0), Err(PacketDecodeError::VarIntTooBig));
    let buf = [0xFFu8; 5];
    assert_eq!(read_varint(&buf, 0), Err(PacketDecodeError::VarIntTooBig));
    let buf = [0x80u8, 0x80];
    assert_eq!(read_varint(&buf, 0), Err(PacketDecodeError::Io));
    assert_eq!(read_varint(&buf, 2), Err(PacketDecodeError::Io));
    let buf = [0xFFu8; 11];
    assert_eq!(read_varlong(&buf, 0), Err(PacketDecodeError::VarIntTooBig));
}

#[test]
fn fixed_width_integers_are_big_endian() {
    let mut buf = Vec::new();
    write_long(&mut buf, 0x0102030405060708);
    write_int(&mut buf, -2);
    write_short(&mut buf, 0x1234);
    write_bool(&mut buf, true);
    write_bool(&mut buf, false);
    assert_eq!(
        buf,
        vec![1, 2, 3, 4, 5, 6, 7, 8, 0xFF, 0xFF, 0xFF, 0xFE, 0x12, 0x34, 1, 0]
    );
    assert_eq!(read_long(&buf, 0), Ok((0x0102030405060708, 8)));
    assert_eq!(read_long(&buf, 10), Err(PacketDecodeError::Io));
}

#[test]
fn string_is_length_prefixed() {
    let mut buf = Vec::new();
    write_string(&mut buf, 16, "héllo");
    assert_eq!(buf, vec![6, b'h', 0xC3, 0xA9, b'l', b'l', b'o']);
}

#[test]
fn position_packing() {
    let mut buf = Vec::new();
    write_position(&mut buf, 18357644, 831, -20882616);
    assert_eq!(buf, 0x4607632C15B4833Fu64.to_be_bytes().to_vec());
    assert_eq!(read_position(&buf, 0), Ok(((18357644, 831, -20882616), 8)));
    for (x, y, z) in [(0, 0, 0), (-1, -1, -1), (33554431, 2047, -33554432), (-33554432, -2048, 33554431)] {
        let mut buf = Vec::new();
        write_position(&mut buf, x, y, z);
        assert_eq!(read_position(&buf, 0), Ok(((x, y, z), 8)));
    }
}

#[test]
fn uncompressed_framing() {
    let packet = PacketEncoder::new(vec![1, 2, 3], 0x22);
    assert_eq!(packet.write_uncompressed(), vec![4, 0x22, 1, 2, 3]);
}

#[test]
fn compressed_framing_short_packet() {
    let packet = PacketEncoder::new(vec![1, 2, 3], 0x3F);
    assert_eq!(packet.write_compressed().unwrap(), vec![5, 0, 0x3F, 1, 2, 3]);
}

#[test]
fn compressed_framing_long_packet() {
    let body = vec![7u8; 300];
    let packet = PacketEncoder::new(body.clone(), 0x22);
    let framed = packet.write_compressed().unwrap();
    let mut data = vec![0x22];
    data.extend_from_slice(&body);
    let (length, after_length) = read_varint(&framed, 0).unwrap();
    assert_eq!(length as usize, framed.len() - after_length);
    let (data_length, after_data_length) = read_varint(&framed, after_length).unwrap();
    assert_eq!(data_length, 301);
    let compressed = &framed[after_data_length..];
    assert_ne!(compressed, &data[..]);
    assert!(compressed.len() < data.len());
    let mut decoder = flate2::read::ZlibDecoder::new(compressed);
    let mut inflated = Vec::new();
    decoder.read_to_end(&mut inflated).unwrap();
    assert_eq!(inflated, data);
}

#[test]
fn frame_compressed_layout() {
    let framed = frame_compressed(&vec![1, 2, 3], &vec![9, 9]);
    assert_eq!(framed, vec![3, 3, 9, 9]);
}

#[test]
fn chunk_data_layout() {
    let packet = CChunkData {
        chunk_x: 1,
        chunk_z: -2,
        heightmaps: vec![0x0A, 0, 0, 0],
        chunk_sections: vec![CChunkDataSection {
            block_count: 5,
            block_states: PalettedContainer { bits_per_entry: 0, palette: Some(vec![9]), data_array: vec![] },
            biomes: PalettedContainer {
                bits_per_entry: 4,
                palette: Some(vec![0, 1]),
                data_array: vec![0x0123456789ABCDEF],
            },
        }],
        block_entities: vec![CChunkDataBlockEntity { x: 3, z: 4, y: 70, ty: 7, data: vec![0xAA] }],
    };
    let expected: Vec<u8> = vec![
        0, 0, 0, 1, 0xFF, 0xFF, 0xFF, 0xFE, 0x0A, 0, 0, 0, 18, 0, 5, 0, 9, 0, 4, 2, 0, 1, 1, 0x01,
        0x23, 0x45, 0x67, 0x89, 0xAB, 0xCD, 0xEF, 1, 0x34, 0, 70, 7, 0xAA, 1, 0, 0, 1, 0, 0, 0, 0,
        0, 3, 0xFF, 0xFF, 1, 0, 0, 0, 0, 0, 3, 0xFF, 0xFF, 0, 0,
    ];
    assert_eq!(packet.payload(), expected);
    let encoded = packet.encode();
    assert_eq!(encoded.packet_id(), 0x22);
    assert_eq!(encoded.buffer(), &expected);
}

#[test]
fn direct_container_has_no_palette() {
    let container = PalettedContainer { bits_per_entry: 15, palette: None, data_array: vec![1] };
    let mut wire = Vec::new();
    container.write(&mut wire);
    assert_eq!(wire, vec![15, 1, 0, 0, 0, 0, 0, 0, 0, 1]);
}

#[test]
fn multi_block_change_layout() {
    let packet = CMultiBlockChange {
        chunk_x: 1,
        chunk_z: -1,
        chunk_y: 4,
        records: vec![C3BMultiBlockChangeRecord { x: 1, y: 2, z: 3, block_id: 5 }],
    };
    let pos: u64 = (1u64 << 42) | (0x3FFFFFu64 << 20) | 4;
    let mut expected = pos.to_be_bytes().to_vec();
    expected.extend_from_slice(&[1, 1, 0xB2, 0xA2, 0x01]);
    assert_eq!(packet.payload(), expected);
    assert_eq!(packet.encode().packet_id(), 0x3F);
}

#[test]
fn chunk_to_packet_sections() {
    let mut chunk = mchprs_storage::chunk::Chunk::empty(2, 3);
    chunk.set_block(0, 0, 0, 9);
    let packet = chunk.to_packet(vec![0x0A, 0, 0, 0]);
    assert_eq!(packet.chunk_x, 2);
    assert_eq!(packet.chunk_z, 3);
    assert_eq!(packet.chunk_sections.len(), 16);
    assert_eq!(packet.chunk_sections[0].block_count, 1);
    assert_eq!(packet.chunk_sections[0].block_states.palette, Some(vec![0, 9]));
    assert_eq!(packet.chunk_sections[1].block_count, 0);
    assert_eq!(packet.chunk_sections[1].block_states.bits_per_entry, 0);
    assert_eq!(packet.chunk_sections[1].block_states.palette, Some(vec![0]));
    assert_eq!(packet.chunk_sections[1].biomes.palette, Some(vec![0]));
}

#[test]
fn string_round_trip_and_bad_utf8() {
    let mut buf = Vec::new();
    write_string(&mut buf, 16, "héllo");
    buf.push(0x42);
    let (s, next) = mchprs_storage::codec::read_string(&buf, 0).unwrap();
    assert_eq!(s, "héllo");
    assert_eq!(buf[next], 0x42);
    assert_eq!(
        mchprs_storage::codec::read_string(&[2, 0xC3, 0x28], 0),
        Err(PacketDecodeError::FromUtf8)
    );
    assert_eq!(mchprs_storage::codec::read_string(&[5, b'a'], 0), Err(PacketDecodeError::Io));
    assert_eq!(
        mchprs_storage::codec::read_string(&[0xFF, 0xFF, 0xFF, 0xFF, 0x0F], 0),
        Err(PacketDecodeError::Io)
    );
}

#[test]
fn fixed_width_reads() {
    let mut buf = Vec::new();
    write_int(&mut buf, -123456);
    write_short(&mut buf, -2);
    write_bool(&mut buf, true);
    buf.push(0x80);
    assert_eq!(read_int(&buf, 0), Ok((-123456, 4)));
    assert_eq!(read_short(&buf, 4), Ok((-2, 6)));
    assert_eq!(read_unsigned_short(&buf, 4), Ok((0xFFFE, 6)));
    assert_eq!(read_bool(&buf, 6), Ok((true, 7)));
    assert_eq!(read_bool(&buf, 7), Ok((false, 8)));
    assert_eq!(read_byte(&buf, 7), Ok((-128, 8)));
    assert_eq!(read_unsigned_byte(&buf, 7), Ok((0x80, 8)));
    assert_eq!(read_unsigned_byte(&buf, 8), Err(PacketDecodeError::Io));
    assert_eq!(read_int(&buf, 6), Err(PacketDecodeError::Io));
    assert_eq!(read_short(&buf, 7), Err(PacketDecodeError::Io));
    assert_eq!(read_bytes(&buf, 4, 3), Ok((vec![0xFF, 0xFE, 1], 7)));
    assert_eq!(read_bytes(&buf, 4, 5), Err(PacketDecodeError::Io));
}

#[test]
fn slot_data_layout() {
    let mut buf = Vec::new();
    mchprs_storage::codec::write_slot_data(&mut buf, &None);
    assert_eq!(buf, vec![0]);
    let slot = mchprs_storage::codec::SlotData { item_id: 300, item_count: 3, nbt: None };
    let mut buf = Vec::new();
    mchprs_storage::codec::write_slot_data(&mut buf, &Some(slot));
    assert_eq!(buf, vec![1, 0xAC, 0x02, 3, 0]);
    let slot = mchprs_storage::codec::SlotData { item_id: 1, item_count: -1, nbt: Some(vec![0x0A, 0]) };
    let mut buf = Vec::new();
    mchprs_storage::codec::write_slot_data(&mut buf, &Some(slot));
    assert_eq!(buf, vec![1, 1, 0xFF, 0x0A, 0]);
}

#[test]
fn uuid_is_sixteen_big_endian_bytes() {
    let mut buf = Vec::new();
    mchprs_storage::codec::write_uuid(&mut buf, 0x0102030405060708090A0B0C0D0E0F10);
    assert_eq!(buf, (1u8..=16).collect::<Vec<u8>>());
}
