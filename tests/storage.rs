use mchprs_storage::bit_buffer::BitBuffer;
use mchprs_storage::chunk::{BlockEntity, BlockPos, Chunk, ChunkData};
use mchprs_storage::items::ActionResult;
use mchprs_storage::palette::PalettedBitBuffer;
use mchprs_storage::plot::{sleep_time_for_tps, PlotWorld, TickPriority, Tps, NUM_CHUNKS};
use mchprs_storage::section::{ChunkSection, SECTION_CELLS};

#[test]
fn bitbuffer_format() {
    let entries = [
        1, 2, 2, 3, 4, 4, 5, 6, 6, 4, 8, 0, 7, 4, 3, 13, 15, 16, 9, 14, 10, 12, 0, 2,
    ];
    let mut buffer = BitBuffer::create(5, 24);
    for (i, entry) in entries.iter().enumerate() {
        buffer.set_entry(i, *entry);
    }
    assert_eq!(buffer.longs()[0], 0x0020863148418841);
    assert_eq!(buffer.longs()[1], 0x01018A7260F68C87);
}

#[test]
fn chunk_save_and_load_test() {
    let mut chunk = Chunk::empty(1, 1);
    chunk.set_block(13, 63, 12, 332);
    chunk.set_block(13, 62, 12, 331);
    let chunk_data = chunk.save();
    let loaded_chunk = Chunk::load(1, 1, chunk_data);
    assert_eq!(loaded_chunk.get_block(13, 63, 12), 332);
    assert_eq!(loaded_chunk.get_block(13, 62, 12), 331);
    assert_eq!(loaded_chunk.get_block(13, 64, 12), 0);
}

#[test]
fn bitbuffer_write_leaves_others() {
    let mut buffer = BitBuffer::create(7, 40);
    for i in 0..40 {
        buffer.set_entry(i, (i as u32 * 3) % 128);
    }
    buffer.set_entry(17, 127);
    for i in 0..40 {
        let expected = if i == 17 { 127 } else { (i as u32 * 3) % 128 };
        assert_eq!(buffer.get_entry(i), expected);
    }
    assert_eq!(buffer.len(), 40);
    assert_eq!(buffer.longs().len(), 5);
}

#[test]
fn palette_widens_then_goes_direct() {
    let mut buffer = PalettedBitBuffer::new(4096, 9);
    assert_eq!(buffer.bits_per_entry(), 4);
    assert!(!buffer.uses_direct());
    let mut last_bits = buffer.bits_per_entry();
    let mut went_direct = false;
    for v in 1..600u32 {
        buffer.set_entry(v as usize, v * 7);
        let bits = buffer.bits_per_entry();
        assert!(bits >= last_bits);
        if went_direct {
            assert!(buffer.uses_direct());
        }
        went_direct = buffer.uses_direct();
        last_bits = bits;
    }
    assert!(went_direct);
    assert_eq!(buffer.bits_per_entry(), 15);
    for v in 1..600usize {
        assert_eq!(buffer.get_entry(v), v as u32 * 7);
    }
    assert_eq!(buffer.get_entry(0), 0);
    assert_eq!(buffer.get_entry(700), 0);
}

#[test]
fn palette_width_ladder() {
    let mut buffer = PalettedBitBuffer::new(64, 9);
    for v in 1..16u32 {
        buffer.set_entry(v as usize, v);
    }
    assert_eq!(buffer.bits_per_entry(), 4);
    assert_eq!(buffer.palette().len(), 16);
    buffer.set_entry(16, 100);
    assert_eq!(buffer.bits_per_entry(), 5);
    assert!(!buffer.uses_direct());
    assert_eq!(buffer.palette()[16], 100);
    assert_eq!(buffer.get_entry(16), 100);
    assert_eq!(buffer.get_entry(15), 15);
    assert_eq!(buffer.entries(), 64);
}

#[test]
fn biome_threshold_goes_direct_at_first_growth() {
    let mut buffer = PalettedBitBuffer::new(64, 4);
    for v in 1..17u32 {
        buffer.set_entry(v as usize, v);
    }
    assert!(buffer.uses_direct());
    assert_eq!(buffer.bits_per_entry(), 15);
    for v in 1..17usize {
        assert_eq!(buffer.get_entry(v), v as u32);
    }
}

#[test]
fn section_round_trip_through_save() {
    let mut section = ChunkSection::new();
    let mut expected = vec![0u32; SECTION_CELLS];
    for i in 0..SECTION_CELLS as u32 {
        let (x, y, z) = (i % 16, i / 256, (i / 16) % 16);
        let v = if i % 3 == 0 { (i * 13) % 700 } else { 0 };
        section.set_block(x, y, z, v);
        expected[ChunkSection::get_index(x, y, z)] = v;
    }
    let saved = section.save();
    assert!(saved.is_some());
    let loaded = ChunkSection::load(saved);
    for i in 0..SECTION_CELLS as u32 {
        let (x, y, z) = (i % 16, i / 256, (i / 16) % 16);
        assert_eq!(loaded.get_block(x, y, z), expected[ChunkSection::get_index(x, y, z)]);
        assert_eq!(section.get_block(x, y, z), expected[ChunkSection::get_index(x, y, z)]);
    }
}

#[test]
fn section_counts_non_empty_cells() {
    let mut section = ChunkSection::new();
    assert!(section.set_block(0, 0, 0, 5));
    assert!(section.set_block(1, 0, 0, 6));
    assert!(section.set_block(2, 3, 4, 7));
    assert!(!section.set_block(2, 3, 4, 7));
    assert!(section.set_block(1, 0, 0, 0));
    assert!(section.set_block(0, 0, 0, 9));
    assert_eq!(section.block_count(), 2);
    let saved = section.save().unwrap();
    assert_eq!(saved.block_count, 2);
    assert_eq!(ChunkSection::load(Some(saved)).block_count(), 2);
}

#[test]
fn section_never_written_is_absent() {
    let mut section = ChunkSection::new();
    assert!(section.save().is_none());
    section.set_block(4, 5, 6, 0);
    section.set_block(15, 15, 15, 0);
    assert!(section.save().is_none());
    let mut touched = ChunkSection::new();
    touched.set_block(4, 5, 6, 3);
    touched.set_block(4, 5, 6, 0);
    assert_eq!(touched.get_block(4, 5, 6), 0);
}

#[test]
fn chunk_of_absent_sections_loads_empty() {
    let data = ChunkData { sections: (0..16).map(|_| None).collect(), block_entities: Vec::new() };
    let chunk = Chunk::load(3, 4, data);
    for y in (0..256).step_by(7) {
        assert_eq!(chunk.get_block(5, y, 9), 0);
    }
    let mut empty = Chunk::empty(0, 0);
    let saved = empty.save();
    assert!(saved.sections.iter().all(|s| s.is_none()));
}

#[test]
fn single_value_section_encodes_width_zero() {
    let mut section = ChunkSection::new();
    for y in 0..16 {
        for z in 0..16 {
            for x in 0..16 {
                section.set_block(x, y, z, 9);
            }
        }
    }
    let container = section.block_states();
    assert_eq!(container.bits_per_entry, 0);
    assert_eq!(container.palette, Some(vec![9]));
    assert!(container.data_array.is_empty());
    let mut wire = Vec::new();
    container.write(&mut wire);
    assert_eq!(wire, vec![0, 9, 0]);
}

#[test]
fn mixed_section_encodes_its_palette() {
    let mut section = ChunkSection::new();
    section.set_block(0, 0, 0, 9);
    let container = section.block_states();
    assert_eq!(container.bits_per_entry, 4);
    assert_eq!(container.palette, Some(vec![0, 9]));
    assert_eq!(container.data_array.len(), 256);
    assert_eq!(container.data_array[0], 1);
}

#[test]
fn overlay_value_persists_without_flush() {
    let mut section = ChunkSection::new();
    section.set_block(1, 2, 3, 5);
    section.set_block(1, 2, 3, 7);
    assert_eq!(section.get_block(1, 2, 3), 7);
    let saved = section.save();
    let loaded = ChunkSection::load(saved);
    assert_eq!(loaded.get_block(1, 2, 3), 7);
    assert_eq!(section.get_block(1, 2, 3), 7);
}

#[test]
fn compress_keeps_values() {
    let mut section = ChunkSection::new();
    for v in 1..40u32 {
        section.set_block(v % 16, v / 16, 0, v);
    }
    for v in 1..40u32 {
        section.set_block(v % 16, v / 16, 0, 2);
    }
    section.save();
    section.compress();
    for v in 1..40u32 {
        assert_eq!(section.get_block(v % 16, v / 16, 0), 2);
    }
    let mut chunk = Chunk::empty(0, 0);
    chunk.set_block(1, 100, 2, 44);
    chunk.compress();
    assert_eq!(chunk.get_block(1, 100, 2), 44);
}

#[test]
fn chunk_height_out_of_range_is_a_no_op() {
    let mut chunk = Chunk::empty(0, 0);
    assert!(!chunk.set_block(1, 256, 1, 10));
    assert!(!chunk.set_block(1, 9999, 1, 10));
    assert_eq!(chunk.get_block(1, 256, 1), 0);
    assert!(chunk.set_block(1, 255, 1, 10));
    assert_eq!(chunk.get_block(1, 255, 1), 10);
}

#[test]
fn chunk_block_entities_are_keyed_by_position() {
    let mut chunk = Chunk::empty(0, 0);
    let a = BlockPos::new(1, 2, 3);
    let b = BlockPos::new(4, 5, 6);
    chunk.set_block_entity(a, BlockEntity { ty: 1, data: vec![1] });
    chunk.set_block_entity(b, BlockEntity { ty: 2, data: vec![2] });
    chunk.set_block_entity(a, BlockEntity { ty: 3, data: vec![3] });
    assert_eq!(chunk.get_block_entity(a).unwrap().ty, 3);
    assert_eq!(chunk.get_block_entity(b).unwrap().data, vec![2]);
    chunk.delete_block_entity(a);
    assert!(chunk.get_block_entity(a).is_none());
    assert_eq!(chunk.get_block_entity(b).unwrap().ty, 2);
    let saved = chunk.save();
    let loaded = Chunk::load(0, 0, saved);
    assert_eq!(loaded.get_block_entity(b).unwrap().ty, 2);
    assert!(loaded.get_block_entity(a).is_none());
}

fn empty_plot_world(x: i32, z: i32) -> PlotWorld {
    let chunks = (0..NUM_CHUNKS).map(|i| Chunk::empty(i as i32 / 16, i as i32 % 16)).collect();
    PlotWorld::new(x, z, chunks, Vec::new())
}

#[test]
fn plot_reads_and_writes_by_world_position() {
    let mut world = empty_plot_world(1, -1);
    let inside = BlockPos::new(256 + 20, 64, -256 + 3);
    assert!(world.set_block_raw(inside, 17));
    assert_eq!(world.get_block_raw(inside), 17);
    assert!(!world.set_block_raw(inside, 17));
    let outside = BlockPos::new(10, 64, 10);
    assert!(!world.set_block_raw(outside, 5));
    assert_eq!(world.get_block_raw(outside), 0);
    let below = BlockPos::new(256 + 20, -1, -256 + 3);
    assert!(!world.set_block_raw(below, 5));
    let chunk = world.get_chunk(17, -16).unwrap();
    assert_eq!(chunk.get_block(4, 64, 3), 17);
    assert!(world.get_chunk(0, 0).is_none());
}

#[test]
fn plot_corners() {
    let world = empty_plot_world(2, -3);
    let (a, b) = world.get_corners();
    assert_eq!(a, BlockPos::new(512, 0, -768));
    assert_eq!(b, BlockPos::new(767, 255, -513));
}

#[test]
fn plot_ticks_keep_duplicates() {
    let mut world = empty_plot_world(0, 0);
    let pos = BlockPos::new(1, 2, 3);
    assert!(!world.pending_tick_at(pos));
    world.schedule_tick(pos, 2, TickPriority::Normal);
    world.schedule_tick(pos, 4, TickPriority::High);
    assert!(world.pending_tick_at(pos));
    assert!(!world.pending_tick_at(BlockPos::new(1, 2, 4)));
    assert!(!world.is_cursed());
}

#[test]
fn plot_block_entities() {
    let mut world = empty_plot_world(0, 0);
    let pos = BlockPos::new(35, 10, 200);
    world.set_block_entity(pos, BlockEntity { ty: 4, data: vec![9, 9] });
    assert_eq!(world.get_block_entity(pos).unwrap().ty, 4);
    let chunk = world.get_chunk(2, 12).unwrap();
    assert_eq!(chunk.get_block_entity(BlockPos::new(3, 10, 8)).unwrap().ty, 4);
    world.delete_block_entity(pos);
    assert!(world.get_block_entity(pos).is_none());
    world.set_block_entity(BlockPos::new(-5, 0, 0), BlockEntity { ty: 1, data: vec![] });
    assert!(world.get_block_entity(BlockPos::new(-5, 0, 0)).is_none());
}

#[test]
fn action_result_success() {
    assert!(ActionResult::Success.is_success());
    assert!(!ActionResult::Pass.is_success());
}

#[test]
fn tick_rate_sleep() {
    assert_eq!(sleep_time_for_tps(Tps::Limited(20)), 50_000);
    assert_eq!(sleep_time_for_tps(Tps::Limited(1000)), 1_000);
    assert_eq!(sleep_time_for_tps(Tps::Limited(3)), 50_000);
    assert_eq!(sleep_time_for_tps(Tps::Limited(10)), 50_000);
    assert_eq!(sleep_time_for_tps(Tps::Unlimited), 0);
}

#[test]
fn plot_chunk_packet() {
    let mut world = empty_plot_world(0, 0);
    world.set_block_raw(BlockPos::new(33, 5, 2), 12);
    let packet = world.chunk_packet(2, 0, vec![]).unwrap();
    assert_eq!(packet.chunk_sections[0].block_count, 1);
    assert_eq!(packet.chunk_sections[0].block_states.palette, Some(vec![0, 12]));
    assert!(world.chunk_packet(16, 0, vec![]).is_none());
    assert_eq!(world.get_block_raw(BlockPos::new(33, 5, 2)), 12);
}

#[test]
fn stored_section_validity() {
    let mut section = ChunkSection::new();
    section.set_block(0, 0, 0, 9);
    section.set_block(1, 0, 0, 10);
    let saved = section.save().unwrap();
    assert!(saved.is_valid());
    let mut wrong_count = saved.clone();
    wrong_count.block_count = 3;
    assert!(!wrong_count.is_valid());
    let mut short_palette = saved.clone();
    short_palette.palette.truncate(2);
    assert!(!short_palette.is_valid());
    let mut bad_width = saved.clone();
    bad_width.bits_per_block = 0;
    assert!(!bad_width.is_valid());
    let mut bad_id = saved.clone();
    bad_id.palette[1] = 40000;
    assert!(!bad_id.is_valid());
    let mut short_words = saved.clone();
    short_words.data.pop();
    assert!(!short_words.is_valid());
}

#[test]
fn stored_chunk_validity() {
    let mut chunk = Chunk::empty(0, 0);
    chunk.set_block(3, 40, 3, 8);
    chunk.set_block_entity(BlockPos::new(3, 40, 3), BlockEntity { ty: 1, data: vec![] });
    let saved = chunk.save();
    assert!(saved.is_valid());
    let mut twice = chunk.save();
    twice.block_entities.push((BlockPos::new(3, 40, 3), BlockEntity { ty: 2, data: vec![] }));
    assert!(!twice.is_valid());
    let mut short = chunk.save();
    short.sections.pop();
    assert!(!short.is_valid());
}

#[test]
fn chunk_takes_low_bits_of_x_and_z() {
    let mut chunk = Chunk::empty(0, 0);
    assert!(chunk.set_block(17, 5, 33, 4));
    assert_eq!(chunk.get_block(1, 5, 1), 4);
    assert_eq!(chunk.get_block(33, 5, 17), 4);
}

#[test]
fn compress_rebuilds_the_palette_in_index_order() {
    let mut section = ChunkSection::new();
    for v in 1..40u32 {
        section.set_block(v % 16, v / 16, 0, v);
    }
    section.save();
    for v in 1..40u32 {
        section.set_block(v % 16, v / 16, 0, if v % 2 == 0 { 7 } else { 3 });
    }
    section.save();
    section.compress();
    let container = section.block_states();
    assert_eq!(container.bits_per_entry, 4);
    assert_eq!(container.palette, Some(vec![0, 3, 7]));
}

#[test]
fn absent_sections_reload_and_save_as_absent() {
    let data = ChunkData { sections: (0..16).map(|_| None).collect(), block_entities: Vec::new() };
    let mut chunk = Chunk::load(5, 6, data);
    let saved = chunk.save();
    assert!(saved.sections.iter().all(|s| s.is_none()));
}
