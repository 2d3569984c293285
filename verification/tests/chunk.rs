use minecraft_but_optimized::world::block::{AIR, DIRT, GRASS, STONE};
use minecraft_but_optimized::world::chunk::{voxel_index, BitBuffer, Chunk, VOLUME};

#[test]
fn uniform_chunk_reads_back_everywhere() {
    let chunk = Chunk::uniform(STONE);
    assert_eq!(chunk.get(0, 0, 0), STONE);
    assert_eq!(chunk.get(31, 31, 31), STONE);
    assert!(!chunk.is_empty());
    assert!(Chunk::empty().is_empty());
}

#[test]
fn set_promotes_uniform_to_palette_and_back_reads_correctly() {
    let mut chunk = Chunk::uniform(AIR);
    chunk.set(5, 6, 7, STONE);
    assert_eq!(chunk.get(5, 6, 7), STONE);
    assert_eq!(chunk.get(0, 0, 0), AIR);
}

#[test]
fn palette_grows_as_more_distinct_blocks_are_set() {
    let mut chunk = Chunk::uniform(AIR);
    let blocks = [STONE, DIRT, GRASS, 10, 11, 12, 13, 14, 15, 16, 17];
    for (i, &b) in blocks.iter().enumerate() {
        chunk.set(i, 0, 0, b);
    }
    for (i, &b) in blocks.iter().enumerate() {
        assert_eq!(chunk.get(i, 0, 0), b);
    }
    assert_eq!(chunk.get(20, 0, 0), AIR);
}

#[test]
fn from_dense_matches_manual_sets() {
    let mut dense = vec![AIR; VOLUME];
    dense[voxel_index(1, 2, 3)] = STONE;
    dense[voxel_index(4, 5, 6)] = DIRT;

    let chunk = Chunk::from_dense(&dense);
    assert_eq!(chunk.get(1, 2, 3), STONE);
    assert_eq!(chunk.get(4, 5, 6), DIRT);
    assert_eq!(chunk.get(0, 0, 0), AIR);
}

#[test]
fn bit_buffer_roundtrips_values_at_every_width() {
    for bits in 1u8..=16 {
        let mut buf = BitBuffer::new(100, bits);
        let max = (1u32 << bits) - 1;
        for i in 0..100 {
            buf.set(i, (i as u32 * 37) % (max + 1));
        }
        for i in 0..100 {
            assert_eq!(buf.get(i), (i as u32 * 37) % (max + 1));
        }
    }
}

#[test]
fn write_then_read_leaves_other_voxels_alone() {
    let mut chunk = Chunk::uniform(DIRT);
    chunk.set(31, 0, 31, STONE);
    chunk.set(0, 31, 0, GRASS);
    chunk.set(31, 0, 31, AIR);
    assert_eq!(chunk.get(31, 0, 31), AIR);
    assert_eq!(chunk.get(0, 31, 0), GRASS);
    assert_eq!(chunk.get(30, 0, 31), DIRT);
    assert_eq!(chunk.get(31, 1, 31), DIRT);
}

#[test]
fn bit_buffer_keeps_only_the_low_bits_of_a_wide_value() {
    let mut buf = BitBuffer::new(10, 3);
    buf.set(4, 0b1101);
    assert_eq!(buf.get(4), 0b101);
    assert_eq!(buf.get(3), 0);
    assert_eq!(buf.get(5), 0);
}

#[test]
fn bit_buffer_entries_straddling_words_read_back() {
    let mut buf = BitBuffer::new(40, 7);
    for i in 0..40 {
        buf.set(i, (i as u32 * 13 + 5) % 128);
    }
    for i in 0..40 {
        assert_eq!(buf.get(i), (i as u32 * 13 + 5) % 128);
    }
}

#[test]
fn from_dense_of_one_block_is_uniform_and_of_two_is_not() {
    let dense = vec![STONE; VOLUME];
    let chunk = Chunk::from_dense(&dense);
    assert_eq!(chunk.get(17, 3, 9), STONE);
    assert!(!chunk.is_empty());
    let air = Chunk::from_dense(&vec![AIR; VOLUME]);
    assert!(air.is_empty());
    let mut mixed = vec![AIR; VOLUME];
    mixed[VOLUME - 1] = STONE;
    let chunk = Chunk::from_dense(&mixed);
    assert!(!chunk.is_empty());
    assert_eq!(chunk.get(31, 31, 31), STONE);
}

#[test]
fn voxel_index_is_x_then_z_then_y() {
    assert_eq!(voxel_index(0, 0, 0), 0);
    assert_eq!(voxel_index(1, 0, 0), 1);
    assert_eq!(voxel_index(0, 0, 1), 32);
    assert_eq!(voxel_index(0, 1, 0), 1024);
    assert_eq!(voxel_index(31, 31, 31), VOLUME - 1);
}

#[test]
fn writing_another_block_into_an_empty_chunk_makes_it_non_empty() {
    let mut chunk = Chunk::empty();
    chunk.set(0, 0, 0, AIR);
    assert!(chunk.is_empty());
    chunk.set(4, 5, 6, STONE);
    assert!(!chunk.is_empty());
    assert_eq!(chunk.get(4, 5, 6), STONE);
    // Written back to air everywhere, the chunk stays palette-stored.
    chunk.set(4, 5, 6, AIR);
    assert!(!chunk.is_empty());
    assert_eq!(chunk.get(4, 5, 6), AIR);
}

#[test]
fn bit_buffer_reads_back_the_last_of_several_writes() {
    let mut buf = BitBuffer::new(10, 5);
    buf.set(3, 7);
    buf.set(4, 31);
    buf.set(3, 12);
    buf.set(2, 40);
    assert_eq!(buf.get(3), 12);
    assert_eq!(buf.get(4), 31);
    assert_eq!(buf.get(2), 40 & 31);
    assert_eq!(buf.get(5), 0);
}
