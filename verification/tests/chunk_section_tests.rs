use minecraft_schematic_utils::chunk_section::{ChunkSection, SECTION_SIZE, SECTION_VOLUME};
use minecraft_schematic_utils::BlockState;

#[test]
fn test_new_chunk_section() {
    let section = ChunkSection::new();
    assert_eq!(section.block_count(), 0);
    assert!(section.is_empty());
    assert_eq!(section.palette.len(), 1);
    assert_eq!(section.palette[0].name, "minecraft:air");
}

#[test]
fn chunk_section_test_set_and_get_block() {
    let mut section = ChunkSection::new();
    let stone = BlockState::new("minecraft:stone".to_string());

    section.set_block(0, 0, 0, stone.clone());
    assert_eq!(section.get_block(0, 0, 0), &stone);
    assert_eq!(section.block_count(), 1);

    // Check that air blocks don't increase the block count
    section.set_block(1, 1, 1, BlockState::new("minecraft:air".to_string()));
    assert_eq!(section.block_count(), 1);
}

#[test]
fn test_palette_efficiency() {
    let mut section = ChunkSection::new();
    let stone = BlockState::new("minecraft:stone".to_string());

    for x in 0..SECTION_SIZE {
        for y in 0..SECTION_SIZE {
            for z in 0..SECTION_SIZE {
                section.set_block(x, y, z, stone.clone());
            }
        }
    }

    assert_eq!(section.palette.len(), 2); // air and stone
    assert_eq!(section.block_count(), SECTION_VOLUME as u32);
}

#[test]
fn chunk_section_count_follows_overwrites() {
    let mut section = ChunkSection::new();
    let stone = BlockState::new("minecraft:stone".to_string());
    let air = BlockState::new("minecraft:air".to_string());
    assert!(section.set_block(3, 4, 5, stone.clone()));
    assert!(section.set_block(3, 4, 5, stone.clone()));
    assert_eq!(section.block_count(), 1);
    assert_eq!(section.get_index(3, 4, 5), 4 * 256 + 5 * 16 + 3);
    assert!(section.set_block(3, 4, 5, air.clone()));
    assert_eq!(section.block_count(), 0);
    assert!(section.is_empty());
    assert_eq!(section.get_block(3, 4, 5), &air);
}

#[test]
fn section_palette_takes_each_block_once() {
    let mut section = ChunkSection::new();
    let stone = BlockState::new("minecraft:stone".to_string());
    assert_eq!(section.get_or_insert_in_palette(BlockState::new("minecraft:air".to_string())), 0);
    assert_eq!(section.get_or_insert_in_palette(stone.clone()), 1);
    assert_eq!(section.get_or_insert_in_palette(stone.clone()), 1);
    assert_eq!(section.palette.len(), 2);
    assert!(section.is_empty());
}

#[test]
fn section_copy_is_independent() {
    let mut section = ChunkSection::new();
    let stone = BlockState::new("minecraft:stone".to_string());
    section.set_block(1, 2, 3, stone.clone());
    let copy = section.clone();
    section.set_block(1, 2, 3, BlockState::new("minecraft:air".to_string()));
    assert_eq!(copy.get_block(1, 2, 3), &stone);
    assert_eq!(copy.block_count(), 1);
    assert_eq!(copy.blocks.len(), SECTION_VOLUME);
    assert!(section.is_empty());
}
