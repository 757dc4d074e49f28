use minecraft_schematic_utils::block_entity::{BlockEntity, BlockEntityMap};
use minecraft_schematic_utils::block_position::BlockPosition;
use minecraft_schematic_utils::entity::Entity;
use minecraft_schematic_utils::error::DecodeError;
use minecraft_schematic_utils::region::Region;
use minecraft_schematic_utils::BlockState;

fn bits(position: (f64, f64, f64)) -> (u64, u64, u64) {
    (position.0.to_bits(), position.1.to_bits(), position.2.to_bits())
}

#[test]
fn test_pack_block_states_to_long_array() {
    //array from 1 to 16
    let blocks = (1..=16).collect::<Vec<usize>>();
    let mut palette = vec![BlockState::new("minecraft:air".to_string())];
    for i in 1..=16 {
        palette.push(BlockState::new(format!("minecraft:wool{}", i)));
    }
    let region = Region {
        name: "Test".to_string(),
        position: (0, 0, 0),
        size: (16, 1, 1),
        blocks: blocks.clone(),
        palette,
        entities: Vec::new(),
        block_entities: BlockEntityMap::new(),
    };
    let packed_states = region.create_packed_block_states();
    assert_eq!(packed_states.len(), 2);
    assert_eq!(packed_states, vec![-3013672028691362751, 33756]);

    let unpacked_blocks = region.unpack_block_states(&packed_states).unwrap();
    assert_eq!(unpacked_blocks, blocks);
}

#[test]
fn test_region_creation() {
    let region = Region::new("Test".to_string(), (0, 0, 0), (2, 2, 2));
    assert_eq!(region.name, "Test");
    assert_eq!(region.position, (0, 0, 0));
    assert_eq!(region.size, (2, 2, 2));
    assert_eq!(region.blocks.len(), 8);
    assert_eq!(region.palette.len(), 1);
    assert_eq!(region.palette[0].name, "minecraft:air");
}

#[test]
fn region_test_set_and_get_block() {
    let mut region = Region::new("Test".to_string(), (0, 0, 0), (2, 2, 2));
    let stone = BlockState::new("minecraft:stone".to_string());

    assert!(region.set_block(0, 0, 0, stone.clone()));
    assert_eq!(region.get_block(0, 0, 0), Some(&stone));
    assert_eq!(region.get_block(1, 1, 1), Some(&BlockState::new("minecraft:air".to_string())));
    assert_eq!(region.get_block(2, 2, 2), None);
}

#[test]
fn test_expand_to_fit() {
    let mut region = Region::new("Test".to_string(), (0, 0, 0), (2, 2, 2));
    let stone = BlockState::new("minecraft:stone".to_string());

    region.set_block(0, 0, 0, stone.clone());
    let new_size = (3, 3, 3);
    region.expand_to_fit(new_size.0, new_size.1, new_size.2);

    assert_eq!(region.get_block(0, 0, 0), Some(&stone));
    assert_eq!(region.get_block(3, 3, 3), Some(&BlockState::new("minecraft:air".to_string())));
}

#[test]
fn test_entities() {
    let mut region = Region::new("Test".to_string(), (0, 0, 0), (2, 2, 2));
    let entity = Entity::new("minecraft:creeper".to_string(), bits((0.5, 0.0, 0.5)));

    region.add_entity(entity.clone());
    assert_eq!(region.entities.len(), 1);

    let removed = region.remove_entity(0);
    assert_eq!(removed, Some(entity));
    assert_eq!(region.entities.len(), 0);
}

#[test]
fn test_block_entities() {
    let mut region = Region::new("Test".to_string(), (0, 0, 0), (2, 2, 2));
    let block_entity = BlockEntity::new("minecraft:chest".to_string(), (0, 0, 0));

    region.add_block_entity(block_entity.clone());
    assert_eq!(region.block_entities.len(), 1);

    let removed = region.remove_block_entity((0, 0, 0));
    assert_eq!(removed, Some(block_entity));
    assert_eq!(region.block_entities.len(), 0);
}

#[test]
fn test_count_blocks() {
    let mut region = Region::new("Test".to_string(), (0, 0, 0), (2, 2, 2));
    let stone = BlockState::new("minecraft:stone".to_string());

    assert_eq!(region.count_blocks(), 0);

    region.set_block(0, 0, 0, stone.clone());
    region.set_block(1, 1, 1, stone.clone());

    assert_eq!(region.count_blocks(), 2);
}

#[test]
fn test_region_merge() {
    let mut region1 = Region::new("Test1".to_string(), (0, 0, 0), (2, 2, 2));
    let mut region2 = Region::new("Test2".to_string(), (2, 2, 2), (2, 2, 2));
    let stone = BlockState::new("minecraft:stone".to_string());

    region1.set_block(0, 0, 0, stone.clone());
    region2.set_block(2, 2, 2, stone.clone());

    region1.merge(&region2);

    assert_eq!(region1.size, (4, 4, 4));
    assert_eq!(region1.get_block(0, 0, 0), Some(&stone));
    assert_eq!(region1.get_block(2, 2, 2), Some(&stone));
}

#[test]
fn test_region_merge_different_palettes() {
    let mut region1 = Region::new("Test1".to_string(), (0, 0, 0), (2, 2, 2));
    let mut region2 = Region::new("Test2".to_string(), (2, 2, 2), (2, 2, 2));
    let stone = BlockState::new("minecraft:stone".to_string());
    let dirt = BlockState::new("minecraft:dirt".to_string());

    region1.set_block(0, 0, 0, stone.clone());
    region2.set_block(2, 2, 2, dirt.clone());

    region1.merge(&region2);

    assert_eq!(region1.size, (4, 4, 4));
    assert_eq!(region1.get_block(0, 0, 0), Some(&stone));
    assert_eq!(region1.get_block(2, 2, 2), Some(&dirt));
}

#[test]
fn test_region_merge_different_overlapping_palettes() {
    let mut region1 = Region::new("Test1".to_string(), (0, 0, 0), (2, 2, 2));
    let mut region2 = Region::new("Test2".to_string(), (1, 1, 1), (2, 2, 2));
    let stone = BlockState::new("minecraft:stone".to_string());
    let dirt = BlockState::new("minecraft:dirt".to_string());

    region1.set_block(0, 0, 0, stone.clone());
    region1.set_block(1, 1, 1, dirt.clone());

    region2.set_block(2, 2, 2, dirt.clone());

    region1.merge(&region2);

    assert_eq!(region1.size, (3, 3, 3));
    assert_eq!(region1.get_block(0, 0, 0), Some(&stone));
    assert_eq!(region1.get_block(1, 1, 1), Some(&dirt));
    assert_eq!(region1.get_block(2, 2, 2), Some(&dirt));
}

#[test]
fn test_expand_to_fit_single_block() {
    let mut region = Region::new("Test".to_string(), (0, 0, 0), (2, 2, 2));
    let stone = BlockState::new("minecraft:stone".to_string());

    // Place a block at the farthest corner to trigger resizing
    region.set_block(3, 3, 3, stone.clone());

    assert_eq!(region.position, (0, 0, 0));
    assert_eq!(region.get_block(3, 3, 3), Some(&stone));
    assert_eq!(region.get_block(0, 0, 0), Some(&BlockState::new("minecraft:air".to_string())));
}

#[test]
fn test_expand_to_fit_negative_coordinates() {
    let mut region = Region::new("Test".to_string(), (0, 0, 0), (2, 2, 2));
    let dirt = BlockState::new("minecraft:dirt".to_string());

    // Place a block at a negative coordinate to trigger resizing
    region.set_block(-1, -1, -1, dirt.clone());

    assert_eq!(region.position, (-1, -1, -1)); // Expect region to shift
    assert_eq!(region.get_block(-1, -1, -1), Some(&dirt));
    assert_eq!(region.get_block(0, 0, 0), Some(&BlockState::new("minecraft:air".to_string())));
}

#[test]
fn test_expand_to_fit_large_positive_coordinates() {
    let mut region = Region::new("Test".to_string(), (0, 0, 0), (2, 2, 2));
    let stone = BlockState::new("minecraft:stone".to_string());

    // Place a block far away to trigger significant resizing
    region.set_block(10, 10, 10, stone.clone());

    assert_eq!(region.position, (0, 0, 0));
    assert_eq!(region.get_block(10, 10, 10), Some(&stone));
}

#[test]
fn test_expand_to_fit_corner_to_corner() {
    let mut region = Region::new("Test".to_string(), (0, 0, 0), (2, 2, 2));
    let stone = BlockState::new("minecraft:stone".to_string());
    let dirt = BlockState::new("minecraft:dirt".to_string());

    // Place a block at one corner
    region.set_block(0, 0, 0, stone.clone());

    // Place another block far from the first to trigger resizing
    region.set_block(4, 4, 4, dirt.clone());

    assert_eq!(region.get_block(0, 0, 0), Some(&stone));
    assert_eq!(region.get_block(4, 4, 4), Some(&dirt));
}

#[test]
fn test_expand_to_fit_multiple_expansions() {
    let mut region = Region::new("Test".to_string(), (0, 0, 0), (2, 2, 2));
    let stone = BlockState::new("minecraft:stone".to_string());

    // Perform multiple expansions
    region.set_block(3, 3, 3, stone.clone());
    region.set_block(7, 7, 7, stone.clone());
    region.set_block(-2, -2, -2, stone.clone());

    assert_eq!(region.position, (-2, -2, -2)); // Position should shift
    assert_eq!(region.get_block(3, 3, 3), Some(&stone));
    assert_eq!(region.get_block(7, 7, 7), Some(&stone));
    assert_eq!(region.get_block(-2, -2, -2), Some(&stone));
}

#[test]
fn test_expand_to_fit_with_existing_blocks() {
    let mut region = Region::new("Test".to_string(), (0, 0, 0), (3, 3, 3));
    let stone = BlockState::new("minecraft:stone".to_string());
    let dirt = BlockState::new("minecraft:dirt".to_string());

    // Place blocks in the initial region
    region.set_block(0, 0, 0, stone.clone());
    region.set_block(2, 2, 2, dirt.clone());

    // Trigger expansion
    region.set_block(5, 5, 5, stone.clone());

    assert_eq!(region.get_block(0, 0, 0), Some(&stone));
    assert_eq!(region.get_block(2, 2, 2), Some(&dirt));
    assert_eq!(region.get_block(5, 5, 5), Some(&stone));
}

#[test]
fn test_incremental_expansion_in_x() {
    let mut region = Region::new("Test".to_string(), (0, 0, 0), (2, 2, 2));
    let stone = BlockState::new("minecraft:stone".to_string());

    for x in 0..32 {
        region.set_block(x, 0, 0, stone.clone());
        assert_eq!(region.get_block(x, 0, 0), Some(&stone));
    }
}

#[test]
fn test_incremental_expansion_in_y() {
    let mut region = Region::new("Test".to_string(), (0, 0, 0), (2, 2, 2));
    let stone = BlockState::new("minecraft:stone".to_string());

    for y in 0..32 {
        region.set_block(0, y, 0, stone.clone());
        assert_eq!(region.get_block(0, y, 0), Some(&stone));
    }
}

#[test]
fn test_incremental_expansion_in_z() {
    let mut region = Region::new("Test".to_string(), (0, 0, 0), (2, 2, 2));
    let stone = BlockState::new("minecraft:stone".to_string());

    for z in 0..32 {
        region.set_block(0, 0, z, stone.clone());
        assert_eq!(region.get_block(0, 0, z), Some(&stone));
    }
}

#[test]
fn test_incremental_expansion_in_x_y_z() {
    let mut region = Region::new("Test".to_string(), (0, 0, 0), (2, 2, 2));
    let stone = BlockState::new("minecraft:stone".to_string());

    for i in 0..32 {
        region.set_block(i, i, i, stone.clone());
        assert_eq!(region.get_block(i, i, i), Some(&stone));
    }
}

#[test]
fn test_checkerboard_expansion() {
    let mut region = Region::new("Test".to_string(), (0, 0, 0), (2, 2, 2));
    let stone = BlockState::new("minecraft:stone".to_string());
    let dirt = BlockState::new("minecraft:dirt".to_string());

    for x in 0..32 {
        for y in 0..32 {
            for z in 0..32 {
                if (x + y + z) % 2 == 0 {
                    region.set_block(x, y, z, stone.clone());
                } else {
                    region.set_block(x, y, z, dirt.clone());
                }
            }
        }
    }

    for x in 0..32 {
        for y in 0..32 {
            for z in 0..32 {
                let expected = if (x + y + z) % 2 == 0 { &stone } else { &dirt };
                assert_eq!(region.get_block(x, y, z), Some(expected));
            }
        }
    }
}

#[test]
fn test_bounding_box() {
    let region = Region::new("Test".to_string(), (1, 0, 1), (-2, 2, -2));
    let bounding_box = region.get_bounding_box();

    assert_eq!(bounding_box.min, (0, 0, 0));
    assert_eq!(bounding_box.max, (1, 1, 1));

    let region = Region::new("Test".to_string(), (1, 0, 1), (-3, 3, -3));
    let bounding_box = region.get_bounding_box();

    assert_eq!(bounding_box.min, (-1, 0, -1));
    assert_eq!(bounding_box.max, (1, 2, 1));
}

#[test]
fn test_coords_to_index() {
    let mut region = Region::new("Test".to_string(), (0, 0, 0), (2, 2, 2));

    let volume1 = region.volume();
    for i in 0..8 {
        let coords = region.index_to_coords(i);
        let index = region.coords_to_index(coords.0, coords.1, coords.2);
        assert!(index < volume1);
        assert_eq!(index, i);
    }

    let region2 = Region::new("Test".to_string(), (0, 0, 0), (-2, -2, -2));

    let volume2 = region2.volume();
    for i in 0..8 {
        let coords = region2.index_to_coords(i);
        let index = region2.coords_to_index(coords.0, coords.1, coords.2);
        assert!(index < volume2);
        assert_eq!(index, i);
    }

    region.merge(&region2);

    let volume3 = region.volume();
    for i in 0..27 {
        let coords = region.index_to_coords(i);
        let index = region.coords_to_index(coords.0, coords.1, coords.2);
        assert!(index < volume3);
        assert_eq!(index, i);
    }
}

#[test]
fn test_merge_negative_size() {
    let mut region1 = Region::new("Test1".to_string(), (0, 0, 0), (-2, -2, -2));
    let mut region2 = Region::new("Test2".to_string(), (-2, -2, -2), (-2, -2, -2));
    let stone = BlockState::new("minecraft:stone".to_string());

    region1.set_block(0, 0, 0, stone.clone());
    region2.set_block(-2, -2, -2, stone.clone());

    region1.merge(&region2);

    assert_eq!(region1.size, (4, 4, 4));
    assert_eq!(region1.get_bounding_box().min, (-3, -3, -3));
    assert_eq!(region1.get_bounding_box().max, (0, 0, 0));
    assert_eq!(region1.get_block(0, 0, 0), Some(&stone));
    assert_eq!(region1.get_block(-2, -2, -2), Some(&stone));
}

#[test]
fn test_expand_to_fit_preserve_blocks() {
    let mut region = Region::new("Test".to_string(), (1, 0, 1), (-2, 2, -2));
    let stone = BlockState::new("minecraft:stone".to_string());
    let diamond = BlockState::new("minecraft:diamond_block".to_string());

    // Set some initial blocks
    region.set_block(1, 0, 1, stone.clone());
    region.set_block(0, 1, 0, stone.clone());

    // Expand the region by setting a block outside the current bounds
    region.set_block(1, 2, 1, diamond.clone());

    // Check that the blocks set before the growth are preserved
    assert_eq!(region.get_block(1, 0, 1), Some(&stone));
    assert_eq!(region.get_block(0, 1, 0), Some(&stone));

    // Check if the new block is set correctly
    assert_eq!(region.get_block(1, 2, 1), Some(&diamond));
}

#[test]
fn expansion_scenario_keeps_both_blocks_inside_the_box() {
    let mut region = Region::new("Test".to_string(), (0, 0, 0), (2, 2, 2));
    let stone = BlockState::new("minecraft:stone".to_string());
    let dirt = BlockState::new("minecraft:dirt".to_string());
    assert!(region.set_block(0, 0, 0, stone.clone()));
    assert!(region.set_block(3, 3, 3, dirt.clone()));
    assert_eq!(region.get_block(0, 0, 0), Some(&stone));
    assert_eq!(region.get_block(3, 3, 3), Some(&dirt));
    let bounding_box = region.get_bounding_box();
    assert!(bounding_box.contains((0, 0, 0)));
    assert!(bounding_box.contains((3, 3, 3)));
    assert!(region.is_in_region(0, 0, 0));
    assert!(region.is_in_region(3, 3, 3));
}

#[test]
fn expansion_grows_each_axis_by_one_half() {
    let mut region = Region::new("Test".to_string(), (0, 0, 0), (2, 2, 2));
    region.expand_to_fit(3, 0, -1);
    // required 4 x 2 x 3, grown to 6 x 3 x 5, anchored at the least corner
    assert_eq!(region.position, (0, 0, -1));
    assert_eq!(region.size, (6, 3, 5));
    assert_eq!(region.blocks.len(), 90);
    assert_eq!(region.volume(), 90);
    assert_eq!(region.get_dimensions(), (6, 3, 5));
    // a point inside changes nothing
    region.expand_to_fit(5, 2, 3);
    assert_eq!(region.position, (0, 0, -1));
    assert_eq!(region.size, (6, 3, 5));
    assert!(!region.is_in_region(6, 0, 0));
}

#[test]
fn set_block_fails_without_change_when_the_region_cannot_grow() {
    let mut region = Region::new("Test".to_string(), (i32::MAX - 1, 0, 0), (2, 1, 1));
    let stone = BlockState::new("minecraft:stone".to_string());
    assert!(region.set_block(i32::MAX, 0, 0, stone.clone()));
    assert!(!region.fits_expanded(i32::MAX, 1, 0));
    assert!(!region.set_block(i32::MAX, 1, 0, stone.clone()));
    assert_eq!(region.position, (i32::MAX - 1, 0, 0));
    assert_eq!(region.size, (2, 1, 1));
    assert_eq!(region.palette.len(), 2);
    assert_eq!(region.get_block(i32::MAX, 0, 0), Some(&stone));
    assert!(!region.fits_expanded(i32::MIN, 0, 0));
    assert!(!region.set_block(i32::MIN, 0, 0, stone));
}

#[test]
fn growth_preserves_content_at_widely_separated_points() {
    let mut region = Region::new("Test".to_string(), (0, 0, 0), (1, 1, 1));
    let points = [
        (0, 0, 0),
        (17, -3, 4),
        (-20, 9, -11),
        (5, 5, 5),
        (-20, -3, 30),
        (17, -3, 4),
        (40, 2, -15),
    ];
    let mut written: Vec<((i32, i32, i32), BlockState)> = Vec::new();
    for (n, p) in points.iter().enumerate() {
        let block = BlockState::new(format!("minecraft:block{}", n));
        assert!(region.set_block(p.0, p.1, p.2, block.clone()));
        written.retain(|(q, _)| q != p);
        written.push((*p, block));
        for (q, expected) in &written {
            assert_eq!(region.get_block(q.0, q.1, q.2), Some(expected));
        }
    }
    assert_eq!(region.count_blocks(), 6);
}

#[test]
fn merge_lets_other_blocks_win_but_never_its_air() {
    let mut a = Region::new("A".to_string(), (0, 0, 0), (2, 1, 1));
    let mut b = Region::new("B".to_string(), (0, 0, 0), (3, 1, 1));
    let stone = BlockState::new("minecraft:stone".to_string());
    let dirt = BlockState::new("minecraft:dirt".to_string());
    let gold = BlockState::new("minecraft:gold_block".to_string());
    let air = BlockState::new("minecraft:air".to_string());
    a.set_block(0, 0, 0, stone.clone());
    a.set_block(1, 0, 0, dirt.clone());
    b.set_block(1, 0, 0, gold.clone());
    a.add_entity(Entity::new("minecraft:pig".to_string(), bits((0.0, 0.0, 0.0))));
    b.add_entity(Entity::new("minecraft:cow".to_string(), bits((1.0, 0.0, 0.0))));
    a.add_block_entity(BlockEntity::new("minecraft:chest".to_string(), (0, 0, 0)));
    b.add_block_entity(BlockEntity::new("minecraft:barrel".to_string(), (0, 0, 0)));
    b.add_block_entity(BlockEntity::new("minecraft:hopper".to_string(), (2, 0, 0)));
    let b_before = b.clone();
    a.merge(&b);
    assert_eq!(a.name, "A");
    assert_eq!(a.position, (0, 0, 0));
    assert_eq!(a.size, (3, 1, 1));
    assert_eq!(a.get_block(0, 0, 0), Some(&stone));
    assert_eq!(a.get_block(1, 0, 0), Some(&gold));
    assert_eq!(a.get_block(2, 0, 0), Some(&air));
    assert_eq!(a.get_block(3, 0, 0), None);
    assert_eq!(a.get_palette(), vec![air, stone, dirt, gold.clone()]);
    assert_eq!(a.get_palette_index(&gold), Some(3));
    assert_eq!(a.blocks, vec![1usize, 3, 0]);
    assert_eq!(a.entities.len(), 2);
    assert_eq!(a.entities[1].id, "minecraft:cow");
    assert_eq!(a.block_entities.len(), 2);
    assert_eq!(a.block_entities.get(&(0, 0, 0)).unwrap().id, "minecraft:barrel");
    assert_eq!(a.block_entities.get(&(2, 0, 0)).unwrap().id, "minecraft:hopper");
    assert_eq!(b.blocks, b_before.blocks);
    assert_eq!(b.get_palette(), b_before.get_palette());
    assert!(a.fits_merged(&b));
}

#[test]
fn merge_scenario_covers_both_regions() {
    let mut a = Region::new("A".to_string(), (0, 0, 0), (2, 2, 2));
    let mut b = Region::new("B".to_string(), (2, 2, 2), (2, 2, 2));
    let stone = BlockState::new("minecraft:stone".to_string());
    a.set_block(0, 0, 0, stone.clone());
    b.set_block(2, 2, 2, stone.clone());
    a.merge(&b);
    let bounding_box = a.get_bounding_box();
    assert_eq!(bounding_box.min, (0, 0, 0));
    assert_eq!(bounding_box.max, (3, 3, 3));
    assert_eq!(a.get_block(0, 0, 0), Some(&stone));
    assert_eq!(a.get_block(2, 2, 2), Some(&stone));
    assert_eq!(a.count_blocks(), 2);
    assert_eq!(a.palette.len(), 2);
}

#[test]
fn bit_width_scenario_with_seventeen_entries() {
    let mut region = Region::new("Test".to_string(), (0, 0, 0), (4, 4, 4));
    for i in 0..64i32 {
        let block = BlockState::new(format!("minecraft:wool{}", i % 16));
        assert!(region.set_block(i % 4, (i / 16) % 4, (i / 4) % 4, block));
    }
    assert_eq!(region.palette.len(), 17);
    let packed = region.create_packed_block_states();
    assert_eq!(packed.len(), 5);
    assert_eq!(region.unpack_block_states(&packed), Ok(region.blocks.clone()));
}

#[test]
fn unpack_rejects_malformed_input() {
    let mut region = Region::new("Test".to_string(), (0, 0, 0), (2, 2, 2));
    region.set_block(0, 0, 0, BlockState::new("minecraft:stone".to_string()));
    region.set_block(1, 0, 0, BlockState::new("minecraft:dirt".to_string()));
    // three entries: two bits a voxel, eight voxels, one word
    assert_eq!(region.unpack_block_states(&[]), Err(DecodeError::PackedLength));
    assert_eq!(region.unpack_block_states(&[0, 0]), Err(DecodeError::PackedLength));
    assert_eq!(region.unpack_block_states(&[0b11]), Err(DecodeError::PaletteIndex));
    assert_eq!(
        region.unpack_block_states(&[0b10_01]),
        Ok(vec![1, 2, 0, 0, 0, 0, 0, 0])
    );
    assert_eq!(DecodeError::PackedLength.message(), "packed block data has the wrong length");
    assert_eq!(
        DecodeError::PaletteIndex.message(),
        "packed block data refers to a missing palette entry"
    );
}

#[test]
fn region_counts_and_block_entities() {
    let mut region = Region::new("Test".to_string(), (0, 0, 0), (2, 2, 2));
    let stone = BlockState::new("minecraft:stone".to_string());
    let dirt = BlockState::new("minecraft:dirt".to_string());
    region.set_block(0, 0, 0, stone.clone());
    region.set_block(1, 0, 0, dirt.clone());
    region.set_block(1, 1, 1, stone.clone());
    region.set_block(1, 0, 0, BlockState::new("minecraft:air".to_string()));
    assert_eq!(region.get_block_index(0, 0, 0), Some(1));
    assert_eq!(region.get_block_index(1, 0, 0), Some(0));
    assert_eq!(region.get_block_index(2, 0, 0), None);
    let counts = region.count_block_types();
    assert_eq!(counts.len(), 2);
    assert_eq!(counts[0], (BlockState::new("minecraft:air".to_string()), 6));
    assert_eq!(counts[1], (stone, 2));
    let chest = BlockEntity::new("minecraft:chest".to_string(), (9, 9, 9));
    assert!(region.set_block_entity(BlockPosition::new(1, 1, 1), chest.clone()));
    assert_eq!(region.get_block_entity(BlockPosition::new(1, 1, 1)), Some(&chest));
    assert_eq!(region.get_block_entity(BlockPosition::new(9, 9, 9)), None);
    assert_eq!(region.get_block_entities_as_list(), vec![chest]);
    assert_eq!(BlockPosition::from_tuple((1, 2, 3)).to_tuple(), (1, 2, 3));
}

#[test]
fn region_from_indices_checks_count_and_range() {
    let palette = vec![
        BlockState::new("minecraft:air".to_string()),
        BlockState::new("minecraft:stone".to_string()),
    ];
    let region = Region::from_indexed(
        "Test".to_string(),
        (0, 0, 0),
        (2, 1, 2),
        &palette,
        &vec![0, 1, 1, 0],
    )
    .unwrap();
    assert!(region.is_well_formed());
    assert_eq!(region.get_block(0, 0, 0), Some(&palette[0]));
    assert_eq!(region.get_block(1, 0, 0), Some(&palette[1]));
    assert_eq!(region.get_block(0, 0, 1), Some(&palette[1]));
    assert_eq!(region.get_block(1, 0, 1), Some(&palette[0]));
    assert_eq!(
        Region::from_indexed("Test".to_string(), (0, 0, 0), (2, 1, 2), &palette, &vec![0, 1, 1])
            .err(),
        Some(DecodeError::BlockCount)
    );
    assert_eq!(
        Region::from_indexed("Test".to_string(), (0, 0, 0), (2, 1, 2), &palette, &vec![0, 1, 2, 0])
            .err(),
        Some(DecodeError::PaletteIndex)
    );
}

#[test]
fn single_block_region_and_merging_of_attachments() {
    let mut region = Region::single("Test".to_string(), (-3, 7, 2));
    assert!(region.is_well_formed());
    assert_eq!(region.position, (-3, 7, 2));
    assert_eq!(region.size, (1, 1, 1));
    assert_eq!(region.volume(), 1);
    assert!(region.get_block(-3, 7, 2).unwrap().is_air());
    assert_eq!(region.get_block(-2, 7, 2), None);

    let mut other = Region::single("Other".to_string(), (0, 0, 0));
    other.add_entity(Entity::new("minecraft:pig".to_string(), bits((0.5, 0.0, 0.5))));
    other.add_block_entity(BlockEntity::new("minecraft:chest".to_string(), (0, 0, 0)));
    region.add_entity(Entity::new("minecraft:cow".to_string(), bits((1.0, 2.0, 3.0))));
    region.merge_entities(&other);
    region.merge_block_entities(&other);
    assert_eq!(region.entities.len(), 2);
    assert_eq!(region.entities[0].id, "minecraft:cow");
    assert_eq!(region.entities[1].id, "minecraft:pig");
    assert_eq!(region.block_entities.len(), 1);
    assert_eq!(region.index_counts(), vec![1]);
}

#[test]
fn region_palette_takes_each_block_once() {
    let mut region = Region::new("Test".to_string(), (0, 0, 0), (2, 2, 2));
    let stone = BlockState::new("minecraft:stone".to_string());
    let powered = BlockState::new("minecraft:lever".to_string())
        .with_property("powered".to_string(), "true".to_string());
    let unpowered = BlockState::new("minecraft:lever".to_string())
        .with_property("powered".to_string(), "false".to_string());
    assert_eq!(region.get_or_insert_in_palette(BlockState::new("minecraft:air".to_string())), 0);
    assert_eq!(region.get_or_insert_in_palette(stone.clone()), 1);
    assert_eq!(region.get_or_insert_in_palette(powered.clone()), 2);
    assert_eq!(region.get_or_insert_in_palette(unpowered), 3);
    assert_eq!(region.get_or_insert_in_palette(powered), 2);
    assert_eq!(region.get_or_insert_in_palette(stone), 1);
    assert_eq!(region.palette.len(), 4);
    assert_eq!(region.count_blocks(), 0);
    assert!(region.is_well_formed());
}

#[test]
fn growth_that_does_not_fit_leaves_the_region_alone() {
    let mut region = Region::new("Test".to_string(), (i32::MAX - 1, 0, 0), (2, 1, 1));
    let stone = BlockState::new("minecraft:stone".to_string());
    assert!(region.set_block(i32::MAX, 0, 0, stone.clone()));
    assert!(!region.fits_expanded(i32::MIN, 0, 0));
    region.expand_to_fit(i32::MIN, 0, 0);
    assert!(region.is_well_formed());
    assert!(!region.is_in_region(i32::MIN, 0, 0));
    assert_eq!(region.position, (i32::MAX - 1, 0, 0));
    assert_eq!(region.size, (2, 1, 1));
    assert_eq!(region.blocks.len(), 2);
    assert_eq!(region.get_block(i32::MAX, 0, 0), Some(&stone));

    assert!(!region.fits_expanded(i32::MAX - 3, 0, 0));
    region.expand_to_fit(i32::MAX - 3, 0, 0);
    assert_eq!(region.position, (i32::MAX - 1, 0, 0));
    assert_eq!(region.size, (2, 1, 1));

    let mut inner = Region::new("Test".to_string(), (10, 0, 0), (2, 1, 1));
    assert!(inner.set_block(11, 0, 0, stone.clone()));
    assert!(inner.fits_expanded(8, 0, 0));
    inner.expand_to_fit(8, 0, 0);
    assert_eq!(inner.position, (8, 0, 0));
    assert_eq!(inner.size, (6, 2, 2));
    assert_eq!(inner.blocks.len(), 24);
    assert_eq!(inner.get_block(11, 0, 0), Some(&stone));
    assert!(inner.get_block(8, 0, 0).unwrap().is_air());
}

#[test]
fn writes_inside_keep_anchor_and_size() {
    let stone = BlockState::new("minecraft:stone".to_string());
    let mut region = Region::new("Test".to_string(), (0, 0, 0), (2, 2, 2));
    assert!(region.set_block(0, 0, 0, stone.clone()));
    assert!(region.set_block(1, 1, 1, stone.clone()));
    assert_eq!(region.position, (0, 0, 0));
    assert_eq!(region.size, (2, 2, 2));

    assert!(region.set_block(-1, 0, 3, stone));
    assert_eq!(region.position, (-1, 0, 0));
    assert_eq!(region.size, (5, 3, 6));
}
