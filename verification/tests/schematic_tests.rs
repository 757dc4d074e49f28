use minecraft_schematic_utils::block_entity::BlockEntity;
use minecraft_schematic_utils::bounding_box::BoundingBox;
use minecraft_schematic_utils::entity::Entity;
use minecraft_schematic_utils::region::Region;
use minecraft_schematic_utils::{BlockState, UniversalSchematic};

fn entity_at(id: &str, position: (f64, f64, f64)) -> (Entity, (i32, i32, i32)) {
    let entity = Entity::new(
        id.to_string(),
        (position.0.to_bits(), position.1.to_bits(), position.2.to_bits()),
    );
    let anchor = (
        position.0.round() as i32,
        position.1.round() as i32,
        position.2.round() as i32,
    );
    (entity, anchor)
}

#[test]
fn test_schematic_operations() {
    let mut schematic = UniversalSchematic::new("Test Schematic".to_string());

    // Test automatic region creation and expansion
    let stone = BlockState::new("minecraft:stone".to_string());
    let dirt = BlockState::new("minecraft:dirt".to_string());

    assert!(schematic.set_block(0, 0, 0, stone.clone()));
    assert_eq!(schematic.get_block(0, 0, 0), Some(&stone));

    assert!(schematic.set_block(5, 5, 5, dirt.clone()));
    assert_eq!(schematic.get_block(5, 5, 5), Some(&dirt));

    // Check that the default region was created and expanded
    let _default_region = schematic.get_region("Main").unwrap();

    // Test explicit region creation and manipulation
    let obsidian = BlockState::new("minecraft:obsidian".to_string());
    assert!(schematic.set_block_in_region("Custom", 10, 10, 10, obsidian.clone()));
    assert_eq!(schematic.get_block_from_region("Custom", 10, 10, 10), Some(&obsidian));

    // Check that the custom region was created
    let custom_region = schematic.get_region("Custom").unwrap();
    assert_eq!(custom_region.position, (10, 10, 10));

    // Test manual region addition
    let region2 = Region::new("Region2".to_string(), (20, 0, 0), (5, 5, 5));
    assert!(schematic.add_region(region2));
    assert!(!schematic.add_region(Region::new("Region2".to_string(), (0, 0, 0), (1, 1, 1))));

    // Test getting non-existent blocks
    assert_eq!(schematic.get_block(100, 100, 100), None);
    assert_eq!(schematic.get_block_from_region("NonexistentRegion", 0, 0, 0), None);

    // Test removing regions
    assert!(schematic.remove_region("Region2").is_some());
    assert!(schematic.remove_region("Region2").is_none());

    // Test that removed region's blocks are no longer accessible
    assert_eq!(schematic.get_block_from_region("Region2", 20, 0, 0), None);
}

#[test]
fn test_schematic_large_coordinates() {
    let mut schematic = UniversalSchematic::new("Large Schematic".to_string());

    let far_block = BlockState::new("minecraft:diamond_block".to_string());
    assert!(schematic.set_block(1000, 1000, 1000, far_block.clone()));
    assert_eq!(schematic.get_block(1000, 1000, 1000), Some(&far_block));

    let main_region = schematic.get_region("Main").unwrap();
    assert_eq!(main_region.position, (1000, 1000, 1000));
    assert_eq!(main_region.size, (1, 1, 1));

    // Test that blocks outside the region are not present
    assert_eq!(schematic.get_block(999, 1000, 1000), None);
    assert_eq!(schematic.get_block(1002, 1000, 1000), None);
}

#[test]
fn test_schematic_region_expansion() {
    let mut schematic = UniversalSchematic::new("Expanding Schematic".to_string());

    let block1 = BlockState::new("minecraft:stone".to_string());
    let block2 = BlockState::new("minecraft:dirt".to_string());

    assert!(schematic.set_block(0, 0, 0, block1.clone()));
    assert!(schematic.set_block(10, 20, 30, block2.clone()));

    let main_region = schematic.get_region("Main").unwrap();
    assert_eq!(main_region.position, (0, 0, 0));

    assert_eq!(schematic.get_block(0, 0, 0), Some(&block1));
    assert_eq!(schematic.get_block(10, 20, 30), Some(&block2));
    assert_eq!(schematic.get_block(5, 10, 15), Some(&BlockState::new("minecraft:air".to_string())));
}

#[test]
fn test_schematic_negative_coordinates() {
    let mut schematic = UniversalSchematic::new("Negative Coordinates Schematic".to_string());

    let neg_block = BlockState::new("minecraft:emerald_block".to_string());
    assert!(schematic.set_block(-10, -10, -10, neg_block.clone()));
    assert_eq!(schematic.get_block(-10, -10, -10), Some(&neg_block));

    let main_region = schematic.get_region("Main").unwrap();
    assert!(
        main_region.position.0 <= -10
            && main_region.position.1 <= -10
            && main_region.position.2 <= -10
    );
}

#[test]
fn test_entity_operations() {
    let mut schematic = UniversalSchematic::new("Test Schematic".to_string());

    let (entity, anchor) = entity_at("minecraft:creeper", (10.5, 65.0, 20.5));
    let entity = entity.with_nbt_data("Fuse".to_string(), "30".to_string());

    assert!(schematic.add_entity(entity.clone(), anchor));

    let region = schematic.get_region("Main").unwrap();
    assert_eq!(region.entities.len(), 1);
    assert_eq!(region.entities[0], entity);
    assert_eq!(region.position, (11, 65, 21));

    let removed_entity = schematic.remove_entity(0).unwrap();
    assert_eq!(removed_entity, entity);

    let region = schematic.get_region("Main").unwrap();
    assert_eq!(region.entities.len(), 0);
}

#[test]
fn test_block_entity_operations() {
    let mut schematic = UniversalSchematic::new("Test Schematic".to_string());

    let block_entity = BlockEntity::new("minecraft:chest".to_string(), (5, 10, 15)).with_nbt_data(
        "Items".to_string(),
        "[{id:\"minecraft:diamond\",Count:64b,Slot:0b}]".to_string(),
    );

    assert!(schematic.add_block_entity(block_entity.clone()));

    let region = schematic.get_region("Main").unwrap();
    assert_eq!(region.block_entities.len(), 1);
    assert_eq!(region.block_entities.get(&(5, 10, 15)), Some(&block_entity));

    let removed_block_entity = schematic.remove_block_entity((5, 10, 15)).unwrap();
    assert_eq!(removed_block_entity, block_entity);

    let region = schematic.get_region("Main").unwrap();
    assert_eq!(region.block_entities.len(), 0);
}

#[test]
fn test_block_entity_helper_operations() {
    let mut schematic = UniversalSchematic::new("Test Schematic".to_string());

    // Create a chest block entity with a diamond in slot 0
    let block_entity = BlockEntity::new("minecraft:chest".to_string(), (5, 10, 15))
        .with_item(0, "minecraft:diamond", 64)
        .with_custom_data("Lock", "SecretKey");

    assert!(schematic.add_block_entity(block_entity.clone()));

    let region = schematic.get_region("Main").unwrap();
    assert_eq!(region.block_entities.len(), 1);
    assert_eq!(region.block_entities.get(&(5, 10, 15)), Some(&block_entity));

    let removed_block_entity = schematic.remove_block_entity((5, 10, 15)).unwrap();
    assert_eq!(removed_block_entity, block_entity);

    let region = schematic.get_region("Main").unwrap();
    assert_eq!(region.block_entities.len(), 0);
}

#[test]
fn test_block_entity_in_region_operations() {
    let mut schematic = UniversalSchematic::new("Test Schematic".to_string());

    let block_entity = BlockEntity::new("minecraft:chest".to_string(), (5, 10, 15)).with_nbt_data(
        "Items".to_string(),
        "[{id:\"minecraft:diamond\",Count:64b,Slot:0b}]".to_string(),
    );

    assert!(schematic.add_block_entity_in_region("Main", block_entity.clone()));

    let region = schematic.get_region("Main").unwrap();
    assert_eq!(region.block_entities.len(), 1);
    assert_eq!(region.block_entities.get(&(5, 10, 15)), Some(&block_entity));

    let removed_block_entity =
        schematic.remove_block_entity_in_region("Main", (5, 10, 15)).unwrap();
    assert_eq!(removed_block_entity, block_entity);

    let region = schematic.get_region("Main").unwrap();
    assert_eq!(region.block_entities.len(), 0);
}

#[test]
fn test_region_palette_operations() {
    let mut region = Region::new("Test".to_string(), (0, 0, 0), (2, 2, 2));

    let stone = BlockState::new("minecraft:stone".to_string());
    let dirt = BlockState::new("minecraft:dirt".to_string());

    region.set_block(0, 0, 0, stone.clone());
    region.set_block(0, 1, 0, dirt.clone());
    region.set_block(1, 0, 0, stone.clone());

    assert_eq!(region.get_block(0, 0, 0), Some(&stone));
    assert_eq!(region.get_block(0, 1, 0), Some(&dirt));
    assert_eq!(region.get_block(1, 0, 0), Some(&stone));
    assert_eq!(region.get_block(1, 1, 1), Some(&BlockState::new("minecraft:air".to_string())));

    // Check the palette size
    assert_eq!(region.palette.len(), 3); // air, stone, dirt
}

#[test]
fn test_multiple_region_merging() {
    let mut schematic = UniversalSchematic::new("Test Schematic".to_string());

    let mut region1 = Region::new("Region1".to_string(), (0, 0, 0), (2, 2, 2));
    let mut region2 = Region::new("Region4".to_string(), (0, 0, 0), (-2, -2, -2));

    // Add some blocks to the regions
    region1.set_block(0, 0, 0, BlockState::new("minecraft:stone".to_string()));
    region1.set_block(1, 1, 1, BlockState::new("minecraft:dirt".to_string()));
    region2.set_block(0, -1, -1, BlockState::new("minecraft:gold_block".to_string()));

    schematic.add_region(region1);
    schematic.add_region(region2);

    let merged_region = schematic.get_merged_region();

    assert_eq!(merged_region.count_blocks(), 3);
    assert_eq!(
        merged_region.get_block(0, 0, 0),
        Some(&BlockState::new("minecraft:stone".to_string()))
    );
    assert_eq!(
        merged_region.get_block(1, 1, 1),
        Some(&BlockState::new("minecraft:dirt".to_string()))
    );
}

#[test]
fn schematic_reads_from_the_first_region_that_covers_a_point() {
    let mut schematic = UniversalSchematic::new("Order".to_string());
    let mut first = Region::new("First".to_string(), (0, 0, 0), (2, 2, 2));
    let mut second = Region::new("Second".to_string(), (1, 1, 1), (2, 2, 2));
    let stone = BlockState::new("minecraft:stone".to_string());
    let gold = BlockState::new("minecraft:gold_block".to_string());
    first.set_block(1, 1, 1, stone.clone());
    second.set_block(1, 1, 1, gold.clone());
    second.set_block(2, 2, 2, gold.clone());
    assert!(schematic.add_region(first));
    assert!(schematic.add_region(second));
    assert_eq!(schematic.get_block(1, 1, 1), Some(&stone));
    assert_eq!(schematic.get_block(2, 2, 2), Some(&gold));
    assert_eq!(schematic.get_block(3, 3, 3), None);
    assert_eq!(schematic.get_region_names(), vec!["First".to_string(), "Second".to_string()]);
    assert_eq!(schematic.get_region_from_index(1).unwrap().name, "Second");
    assert!(schematic.get_region_from_index(2).is_none());
    assert_eq!(schematic.regions.len(), 2);
    assert!(schematic.regions.contains_key("First"));
    let merged = schematic.get_merged_region();
    assert_eq!(merged.name, "First");
    assert_eq!(merged.get_block(1, 1, 1), Some(&gold));
    assert_eq!(merged.get_block(0, 0, 0), Some(&BlockState::new("minecraft:air".to_string())));
}

#[test]
fn schematic_bounding_boxes() {
    let mut schematic = UniversalSchematic::new("Boxes".to_string());
    assert_eq!(schematic.get_schematic_bounding_box(), None);
    assert_eq!(schematic.get_bounding_box(), BoundingBox::new((0, 0, 0), (0, 0, 0)));
    assert_eq!(schematic.get_dimensions(), (1, 1, 1));
    assert!(schematic.add_region(Region::new("A".to_string(), (0, 0, 0), (2, 3, 4))));
    assert!(schematic.add_region(Region::new("B".to_string(), (-5, 1, 1), (1, 1, 1))));
    let expected = BoundingBox::new((-5, 0, 0), (1, 2, 3));
    assert_eq!(schematic.get_schematic_bounding_box(), Some(expected));
    assert_eq!(schematic.get_bounding_box(), expected);
    assert_eq!(schematic.get_dimensions(), (7, 3, 4));
    assert_eq!(
        schematic.get_region_bounding_box("B"),
        Some(BoundingBox::new((-5, 1, 1), (-5, 1, 1)))
    );
    assert_eq!(schematic.get_region_bounding_box("C"), None);
}

#[test]
fn schematic_region_can_be_changed_in_place() {
    let mut schematic = UniversalSchematic::new("Mut".to_string());
    assert!(schematic.get_region_mut("Main").is_none());
    let stone = BlockState::new("minecraft:stone".to_string());
    assert!(schematic.set_block(0, 0, 0, stone.clone()));
    {
        let region = schematic.get_region_mut("Main").unwrap();
        assert!(region.set_block(1, 0, 0, stone.clone()));
    }
    assert_eq!(schematic.get_block(1, 0, 0), Some(&stone));
    assert_eq!(schematic.metadata.name, Some("Mut".to_string()));
    assert_eq!(schematic.default_region_name, "Main");
}

#[test]
fn schematic_entities_in_named_regions() {
    let mut schematic = UniversalSchematic::new("Entities".to_string());
    let (pig, anchor) = entity_at("minecraft:pig", (-0.6, 2.4, 7.5));
    assert_eq!(anchor, (-1, 2, 8));
    assert!(schematic.add_entity_in_region("Farm", pig.clone(), anchor));
    assert_eq!(schematic.get_region("Farm").unwrap().position, (-1, 2, 8));
    assert!(schematic.remove_entity_in_region("Barn", 0).is_none());
    assert!(schematic.remove_entity_in_region("Farm", 1).is_none());
    assert_eq!(schematic.remove_entity_in_region("Farm", 0), Some(pig));
    assert!(schematic.remove_block_entity_in_region("Barn", (0, 0, 0)).is_none());
}

#[test]
fn schematic_finds_block_entities_in_every_region() {
    let mut schematic = UniversalSchematic::new("Test Schematic".to_string());
    let chest = BlockEntity::new("minecraft:chest".to_string(), (1, 2, 3));
    let sign = BlockEntity::new("minecraft:sign".to_string(), (-4, 0, 9));
    assert!(schematic.add_block_entity(chest.clone()));
    assert!(schematic.add_block_entity_in_region("Side", sign.clone()));

    let at = |x, y, z| minecraft_schematic_utils::block_position::BlockPosition::new(x, y, z);
    assert_eq!(schematic.get_block_entity(at(1, 2, 3)), Some(&chest));
    assert_eq!(schematic.get_block_entity(at(-4, 0, 9)), Some(&sign));
    assert_eq!(schematic.get_block_entity(at(0, 0, 0)), None);
    assert_eq!(schematic.get_block_entities_as_list(), vec![chest.clone(), sign.clone()]);

    assert_eq!(schematic.remove_block_entity((1, 2, 3)), Some(chest));
    assert_eq!(schematic.remove_block_entity((1, 2, 3)), None);
    assert_eq!(schematic.get_block_entities_as_list(), vec![sign]);
    assert_eq!(schematic.get_region("Main").unwrap().block_entities.len(), 0);
    assert_eq!(schematic.get_region("Side").unwrap().block_entities.len(), 1);
}

#[test]
fn schematic_validity_and_size_limit() {
    let mut schematic = UniversalSchematic::new("Test Schematic".to_string());
    assert!(schematic.is_well_formed());
    let stone = BlockState::new("minecraft:stone".to_string());
    assert!(schematic.set_block(0, 0, 0, stone.clone()));
    assert!(schematic.set_block(9, 4, 2, stone.clone()));
    assert!(schematic.is_well_formed());
    let dimensions = schematic.get_dimensions();
    let widest = dimensions.0.max(dimensions.1).max(dimensions.2);
    assert!(schematic.fits_within(widest));
    assert!(!schematic.fits_within(widest - 1));
    assert!(schematic.fits_within(32767));

    let region = schematic.get_region_mut("Main").unwrap();
    region.blocks.pop();
    assert!(!schematic.is_well_formed());
}

#[test]
fn removing_an_entity_leaves_the_others_in_order() {
    let mut schematic = UniversalSchematic::new("Test Schematic".to_string());
    let (first, first_anchor) = entity_at("minecraft:creeper", (1.5, 2.0, 3.5));
    let (second, second_anchor) = entity_at("minecraft:pig", (4.0, 5.0, 6.0));
    let (third, third_anchor) = entity_at("minecraft:cow", (7.0, 8.0, 9.0));
    assert!(schematic.add_entity(first.clone(), first_anchor));
    assert!(schematic.add_entity(second.clone(), second_anchor));
    assert!(schematic.add_entity(third.clone(), third_anchor));
    assert_eq!(schematic.remove_entity(3), None);
    assert_eq!(schematic.remove_entity(1), Some(second));
    assert_eq!(schematic.get_region("Main").unwrap().entities, vec![first, third]);
    assert_eq!(schematic.remove_entity_in_region("Nowhere", 0), None);
}

#[test]
fn merged_region_gathers_entities_and_block_entities() {
    let mut schematic = UniversalSchematic::new("Test Schematic".to_string());
    let mut first = Region::new("First".to_string(), (0, 0, 0), (2, 2, 2));
    let mut second = Region::new("Second".to_string(), (4, 0, 0), (-2, 1, 1));
    let (pig, _) = entity_at("minecraft:pig", (0.5, 0.0, 0.5));
    let (cow, _) = entity_at("minecraft:cow", (4.0, 0.0, 0.0));
    first.add_entity(pig.clone());
    second.add_entity(cow.clone());
    let chest = BlockEntity::new("minecraft:chest".to_string(), (1, 1, 1));
    let sign = BlockEntity::new("minecraft:sign".to_string(), (1, 1, 1));
    let barrel = BlockEntity::new("minecraft:barrel".to_string(), (4, 0, 0));
    first.add_block_entity(chest);
    second.add_block_entity(sign.clone());
    second.add_block_entity(barrel.clone());
    schematic.add_region(first);

    let alone = schematic.get_merged_region();
    assert_eq!(alone.position, (0, 0, 0));
    assert_eq!(alone.size, (2, 2, 2));
    assert_eq!(alone.entities, vec![pig.clone()]);
    assert_eq!(alone.block_entities.len(), 1);

    schematic.add_region(second);
    let merged = schematic.get_merged_region();
    assert_eq!(merged.name, "First");
    assert_eq!(merged.position, (0, 0, 0));
    assert_eq!(merged.size, (5, 2, 2));
    assert_eq!(merged.entities, vec![pig, cow]);
    assert_eq!(merged.block_entities.len(), 2);
    assert_eq!(merged.block_entities.get(&(1, 1, 1)), Some(&sign));
    assert_eq!(merged.block_entities.get(&(4, 0, 0)), Some(&barrel));
}
