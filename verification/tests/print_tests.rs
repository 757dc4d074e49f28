use minecraft_schematic_utils::metadata::Metadata;
use minecraft_schematic_utils::print_utils::{
    format_block_state, format_metadata, format_palette, format_region, format_triple,
};
use minecraft_schematic_utils::region::Region;
use minecraft_schematic_utils::{format_schematic, BlockState, UniversalSchematic};

#[test]
fn test_schematic_debug_print() {
    let mut schematic = UniversalSchematic::new("Test Schematic".to_string());
    let stone = BlockState::new("minecraft:stone".to_string());
    let dirt = BlockState::new("minecraft:dirt".to_string());

    // Set blocks in the default region
    schematic.set_block(0, 0, 0, stone.clone());
    schematic.set_block(1, 1, 1, dirt.clone());

    // This will use the Debug implementation
    println!("{:?}", schematic);

    // This will print a detailed view of the schematic
    println!("{}", format_schematic(&schematic));

    // This will print details of a specific block state
    println!("{}", format_block_state(&stone));

    // Test with a custom region
    schematic.set_block_in_region("Custom", 5, 5, 5, stone.clone());
    println!("{}", format_schematic(&schematic));
}

#[test]
fn palette_description_lists_indices_and_names() {
    let palette = vec![
        BlockState::new("minecraft:air".to_string()),
        BlockState::new("minecraft:stone".to_string())
            .with_property("k".to_string(), "v".to_string()),
    ];
    assert_eq!(format_palette(&palette), "Palette:\n  0: minecraft:air\n  1: minecraft:stone\n");
    assert_eq!(format_palette(&vec![]), "Palette:\n");
}

#[test]
fn metadata_description_lists_the_fields_that_are_there() {
    let metadata = Metadata::new(
        Some("N".to_string()),
        Some("A".to_string()),
        None,
        Some(12),
        Some(u64::MAX),
        Some(6),
        Some(-3105),
        None,
    );
    assert_eq!(
        format_metadata(&metadata),
        "Metadata:\n  Author: A\n  Name: N\n  Created: 12\n  Modified: 18446744073709551615\n  Minecraft Version: -3105\n"
    );
    assert_eq!(format_metadata(&Metadata::default()), "Metadata:\n");
}

#[test]
fn block_state_description_lists_the_properties() {
    let plain = BlockState::new("minecraft:stone".to_string());
    assert_eq!(format_block_state(&plain), "Block: minecraft:stone\n");
    let lever = BlockState::new("minecraft:lever".to_string())
        .with_property("face".to_string(), "floor".to_string())
        .with_property("powered".to_string(), "true".to_string());
    assert_eq!(
        format_block_state(&lever),
        "Block: minecraft:lever\nProperties:\n  face: floor\n  powered: true\n"
    );
}

#[test]
fn region_and_schematic_descriptions_are_exact() {
    assert_eq!(format_triple((1, -2, 30)), "(1, -2, 30)");
    let mut region = Region::new("R".to_string(), (0, 0, -1), (2, 1, 1));
    region.set_block(
        1,
        0,
        -1,
        BlockState::new("minecraft:lever".to_string())
            .with_property("powered".to_string(), "true".to_string()),
    );
    let expected_region = "  Region: R\n    Position: (0, 0, -1)\n    Size: (2, 1, 1)\n    Blocks:\n      0 @ (0, 0, -1): minecraft:air\n      1 @ (1, 0, -1): minecraft:lever[powered=true]\n";
    assert_eq!(format_region("R", &region), expected_region);
    let mut schematic = UniversalSchematic::new("S".to_string());
    schematic.add_region(region);
    assert_eq!(
        format_schematic(&schematic),
        format!("Schematic:\nMetadata:\n  Name: S\nRegions:\n{}", expected_region)
    );
}
