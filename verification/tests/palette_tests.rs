use minecraft_schematic_utils::palette::{get_or_insert, position, GlobalPalette};
use minecraft_schematic_utils::BlockState;

#[test]
fn test_palette_operations() {
    let mut palette = GlobalPalette::new();

    let stone = BlockState::new("minecraft:stone".to_string());
    let dirt = BlockState::new("minecraft:dirt".to_string());

    assert_eq!(palette.get_or_insert(stone.clone()), 1);
    assert_eq!(palette.get_or_insert(dirt.clone()), 2);
    assert_eq!(palette.get_or_insert(stone.clone()), 1);

    assert_eq!(palette.get(0), Some(&BlockState::new("minecraft:air".to_string())));
    assert_eq!(palette.get(1), Some(&stone));
    assert_eq!(palette.get(2), Some(&dirt));
    assert_eq!(palette.get(3), None);

    assert_eq!(palette.len(), 3);
}

#[test]
fn fresh_palette_starts_with_air() {
    let palette = GlobalPalette::new();
    assert_eq!(palette.len(), 1);
    let air = palette.get(0).unwrap();
    assert_eq!(air.name, "minecraft:air");
    assert!(air.properties.is_empty());
    assert!(air.is_air());
}

#[test]
fn same_block_gets_same_index_whatever_the_property_order() {
    let mut palette = GlobalPalette::new();
    let a = BlockState::new("minecraft:lever".to_string())
        .with_property("face".to_string(), "floor".to_string())
        .with_property("powered".to_string(), "true".to_string());
    let b = BlockState::new("minecraft:lever".to_string())
        .with_property("powered".to_string(), "true".to_string())
        .with_property("face".to_string(), "floor".to_string());
    let c = BlockState::new("minecraft:lever".to_string())
        .with_property("powered".to_string(), "false".to_string())
        .with_property("face".to_string(), "floor".to_string());
    assert_eq!(a, b);
    assert_ne!(a, c);
    let first = palette.get_or_insert(a.clone());
    assert_eq!(first, 1);
    assert_eq!(palette.get_or_insert(b), first);
    assert_eq!(palette.get_or_insert(a), first);
    assert_eq!(palette.get_or_insert(c), 2);
    assert_eq!(palette.len(), 3);
}

#[test]
fn free_palette_functions_find_and_append() {
    let mut entries = vec![BlockState::new("minecraft:air".to_string())];
    let stone = BlockState::new("minecraft:stone".to_string());
    assert_eq!(position(&entries, &stone), None);
    assert_eq!(get_or_insert(&mut entries, stone.clone()), 1);
    assert_eq!(position(&entries, &stone), Some(1));
    assert_eq!(get_or_insert(&mut entries, stone.clone()), 1);
    assert_eq!(entries.len(), 2);
}

#[test]
fn palettes_compare_entry_by_entry() {
    let stone = BlockState::new("minecraft:stone".to_string());
    let dirt = BlockState::new("minecraft:dirt".to_string());
    let mut first = GlobalPalette::new();
    let mut second = GlobalPalette::new();
    assert!(first == second);
    first.get_or_insert(stone.clone());
    assert!(first != second);
    second.get_or_insert(stone.clone());
    assert!(first == second);
    first.get_or_insert(dirt.clone());
    second.get_or_insert(BlockState::new("minecraft:sand".to_string()));
    assert!(first != second);
    assert!(first == first.clone());
}
