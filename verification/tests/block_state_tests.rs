use minecraft_schematic_utils::BlockState;

#[test]
fn test_block_state_creation() {
    let block = BlockState::new("minecraft:stone".to_string())
        .with_property("variant".to_string(), "granite".to_string());

    assert_eq!(block.name, "minecraft:stone");
    assert_eq!(block.properties.get("variant"), Some(&"granite".to_string()));
}
