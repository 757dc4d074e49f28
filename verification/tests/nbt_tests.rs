use std::io::Cursor;

use minecraft_schematic_utils::block_entity::BlockEntity;
use minecraft_schematic_utils::entity::Entity;
use minecraft_schematic_utils::error::{DecodeError, FormatError, NbtError};
use minecraft_schematic_utils::metadata::Metadata;
use minecraft_schematic_utils::region::Region;
use minecraft_schematic_utils::text::{coordinate_key, parse_coordinate_key};
use minecraft_schematic_utils::utils::nbt::{NbtMap, NbtValue};
use minecraft_schematic_utils::{BlockState, UniversalSchematic};
use quartz_nbt::io::{read_nbt, write_nbt};
use quartz_nbt::{NbtCompound, NbtList, NbtTag};

fn to_quartz(value: &NbtValue) -> NbtTag {
    match value {
        NbtValue::Byte(v) => NbtTag::Byte(*v),
        NbtValue::Short(v) => NbtTag::Short(*v),
        NbtValue::Int(v) => NbtTag::Int(*v),
        NbtValue::Long(v) => NbtTag::Long(*v),
        NbtValue::Float(v) => NbtTag::Float(f32::from_bits(*v)),
        NbtValue::Double(v) => NbtTag::Double(f64::from_bits(*v)),
        NbtValue::ByteArray(v) => NbtTag::ByteArray(v.clone()),
        NbtValue::String(v) => NbtTag::String(v.clone()),
        NbtValue::List(v) => NbtTag::List(NbtList::from(v.iter().map(to_quartz).collect::<Vec<_>>())),
        NbtValue::Compound(v) => NbtTag::Compound(map_to_quartz(v)),
        NbtValue::IntArray(v) => NbtTag::IntArray(v.clone()),
        NbtValue::LongArray(v) => NbtTag::LongArray(v.clone()),
    }
}

fn map_to_quartz(map: &NbtMap) -> NbtCompound {
    let mut compound = NbtCompound::new();
    for (key, value) in &map.entries {
        compound.insert(key.clone(), to_quartz(value));
    }
    compound
}

fn from_quartz(tag: &NbtTag) -> NbtValue {
    match tag {
        NbtTag::Byte(v) => NbtValue::Byte(*v),
        NbtTag::Short(v) => NbtValue::Short(*v),
        NbtTag::Int(v) => NbtValue::Int(*v),
        NbtTag::Long(v) => NbtValue::Long(*v),
        NbtTag::Float(v) => NbtValue::Float(v.to_bits()),
        NbtTag::Double(v) => NbtValue::Double(v.to_bits()),
        NbtTag::ByteArray(v) => NbtValue::ByteArray(v.clone()),
        NbtTag::String(v) => NbtValue::String(v.clone()),
        NbtTag::List(v) => NbtValue::List(v.iter().map(from_quartz).collect()),
        NbtTag::Compound(v) => NbtValue::Compound(map_from_quartz(v)),
        NbtTag::IntArray(v) => NbtValue::IntArray(v.clone()),
        NbtTag::LongArray(v) => NbtValue::LongArray(v.clone()),
    }
}

fn map_from_quartz(compound: &NbtCompound) -> NbtMap {
    let mut map = NbtMap::new();
    for (key, value) in compound.inner() {
        map.insert(key.clone(), from_quartz(value));
    }
    map
}

#[test]
fn test_to_and_from_nbt() {
    let mut region = Region::new("Test".to_string(), (0, 0, 0), (2, 2, 2));
    let stone = BlockState::new("minecraft:stone".to_string());
    region.set_block(0, 0, 0, stone.clone());

    let nbt = region.to_nbt();
    let deserialized_region = match nbt {
        NbtValue::Compound(compound) => Region::from_nbt(&compound).unwrap(),
        _ => panic!("Expected NbtValue::Compound"),
    };

    assert_eq!(region.name, deserialized_region.name);
    assert_eq!(region.position, deserialized_region.position);
    assert_eq!(region.size, deserialized_region.size);
    assert_eq!(region.get_block(0, 0, 0), deserialized_region.get_block(0, 0, 0));
}

#[test]
fn test_to_litematic_nbt() {
    let mut region = Region::new("Test".to_string(), (0, 0, 0), (2, 2, 2));
    let stone = BlockState::new("minecraft:stone".to_string());
    region.set_block(0, 0, 0, stone.clone());

    let nbt = region.to_litematic_nbt();

    assert!(nbt.contains_key("Position"));
    assert!(nbt.contains_key("Size"));
    assert!(nbt.contains_key("BlockStatePalette"));
    assert!(nbt.contains_key("BlockStates"));
    assert!(nbt.contains_key("Entities"));
    assert!(nbt.contains_key("TileEntities"));
}

#[test]
fn test_nbt_serialization_deserialization() {
    let mut schematic = UniversalSchematic::new("Test Schematic".to_string());

    // Add some blocks and entities
    schematic.set_block(0, 0, 0, BlockState::new("minecraft:stone".to_string()));
    schematic.set_block(1, 1, 1, BlockState::new("minecraft:dirt".to_string()));
    schematic.add_entity(
        Entity::new(
            "minecraft:creeper".to_string(),
            (0.5f64.to_bits(), 0.0f64.to_bits(), 0.5f64.to_bits()),
        ),
        (1, 0, 1),
    );

    // Serialize to NBT
    let nbt = schematic.to_nbt();

    // Write NBT to a buffer
    let mut buffer = Vec::new();
    write_nbt(&mut buffer, None, &map_to_quartz(&nbt), quartz_nbt::io::Flavor::Uncompressed)
        .unwrap();

    // Read NBT from the buffer
    let (read_nbt, _) =
        read_nbt(&mut Cursor::new(buffer), quartz_nbt::io::Flavor::Uncompressed).unwrap();

    // Deserialize from NBT
    let deserialized_schematic =
        UniversalSchematic::from_nbt(map_from_quartz(&read_nbt)).unwrap();

    // Compare original and deserialized schematics
    assert_eq!(schematic.metadata, deserialized_schematic.metadata);
    assert_eq!(schematic.regions.len(), deserialized_schematic.regions.len());

    // Check if blocks are correctly deserialized
    assert_eq!(schematic.get_block(0, 0, 0), deserialized_schematic.get_block(0, 0, 0));
    assert_eq!(schematic.get_block(1, 1, 1), deserialized_schematic.get_block(1, 1, 1));

    // Check if entities are correctly deserialized
    let original_entities = schematic.get_region("Main").unwrap().entities.clone();
    let deserialized_entities = deserialized_schematic.get_region("Main").unwrap().entities.clone();
    assert_eq!(original_entities, deserialized_entities);

    // Check if palettes are correctly deserialized
    let original_palette = schematic.get_region("Main").unwrap().get_palette();
    let deserialized_palette = deserialized_schematic.get_region("Main").unwrap().get_palette();
    assert_eq!(original_palette, deserialized_palette);
}

#[test]
fn block_state_structured_value_round_trip() {
    let plain = BlockState::new("minecraft:stone".to_string());
    let value = plain.to_nbt();
    let compound = value.as_compound().unwrap();
    assert_eq!(compound.len(), 1);
    assert_eq!(compound.get_string("Name"), Some(&"minecraft:stone".to_string()));
    assert!(!compound.contains_key("Properties"));
    assert_eq!(BlockState::from_nbt(compound), Ok(plain));

    let lever = BlockState::new("minecraft:lever".to_string())
        .with_property("face".to_string(), "floor".to_string())
        .with_property("powered".to_string(), "true".to_string());
    let value = lever.to_nbt();
    let compound = value.as_compound().unwrap();
    let properties = compound.get_compound("Properties").unwrap();
    assert_eq!(properties.get_string("face"), Some(&"floor".to_string()));
    assert_eq!(properties.len(), 2);
    assert_eq!(BlockState::from_nbt(compound), Ok(lever));

    let mut nameless = NbtMap::new();
    nameless.put("Name", NbtValue::Int(3));
    assert_eq!(BlockState::from_nbt(&nameless), Err(NbtError::Name));
    assert_eq!(NbtError::Name.message(), "Failed to get Name");

    let mut mixed = NbtMap::new();
    mixed.put("Name", NbtValue::String("a".to_string()));
    let mut properties = NbtMap::new();
    properties.put("kept", NbtValue::String("yes".to_string()));
    properties.put("dropped", NbtValue::Int(1));
    mixed.put("Properties", NbtValue::Compound(properties));
    let block = BlockState::from_nbt(&mixed).unwrap();
    assert_eq!(block.properties.len(), 1);
    assert_eq!(block.get_property("kept"), Some(&"yes".to_string()));
}

#[test]
fn entity_structured_value_round_trip_and_errors() {
    let entity = Entity::new(
        "minecraft:pig".to_string(),
        (1.5f64.to_bits(), (-2.25f64).to_bits(), 0.0f64.to_bits()),
    )
    .with_nbt_data("Age".to_string(), "3".to_string());
    let value = entity.to_nbt();
    let compound = value.as_compound().unwrap();
    assert_eq!(Entity::from_nbt(compound), Ok(entity.clone()));
    let quartz = map_to_quartz(compound);
    let position: &NbtList = quartz.get("Pos").unwrap();
    assert_eq!(position.get::<f64>(1).unwrap(), -2.25);

    let replace = |key: &str, value: Option<NbtValue>| {
        let mut copy = NbtMap::new();
        for (k, v) in &compound.entries {
            if k != key {
                copy.insert(k.clone(), v.clone());
            }
        }
        if let Some(v) = value {
            copy.put(key, v);
        }
        copy
    };
    assert_eq!(Entity::from_nbt(&replace("id", None)), Err(NbtError::EntityId));
    assert_eq!(Entity::from_nbt(&replace("Pos", None)), Err(NbtError::EntityPosition));
    assert_eq!(
        Entity::from_nbt(&replace("Pos", Some(NbtValue::List(vec![NbtValue::Double(0)])))),
        Err(NbtError::PositionData)
    );
    assert_eq!(
        Entity::from_nbt(&replace(
            "Pos",
            Some(NbtValue::List(vec![NbtValue::Double(0), NbtValue::Int(0), NbtValue::Double(0)]))
        )),
        Err(NbtError::PositionY)
    );
    assert_eq!(
        Entity::from_nbt(&replace(
            "Pos",
            Some(NbtValue::List(vec![NbtValue::Int(0), NbtValue::Double(0), NbtValue::Double(0)]))
        )),
        Err(NbtError::PositionX)
    );
    assert_eq!(
        Entity::from_nbt(&replace(
            "Pos",
            Some(NbtValue::List(vec![NbtValue::Double(0), NbtValue::Double(0), NbtValue::Long(0)]))
        )),
        Err(NbtError::PositionZ)
    );
    assert_eq!(Entity::from_nbt(&replace("NBT", None)), Err(NbtError::EntityData));
}

#[test]
fn block_entity_structured_value_round_trip_and_errors() {
    let chest = BlockEntity::new("minecraft:chest".to_string(), (1, -2, 3))
        .with_item(0, "minecraft:diamond", 64)
        .with_item(1, "minecraft:dirt", 3);
    assert_eq!(
        chest.nbt.get("Items"),
        Some(
            &"[{id:\"minecraft:diamond\",Count:64b,Slot:0b},{id:\"minecraft:dirt\",Count:3b,Slot:1b}]"
                .to_string()
        )
    );
    let value = chest.to_nbt();
    let compound = value.as_compound().unwrap();
    assert_eq!(BlockEntity::from_nbt(compound), Ok(chest.clone()));
    let mut with_array = compound.clone();
    with_array.put("Pos", NbtValue::IntArray(vec![4, 5, 6]));
    assert_eq!(BlockEntity::from_nbt(&with_array).unwrap().position, (4, 5, 6));
    with_array.put("Pos", NbtValue::IntArray(vec![4, 5]));
    assert_eq!(BlockEntity::from_nbt(&with_array), Err(NbtError::PositionData));
    with_array.put(
        "Pos",
        NbtValue::List(vec![NbtValue::Int(1), NbtValue::Int(2), NbtValue::Long(3)]),
    );
    assert_eq!(BlockEntity::from_nbt(&with_array), Err(NbtError::PositionZ));
    with_array.put(
        "Pos",
        NbtValue::List(vec![NbtValue::Short(1), NbtValue::Int(2), NbtValue::Int(3)]),
    );
    assert_eq!(BlockEntity::from_nbt(&with_array), Err(NbtError::PositionX));
    with_array.put(
        "Pos",
        NbtValue::List(vec![NbtValue::Int(1), NbtValue::String("2".to_string()), NbtValue::Int(3)]),
    );
    assert_eq!(BlockEntity::from_nbt(&with_array), Err(NbtError::PositionY));
    with_array.put("Pos", NbtValue::Int(1));
    assert_eq!(BlockEntity::from_nbt(&with_array), Err(NbtError::PositionData));
    let mut without_data = compound.clone();
    assert!(without_data.remove("NBT").is_some());
    assert_eq!(BlockEntity::from_nbt(&without_data), Err(NbtError::BlockEntityData));
    assert_eq!(BlockEntity::from_nbt(&NbtMap::new()), Err(NbtError::BlockEntityId));
}

#[test]
fn metadata_structured_value_round_trip() {
    let metadata = Metadata::new(
        Some("N".to_string()),
        None,
        Some("D".to_string()),
        Some(u64::MAX),
        None,
        Some(6),
        None,
        Some(-1),
    );
    let value = metadata.to_nbt();
    let compound = value.as_compound().unwrap();
    assert_eq!(compound.len(), 5);
    assert_eq!(compound.get_long("TimeCreated"), Some(-1));
    assert_eq!(Metadata::from_nbt(compound), Ok(metadata));
    assert_eq!(Metadata::from_nbt(&NbtMap::new()), Ok(Metadata::default()));
}

#[test]
fn compound_later_binding_replaces_earlier() {
    let mut map = NbtMap::new();
    assert!(map.insert("a".to_string(), NbtValue::Int(1)).is_none());
    assert!(map.insert("b".to_string(), NbtValue::Int(2)).is_none());
    let former = map.insert("a".to_string(), NbtValue::Int(3)).unwrap();
    assert_eq!(former.as_i32(), Some(1));
    assert_eq!(map.len(), 2);
    assert_eq!(map.get_int("a"), Some(3));
    assert_eq!(map.key_at(0), "a");
    assert_eq!(map.value_at(1).as_i32(), Some(2));
    map.entries.push(("b".to_string(), NbtValue::String("late".to_string())));
    assert_eq!(map.get_string("b"), Some(&"late".to_string()));
    assert!(!map.is_current(1));
    assert!(map.is_current(2));
    assert_eq!(map.get_int("b"), None);
    assert_eq!(NbtValue::Byte(-3).as_i32(), Some(-3));
    assert_eq!(NbtValue::Short(7).as_i16(), Some(7));
    assert_eq!(NbtValue::Long(7).as_i32(), None);
    assert_eq!(NbtValue::Long(7).as_i64(), Some(7));
}

#[test]
fn coordinate_keys_parse_only_in_their_written_form() {
    assert_eq!(coordinate_key(1, -20, 300), "1,-20,300");
    assert_eq!(coordinate_key(i32::MIN, 0, i32::MAX), "-2147483648,0,2147483647");
    assert_eq!(parse_coordinate_key("1,-20,300"), Some((1, -20, 300)));
    assert_eq!(
        parse_coordinate_key("-2147483648,0,2147483647"),
        Some((i32::MIN, 0, i32::MAX))
    );
    for bad in [
        "", "1,2", "1,2,3,4", "1,,3", "a,2,3", "1, 2,3", "+1,2,3", "01,2,3", "-0,2,3",
        "2147483648,0,0", "-2147483649,0,0", "1,2,3 ", "1,2,-",
    ] {
        assert_eq!(parse_coordinate_key(bad), None, "{}", bad);
    }
}

#[test]
fn region_structured_value_round_trip_and_errors() {
    let mut region = Region::new("R".to_string(), (-1, 0, 2), (2, 1, 2));
    let stone = BlockState::new("minecraft:stone".to_string());
    region.set_block(0, 0, 3, stone.clone());
    region.add_block_entity(BlockEntity::new("minecraft:chest".to_string(), (0, 0, 3)));
    region.add_entity(Entity::new("minecraft:pig".to_string(), (0, 0, 0)));
    let value = region.to_nbt();
    let compound = value.as_compound().unwrap();
    let blocks = compound.get_compound("Blocks").unwrap();
    assert_eq!(blocks.len(), 4);
    assert_eq!(blocks.get_int("0,0,3"), Some(1));
    assert_eq!(blocks.get_int("-1,0,2"), Some(0));
    let back = Region::from_nbt(compound).unwrap();
    assert_eq!(back.name, "R");
    assert_eq!(back.position, (-1, 0, 2));
    assert_eq!(back.size, (2, 1, 2));
    assert_eq!(back.blocks, region.blocks);
    assert_eq!(back.get_palette(), region.get_palette());
    assert_eq!(back.entities, region.entities);
    assert_eq!(back.get_block_entities_as_list(), region.get_block_entities_as_list());

    let replace = |key: &str, value: Option<NbtValue>| {
        let mut copy = NbtMap::new();
        for (k, v) in &compound.entries {
            if k != key {
                copy.insert(k.clone(), v.clone());
            }
        }
        if let Some(v) = value {
            copy.put(key, v);
        }
        copy
    };
    let nbt_error = |map: &NbtMap| match Region::from_nbt(map) {
        Err(e) => e,
        Ok(_) => panic!("expected an error"),
    };
    assert_eq!(nbt_error(&replace("Name", None)), FormatError::Nbt(NbtError::RegionName));
    assert_eq!(
        nbt_error(&replace("Position", Some(NbtValue::IntArray(vec![1, 2])))),
        FormatError::Nbt(NbtError::Position)
    );
    assert_eq!(
        nbt_error(&replace("Size", Some(NbtValue::IntArray(vec![i32::MAX, i32::MAX, i32::MAX])))),
        FormatError::Nbt(NbtError::Size)
    );
    assert_eq!(
        nbt_error(&replace("Palette", Some(NbtValue::List(vec![NbtValue::Int(0)])))),
        FormatError::Nbt(NbtError::Palette)
    );
    let mut outside = NbtMap::new();
    outside.put("9,9,9", NbtValue::Int(0));
    assert_eq!(
        nbt_error(&replace("Blocks", Some(NbtValue::Compound(outside)))),
        FormatError::Nbt(NbtError::Blocks)
    );
    let mut unnamed = NbtMap::new();
    unnamed.put("here", NbtValue::Int(0));
    assert_eq!(
        nbt_error(&replace("Blocks", Some(NbtValue::Compound(unnamed)))),
        FormatError::Nbt(NbtError::Blocks)
    );
    let mut wild = NbtMap::new();
    wild.put("0,0,2", NbtValue::Int(7));
    assert_eq!(
        nbt_error(&replace("Blocks", Some(NbtValue::Compound(wild)))),
        FormatError::Decode(DecodeError::PaletteIndex)
    );
    let mut negative = NbtMap::new();
    negative.put("0,0,2", NbtValue::Int(-1));
    assert_eq!(
        nbt_error(&replace("Blocks", Some(NbtValue::Compound(negative)))),
        FormatError::Decode(DecodeError::PaletteIndex)
    );
    assert_eq!(nbt_error(&replace("Entities", None)), FormatError::Nbt(NbtError::Entities));
    let mut misplaced = NbtMap::new();
    misplaced.put("nowhere", NbtValue::Compound(NbtMap::new()));
    assert_eq!(
        nbt_error(&replace("BlockEntities", Some(NbtValue::Compound(misplaced)))),
        FormatError::Nbt(NbtError::BlockEntities)
    );
    let mut sparse = NbtMap::new();
    sparse.put("0,0,2", NbtValue::Int(1));
    let partial = Region::from_nbt(&replace("Blocks", Some(NbtValue::Compound(sparse)))).unwrap();
    assert_eq!(partial.get_block(0, 0, 2), Some(&stone));
    assert_eq!(partial.count_blocks(), 1);
}

#[test]
fn schematic_structured_value_errors() {
    let mut schematic = UniversalSchematic::new("S".to_string());
    schematic.set_block(0, 0, 0, BlockState::new("minecraft:stone".to_string()));
    let root = schematic.to_nbt();
    assert_eq!(root.get_string("DefaultRegion"), Some(&"Main".to_string()));
    let without = |key: &str| {
        let mut copy = NbtMap::new();
        for (k, v) in &root.entries {
            if k != key {
                copy.insert(k.clone(), v.clone());
            }
        }
        copy
    };
    let error = |map: NbtMap| match UniversalSchematic::from_nbt(map) {
        Err(e) => e,
        Ok(_) => panic!("expected an error"),
    };
    assert_eq!(error(without("Metadata")), FormatError::Nbt(NbtError::Metadata));
    assert_eq!(error(without("Regions")), FormatError::Nbt(NbtError::Regions));
    assert_eq!(error(without("DefaultRegion")), FormatError::Nbt(NbtError::DefaultRegion));
    let mut broken = without("Regions");
    let mut regions = NbtMap::new();
    regions.put("Main", NbtValue::Compound(NbtMap::new()));
    broken.put("Regions", NbtValue::Compound(regions));
    assert_eq!(error(broken), FormatError::Nbt(NbtError::RegionName));
}
