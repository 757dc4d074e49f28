use std::io::Read;

use minecraft_schematic_utils::block_entity::BlockEntity;
use minecraft_schematic_utils::entity::Entity;
use minecraft_schematic_utils::error::{DecodeError, FormatError, NbtError};
use minecraft_schematic_utils::formats::litematic::{
    create_metadata, create_regions, from_litematic, parse_metadata, parse_regions,
    region_from_litematic, region_to_litematic, to_litematic,
};
use minecraft_schematic_utils::region::Region;
use minecraft_schematic_utils::utils::nbt::{NbtMap, NbtValue};
use minecraft_schematic_utils::{BlockState, UniversalSchematic};
use quartz_nbt::{NbtCompound, NbtList, NbtTag};

fn to_quartz(value: &NbtValue) -> NbtTag {
    match value {
        NbtValue::Byte(v) => NbtTag::Byte(*v),
        NbtValue::Short(v) => NbtTag::Short(*v),
        NbtValue::Int(v) => NbtTag::Int(*v),
        NbtValue::Long(v) => NbtTag::Long(*v),
        NbtValue::Float(v) => NbtTag::Float(f32::from_bits(*v)),
        NbtValue::Double(v) => NbtTag::Double(f64::from_bits(*v)),
        NbtValue::ByteArray(v) => NbtTag::ByteArray(v.clone()),
        NbtValue::String(v) => NbtTag::String(v.clone()),
        NbtValue::List(v) => NbtTag::List(NbtList::from(v.iter().map(to_quartz).collect::<Vec<_>>())),
        NbtValue::Compound(v) => NbtTag::Compound(map_to_quartz(v)),
        NbtValue::IntArray(v) => NbtTag::IntArray(v.clone()),
        NbtValue::LongArray(v) => NbtTag::LongArray(v.clone()),
    }
}

fn map_to_quartz(map: &NbtMap) -> NbtCompound {
    let mut compound = NbtCompound::new();
    for (key, value) in &map.entries {
        compound.insert(key.clone(), to_quartz(value));
    }
    compound
}

fn from_quartz(tag: &NbtTag) -> NbtValue {
    match tag {
        NbtTag::Byte(v) => NbtValue::Byte(*v),
        NbtTag::Short(v) => NbtValue::Short(*v),
        NbtTag::Int(v) => NbtValue::Int(*v),
        NbtTag::Long(v) => NbtValue::Long(*v),
        NbtTag::Float(v) => NbtValue::Float(v.to_bits()),
        NbtTag::Double(v) => NbtValue::Double(v.to_bits()),
        NbtTag::ByteArray(v) => NbtValue::ByteArray(v.clone()),
        NbtTag::String(v) => NbtValue::String(v.clone()),
        NbtTag::List(v) => NbtValue::List(v.iter().map(from_quartz).collect()),
        NbtTag::Compound(v) => NbtValue::Compound(map_from_quartz(v)),
        NbtTag::IntArray(v) => NbtValue::IntArray(v.clone()),
        NbtTag::LongArray(v) => NbtValue::LongArray(v.clone()),
    }
}

fn map_from_quartz(compound: &NbtCompound) -> NbtMap {
    let mut map = NbtMap::new();
    for (key, value) in compound.inner() {
        map.insert(key.clone(), from_quartz(value));
    }
    map
}

fn to_bytes(root: &NbtMap) -> Vec<u8> {
    let mut encoder = flate2::write::GzEncoder::new(Vec::new(), flate2::Compression::default());
    quartz_nbt::io::write_nbt(
        &mut encoder,
        None,
        &map_to_quartz(root),
        quartz_nbt::io::Flavor::Uncompressed,
    )
    .unwrap();
    encoder.finish().unwrap()
}

fn from_bytes(data: &[u8]) -> NbtMap {
    let mut decoder = flate2::read::GzDecoder::new(data);
    let mut decompressed = Vec::new();
    decoder.read_to_end(&mut decompressed).unwrap();
    let (root, _) = quartz_nbt::io::read_nbt(
        &mut std::io::Cursor::new(decompressed),
        quartz_nbt::io::Flavor::Uncompressed,
    )
    .unwrap();
    map_from_quartz(&root)
}

fn string_at<'a>(map: &'a NbtMap, key: &str) -> &'a str {
    map.get(key).unwrap().as_string().unwrap()
}

#[test]
fn test_create_metadata() {
    let mut schematic = UniversalSchematic::new("Test Schematic".to_string());
    schematic.metadata.author = Some("Test Author".to_string());
    schematic.metadata.description = Some("Test Description".to_string());
    schematic.metadata.created = Some(1000);
    schematic.metadata.modified = Some(2000);

    let metadata = create_metadata(&schematic, 123456);

    assert_eq!(string_at(&metadata, "Name"), "Test Schematic");
    assert_eq!(string_at(&metadata, "Author"), "Test Author");
    assert_eq!(string_at(&metadata, "Description"), "Test Description");
    assert_eq!(metadata.get_long("TimeCreated").unwrap(), 1000);
    assert_eq!(metadata.get_long("TimeModified").unwrap(), 2000);
    assert!(metadata.contains_key("EnclosingSize"));
    assert!(metadata.contains_key("TotalVolume"));
    assert!(metadata.contains_key("TotalBlocks"));
    assert!(metadata.contains_key("RegionCount"));
    assert_eq!(string_at(&metadata, "Software"), "UniversalSchematic");
}

#[test]
fn test_create_regions() {
    let mut schematic = UniversalSchematic::new("Test Schematic".to_string());
    let mut region = Region::new("TestRegion".to_string(), (0, 0, 0), (2, 2, 2));

    let stone = BlockState::new("minecraft:stone".to_string());

    region.set_block(0, 0, 0, stone.clone());
    region.set_block(1, 1, 1, stone.clone());

    let entity = Entity::new(
        "minecraft:creeper".to_string(),
        (0.5f64.to_bits(), 0.0f64.to_bits(), 0.5f64.to_bits()),
    );
    region.add_entity(entity);

    let block_entity = BlockEntity::new("minecraft:chest".to_string(), (0, 1, 0));
    region.add_block_entity(block_entity);

    schematic.add_region(region);

    let regions = create_regions(&schematic);

    assert!(regions.contains_key("TestRegion"));
    let region_nbt = regions.get_compound("TestRegion").unwrap();

    assert!(region_nbt.contains_key("Position"));
    assert!(region_nbt.contains_key("Size"));
    assert!(region_nbt.contains_key("BlockStatePalette"));
    assert!(region_nbt.contains_key("BlockStates"));
    assert!(region_nbt.contains_key("Entities"));
    assert!(region_nbt.contains_key("TileEntities"));
    assert!(region_nbt.contains_key("PendingBlockTicks"));
    assert!(region_nbt.contains_key("PendingFluidTicks"));
}

#[test]
fn test_parse_metadata() {
    let mut root = NbtMap::new();
    let mut metadata = NbtMap::new();
    metadata.put("Name", NbtValue::String("Test Schematic".to_string()));
    metadata.put("Author", NbtValue::String("Test Author".to_string()));
    metadata.put("Description", NbtValue::String("Test Description".to_string()));
    metadata.put("TimeCreated", NbtValue::Long(1000));
    metadata.put("TimeModified", NbtValue::Long(2000));
    root.put("Metadata", NbtValue::Compound(metadata));

    let mut schematic = UniversalSchematic::new("".to_string());
    parse_metadata(&root, &mut schematic).unwrap();

    assert_eq!(schematic.metadata.name, Some("Test Schematic".to_string()));
    assert_eq!(schematic.metadata.author, Some("Test Author".to_string()));
    assert_eq!(schematic.metadata.description, Some("Test Description".to_string()));
    assert_eq!(schematic.metadata.created, Some(1000));
    assert_eq!(schematic.metadata.modified, Some(2000));
}

#[test]
fn test_parse_regions() {
    let mut root = NbtMap::new();
    let mut regions = NbtMap::new();
    let mut region = NbtMap::new();

    let mut position = NbtMap::new();
    position.put("x", NbtValue::Int(0));
    position.put("y", NbtValue::Int(0));
    position.put("z", NbtValue::Int(0));
    region.put("Position", NbtValue::Compound(position));

    let mut size = NbtMap::new();
    size.put("x", NbtValue::Int(2));
    size.put("y", NbtValue::Int(2));
    size.put("z", NbtValue::Int(2));
    region.put("Size", NbtValue::Compound(size));

    let palette = vec![
        BlockState::new("minecraft:air".to_string()).to_nbt(),
        BlockState::new("minecraft:stone".to_string()).to_nbt(),
    ];
    region.put("BlockStatePalette", NbtValue::List(palette));

    // 2x2x2 region with 2 stone blocks and 6 air blocks
    region.put("BlockStates", NbtValue::LongArray(vec![0b10000001]));

    regions.put("TestRegion", NbtValue::Compound(region));
    root.put("Regions", NbtValue::Compound(regions));

    let mut schematic = UniversalSchematic::new("Test Schematic".to_string());
    parse_regions(&root, &mut schematic).unwrap();

    assert_eq!(schematic.regions.len(), 1);
    assert!(schematic.regions.contains_key("TestRegion"));

    let parsed_region = schematic.regions.get("TestRegion").unwrap();
    assert_eq!(parsed_region.position, (0, 0, 0));
    assert_eq!(parsed_region.size, (2, 2, 2));
    assert_eq!(parsed_region.palette.len(), 2);
    assert_eq!(parsed_region.count_blocks(), 2); // 2 stone blocks
    assert_eq!(schematic.default_region_name, "TestRegion");
}

#[test]
fn test_litematic_roundtrip() {
    let mut original_schematic = UniversalSchematic::new("Test Schematic".to_string());
    let mut region = Region::new("TestRegion".to_string(), (0, 0, 0), (2, 2, 2));

    let stone = BlockState::new("minecraft:stone".to_string());

    region.set_block(0, 0, 0, stone.clone());
    region.set_block(1, 1, 1, stone.clone());

    original_schematic.add_region(region);

    // Convert to Litematic
    let litematic_data = to_bytes(&to_litematic(&original_schematic, 1_700_000_000_000));

    // Convert back from Litematic
    let roundtrip_schematic = from_litematic(&from_bytes(&litematic_data)).unwrap();

    // Compare original and roundtrip schematics
    assert_eq!(original_schematic.metadata.name, roundtrip_schematic.metadata.name);
    assert_eq!(original_schematic.regions.len(), roundtrip_schematic.regions.len());

    let original_region = original_schematic.regions.get("TestRegion").unwrap();
    let roundtrip_region = roundtrip_schematic.regions.get("TestRegion").unwrap();

    assert_eq!(original_region.position, roundtrip_region.position);
    assert_eq!(original_region.size, roundtrip_region.size);
    assert_eq!(original_region.count_blocks(), roundtrip_region.count_blocks());

    // Check if blocks are in the same positions
    for x in 0..2 {
        for y in 0..2 {
            for z in 0..2 {
                assert_eq!(
                    original_region.get_block(x, y, z),
                    roundtrip_region.get_block(x, y, z)
                );
            }
        }
    }
}

#[test]
fn litematic_region_round_trip_keeps_everything() {
    let mut region = Region::new("R".to_string(), (3, -2, 1), (-3, 2, 2));
    let lever = BlockState::new("minecraft:lever".to_string())
        .with_property("face".to_string(), "floor".to_string());
    region.set_block(1, -2, 1, lever.clone());
    region.set_block(3, -1, 2, BlockState::new("minecraft:stone".to_string()));
    region.add_entity(
        Entity::new(
            "minecraft:pig".to_string(),
            (1.25f64.to_bits(), (-2.0f64).to_bits(), 0.5f64.to_bits()),
        )
        .with_nbt_data("Age".to_string(), "3".to_string()),
    );
    region.add_block_entity(
        BlockEntity::new("minecraft:chest".to_string(), (3, -1, 2)).with_item(
            1,
            "minecraft:dirt",
            7,
        ),
    );
    let value = region_to_litematic(&region);
    let compound = value.as_compound().unwrap();
    let back = region_from_litematic("R".to_string(), compound).unwrap();
    assert_eq!(back.name, "R");
    assert_eq!(back.position, region.position);
    assert_eq!(back.size, region.size);
    assert_eq!(back.blocks, region.blocks);
    assert_eq!(back.get_palette(), region.get_palette());
    assert_eq!(back.entities, region.entities);
    assert_eq!(back.get_block_entities_as_list(), region.get_block_entities_as_list());
    assert_eq!(back.get_block(1, -2, 1), Some(&lever));
}

#[test]
fn litematic_region_errors() {
    let region = Region::new("R".to_string(), (0, 0, 0), (2, 2, 2));
    let good = region_to_litematic(&region);
    let good = good.as_compound().unwrap();

    let without = |key: &str| {
        let mut copy = NbtMap::new();
        for (k, v) in &good.entries {
            if k != key {
                copy.insert(k.clone(), v.clone());
            }
        }
        copy
    };
    assert_eq!(
        region_from_litematic("R".to_string(), &without("Position")).err(),
        Some(FormatError::Nbt(NbtError::Position))
    );
    assert_eq!(
        region_from_litematic("R".to_string(), &without("Size")).err(),
        Some(FormatError::Nbt(NbtError::Size))
    );
    assert_eq!(
        region_from_litematic("R".to_string(), &without("BlockStatePalette")).err(),
        Some(FormatError::Nbt(NbtError::BlockStatePalette))
    );
    assert_eq!(
        region_from_litematic("R".to_string(), &without("BlockStates")).err(),
        Some(FormatError::Nbt(NbtError::BlockStates))
    );
    let mut long = without("BlockStates");
    long.put("BlockStates", NbtValue::LongArray(vec![0, 0]));
    assert_eq!(
        region_from_litematic("R".to_string(), &long).err(),
        Some(FormatError::Decode(DecodeError::PackedLength))
    );
    let mut wild = without("BlockStates");
    wild.put("BlockStates", NbtValue::LongArray(vec![0b10]));
    assert_eq!(
        region_from_litematic("R".to_string(), &wild).err(),
        Some(FormatError::Decode(DecodeError::PaletteIndex))
    );
    let mut huge = without("Size");
    let mut size = NbtMap::new();
    size.put("x", NbtValue::Int(i32::MAX));
    size.put("y", NbtValue::Int(i32::MAX));
    size.put("z", NbtValue::Int(i32::MAX));
    huge.put("Size", NbtValue::Compound(size));
    assert_eq!(
        region_from_litematic("R".to_string(), &huge).err(),
        Some(FormatError::Nbt(NbtError::Size))
    );
    assert_eq!(FormatError::Nbt(NbtError::Size).message(), "Invalid Size tag");
}

#[test]
fn litematic_root_has_versions_and_fails_as_a_whole() {
    let mut schematic = UniversalSchematic::new("Cube".to_string());
    schematic.set_block(0, 0, 0, BlockState::new("minecraft:stone".to_string()));
    schematic.set_block(2, 1, 0, BlockState::new("minecraft:dirt".to_string()));
    let root = to_litematic(&schematic, 42);
    assert_eq!(root.get_int("Version"), Some(6));
    assert_eq!(root.get_int("SubVersion"), Some(1));
    assert_eq!(root.get_int("MinecraftDataVersion"), Some(3700));
    let metadata = root.get_compound("Metadata").unwrap();
    assert_eq!(metadata.get_long("TimeCreated"), Some(42));
    assert_eq!(metadata.get_int("TotalVolume"), Some(30));
    assert_eq!(metadata.get_int("TotalBlocks"), Some(2));
    assert_eq!(metadata.get_int("RegionCount"), Some(1));
    let size = metadata.get_compound("EnclosingSize").unwrap();
    assert_eq!((size.get_int("x"), size.get_int("y"), size.get_int("z")), (Some(5), Some(3), Some(2)));
    let back = from_litematic(&root).unwrap();
    assert_eq!(back.default_region_name, "Main");
    assert_eq!(back.get_block(2, 1, 0), schematic.get_block(2, 1, 0));

    let mut broken = NbtMap::new();
    broken.put("Metadata", NbtValue::Compound(NbtMap::new()));
    assert_eq!(from_litematic(&broken).err(), Some(FormatError::Nbt(NbtError::Regions)));
    assert_eq!(from_litematic(&NbtMap::new()).err(), Some(FormatError::Nbt(NbtError::Metadata)));
    let mut regions = NbtMap::new();
    regions.put("Bad", NbtValue::Compound(NbtMap::new()));
    broken.put("Regions", NbtValue::Compound(regions));
    assert_eq!(from_litematic(&broken).err(), Some(FormatError::Nbt(NbtError::Position)));
}
