use minecraft_schematic_utils::block_entity::BlockEntity;
use minecraft_schematic_utils::entity::Entity;
use minecraft_schematic_utils::error::{DecodeError, FormatError, NbtError};
use minecraft_schematic_utils::formats::block_text::{is_whitespace, parse_block_state};
use minecraft_schematic_utils::formats::litematic::{is_litematic, to_litematic};
use minecraft_schematic_utils::formats::schematic::{
    convert_palette, decode_varint, encode_block_data, encode_varint, from_schematic,
    is_schematic, parse_block_data, parse_palette, to_schematic,
};
use minecraft_schematic_utils::region::Region;
use minecraft_schematic_utils::string_map::StringMap;
use minecraft_schematic_utils::utils::nbt::{NbtMap, NbtValue};
use minecraft_schematic_utils::{BlockState, UniversalSchematic};

#[test]
fn test_varint_encoding_decoding() {
    let test_cases = vec![
        0u32,
        1u32,
        127u32,
        128u32,
        255u32,
        256u32,
        65535u32,
        65536u32,
        4294967295u32,
    ];

    for &value in &test_cases {
        let encoded = encode_varint(value);

        let (decoded, _) = decode_varint(&encoded, 0).unwrap();

        assert_eq!(value, decoded, "Encoding and decoding failed for value: {}", value);
    }
}

#[test]
fn test_parse_block_data() {
    let block_data = vec![0, 1, 2, 1, 0, 2, 1, 0]; // 8 blocks
    let encoded_block_data: Vec<u8> = block_data.iter().flat_map(|&v| encode_varint(v)).collect();

    let parsed_data =
        parse_block_data(&encoded_block_data, 2, 2, 2).expect("Failed to parse block data");
    assert_eq!(parsed_data, vec![0, 1, 2, 1, 0, 2, 1, 0]);
}

#[test]
fn test_convert_palette() {
    let mut wool_properties = StringMap::new();
    wool_properties.insert("color".to_string(), "red".to_string());
    let palette = vec![
        BlockState::new("minecraft:stone".to_string()),
        BlockState::new("minecraft:dirt".to_string()),
        BlockState { name: "minecraft:wool".to_string(), properties: wool_properties },
    ];

    let (nbt_palette, max_id) = convert_palette(&palette);

    assert_eq!(max_id, 2);
    assert_eq!(nbt_palette.get_int("minecraft:stone").unwrap(), 0);
    assert_eq!(nbt_palette.get_int("minecraft:dirt").unwrap(), 1);
    assert_eq!(nbt_palette.get_int("minecraft:wool[color=red]").unwrap(), 2);
}

#[test]
fn varint_bytes_are_exact() {
    assert_eq!(encode_varint(0), vec![0]);
    assert_eq!(encode_varint(127), vec![0x7f]);
    assert_eq!(encode_varint(128), vec![0x80, 0x01]);
    assert_eq!(encode_varint(300), vec![0xac, 0x02]);
    assert_eq!(encode_varint(u32::MAX), vec![0xff, 0xff, 0xff, 0xff, 0x0f]);
    assert_eq!(decode_varint(&[0xac, 0x02, 0x05], 0), Ok((300, 2)));
    assert_eq!(decode_varint(&[0xac, 0x02, 0x05], 2), Ok((5, 3)));
    assert_eq!(decode_varint(&[0xac], 0), Err(DecodeError::VarintEnd));
    assert_eq!(decode_varint(&[], 0), Err(DecodeError::VarintEnd));
    assert_eq!(decode_varint(&[1], 4), Err(DecodeError::VarintEnd));
    assert_eq!(
        decode_varint(&[0x80, 0x80, 0x80, 0x80, 0x80, 0x01], 0),
        Err(DecodeError::VarintLength)
    );
    // of a number of five bytes the bits beyond the 32nd are dropped
    assert_eq!(decode_varint(&[0xff, 0xff, 0xff, 0xff, 0x7f], 0), Ok((u32::MAX, 5)));
    assert_eq!(DecodeError::VarintLength.message(), "Varint is too long");
}

#[test]
fn block_data_is_rejected_as_a_whole() {
    assert_eq!(parse_block_data(&[0, 1, 2], 2, 2, 1), Err(DecodeError::BlockCount));
    assert_eq!(parse_block_data(&[0, 1, 2, 3, 4], 2, 2, 1), Err(DecodeError::BlockCount));
    assert_eq!(parse_block_data(&[0, 1, 2, 0x80], 2, 2, 1), Err(DecodeError::VarintEnd));
    assert_eq!(parse_block_data(&[], 0, 5, 5), Ok(vec![]));
    assert_eq!(encode_block_data(&vec![0, 300, 1]), vec![0, 0xacu8 as i8, 2, 1]);
}

#[test]
fn block_state_text_is_parsed_like_the_palette_names() {
    assert_eq!(
        parse_block_state("minecraft:stone"),
        BlockState::new("minecraft:stone".to_string())
    );
    let lever = parse_block_state("minecraft:lever[face=floor, powered = true ]");
    assert_eq!(lever.name, "minecraft:lever");
    assert_eq!(lever.get_property("face"), Some(&"floor".to_string()));
    assert_eq!(lever.get_property("powered"), Some(&"true".to_string()));
    assert_eq!(lever.properties.len(), 2);
    let odd = parse_block_state("a[x=1,novalue,y=2=3,x=4]]]");
    assert_eq!(odd.name, "a");
    assert_eq!(odd.get_property("x"), Some(&"4".to_string()));
    assert_eq!(odd.get_property("y"), Some(&"2=3".to_string()));
    assert_eq!(odd.properties.len(), 2);
    let empty = parse_block_state("a[]");
    assert_eq!(empty.name, "a");
    assert!(empty.properties.is_empty());
    let bare = parse_block_state("[k=v");
    assert_eq!(bare.name, "");
    assert_eq!(bare.get_property("k"), Some(&"v".to_string()));
    let written = BlockState::new("minecraft:wool".to_string())
        .with_property("color".to_string(), "red".to_string())
        .with_property("lit".to_string(), "false".to_string());
    assert_eq!(written.to_string(), "minecraft:wool[color=red,lit=false]");
    assert_eq!(parse_block_state(&written.to_string()), written);
    for c in ['\t', '\n', ' ', '\u{a0}', '\u{2003}', '\u{3000}'] {
        assert!(is_whitespace(c));
        assert!(c.is_whitespace());
    }
    for c in ['a', '0', '_', '\u{200b}', '\u{feff}'] {
        assert!(!is_whitespace(c));
        assert!(!c.is_whitespace());
    }
}

#[test]
fn is_whitespace_agrees_with_the_standard_library_everywhere() {
    for code in 0u32..=0x10ffff {
        if let Some(c) = char::from_u32(code) {
            assert_eq!(is_whitespace(c), c.is_whitespace(), "{:x}", code);
        }
    }
}

fn sample() -> UniversalSchematic {
    let mut schematic = UniversalSchematic::new("Sample".to_string());
    let stone = BlockState::new("minecraft:stone".to_string());
    let lever = BlockState::new("minecraft:lever".to_string())
        .with_property("powered".to_string(), "true".to_string());
    let mut first = Region::new("First".to_string(), (0, 0, 0), (2, 1, 3));
    first.set_block(1, 0, 2, stone.clone());
    first.add_block_entity(BlockEntity::new("minecraft:chest".to_string(), (1, 0, 2)));
    let mut second = Region::new("Second".to_string(), (0, 1, 0), (1, 1, 1));
    second.set_block(0, 1, 0, lever.clone());
    second.add_entity(Entity::new("minecraft:pig".to_string(), (0, 0, 0)));
    schematic.add_region(first);
    schematic.add_region(second);
    schematic.metadata.mc_version = Some(3105);
    schematic
}

#[test]
fn sponge_value_holds_the_merged_region() {
    let schematic = sample();
    let root = to_schematic(&schematic);
    assert_eq!(root.get_int("Version"), Some(2));
    assert_eq!(root.get_int("DataVersion"), Some(3105));
    assert_eq!(root.get_short("Width"), Some(2));
    assert_eq!(root.get_short("Height"), Some(2));
    assert_eq!(root.get_short("Length"), Some(3));
    assert_eq!(root.get_int_array("Size"), Some(&vec![2, 2, 3]));
    assert_eq!(root.get_int_array("Offset"), Some(&vec![0, 0, 0]));
    assert_eq!(root.get_int("PaletteMax"), Some(2));
    let palette = root.get_compound("Palette").unwrap();
    assert_eq!(palette.get_int("minecraft:air"), Some(0));
    assert_eq!(palette.get_int("minecraft:stone"), Some(1));
    assert_eq!(palette.get_int("minecraft:lever[powered=true]"), Some(2));
    let mut expected = vec![0i8; 12];
    expected[5] = 1; // (1, 0, 2): x + z * 2 + y * 6
    expected[6] = 2; // (0, 1, 0)
    assert_eq!(root.get_byte_array("BlockData"), Some(&expected));
    assert_eq!(root.get_list("BlockEntities").unwrap().len(), 1);
    let chest = root.get_list("BlockEntities").unwrap()[0].as_compound().unwrap();
    assert_eq!(chest.get_int_array("Pos"), Some(&vec![1, 0, 2]));
    assert_eq!(root.get_list("Entities").unwrap().len(), 1);
    assert_eq!(
        root.get_compound("Metadata").unwrap().get_string("Name"),
        Some(&"Sample".to_string())
    );

    let back = from_schematic(&root).unwrap();
    assert_eq!(back.metadata.name, Some("Sample".to_string()));
    assert_eq!(back.metadata.mc_version, Some(3105));
    assert_eq!(back.regions.len(), 1);
    let main = back.get_region("Main").unwrap();
    assert_eq!(main.position, (0, 0, 0));
    assert_eq!(main.size, (2, 2, 3));
    for x in 0..2 {
        for y in 0..2 {
            for z in 0..3 {
                let merged = schematic.get_merged_region();
                assert_eq!(main.get_block(x, y, z), merged.get_block(x, y, z));
            }
        }
    }
    assert_eq!(main.block_entities.len(), 1);
    assert_eq!(main.block_entities.get(&(1, 0, 2)).unwrap().id, "minecraft:chest");
    assert_eq!(main.entities.len(), 1);
}

#[test]
fn sponge_value_errors() {
    let root = to_schematic(&sample());
    let replace = |key: &str, value: Option<NbtValue>| {
        let mut copy = NbtMap::new();
        for (k, v) in &root.entries {
            if k != key {
                copy.insert(k.clone(), v.clone());
            }
        }
        if let Some(v) = value {
            copy.put(key, v);
        }
        copy
    };
    let error = |map: NbtMap| match from_schematic(&map) {
        Err(e) => e,
        Ok(_) => panic!("expected an error"),
    };
    assert_eq!(error(replace("Width", None)), FormatError::Nbt(NbtError::Width));
    assert_eq!(
        error(replace("Height", Some(NbtValue::Short(0)))),
        FormatError::Nbt(NbtError::Height)
    );
    assert_eq!(
        error(replace("Length", Some(NbtValue::Int(3)))),
        FormatError::Nbt(NbtError::Length)
    );
    assert_eq!(error(replace("Palette", None)), FormatError::Nbt(NbtError::Palette));
    assert_eq!(
        error(replace("PaletteMax", Some(NbtValue::Int(-1)))),
        FormatError::Nbt(NbtError::PaletteMax)
    );
    assert_eq!(
        error(replace("PaletteMax", Some(NbtValue::Int(1)))),
        FormatError::Nbt(NbtError::Palette)
    );
    let mut twice = NbtMap::new();
    twice.put("a", NbtValue::Int(0));
    twice.put("b", NbtValue::Int(0));
    assert_eq!(
        error(replace("Palette", Some(NbtValue::Compound(twice)))),
        FormatError::Nbt(NbtError::Palette)
    );
    assert_eq!(error(replace("BlockData", None)), FormatError::Nbt(NbtError::BlockData));
    assert_eq!(
        error(replace("BlockData", Some(NbtValue::ByteArray(vec![0; 11])))),
        FormatError::Decode(DecodeError::BlockCount)
    );
    assert_eq!(
        error(replace("BlockData", Some(NbtValue::ByteArray(vec![3; 12])))),
        FormatError::Decode(DecodeError::PaletteIndex)
    );
    assert_eq!(
        error(replace("BlockData", Some(NbtValue::ByteArray(vec![-1; 12])))),
        FormatError::Decode(DecodeError::VarintLength)
    );
    assert_eq!(error(replace("BlockEntities", None)), FormatError::Nbt(NbtError::BlockEntities));
    assert_eq!(
        error(replace(
            "BlockEntities",
            Some(NbtValue::List(vec![NbtValue::Compound(NbtMap::new())]))
        )),
        FormatError::Nbt(NbtError::BlockEntityId)
    );
    assert_eq!(
        error(replace("Entities", Some(NbtValue::Int(0)))),
        FormatError::Nbt(NbtError::Entities)
    );
    assert!(from_schematic(&replace("Entities", None)).is_ok());
    let unnamed = from_schematic(&replace("Metadata", None)).unwrap();
    assert_eq!(unnamed.metadata.name, Some("Unnamed".to_string()));
    let mut sparse = NbtMap::new();
    sparse.put("minecraft:stone", NbtValue::Int(2));
    let mut with_gaps = replace("Palette", Some(NbtValue::Compound(sparse)));
    with_gaps.put("PaletteMax", NbtValue::Int(2));
    let palette = parse_palette(&with_gaps).unwrap();
    assert_eq!(palette.len(), 3);
    assert_eq!(palette[1].name, "minecraft:air");
    assert_eq!(palette[2].name, "minecraft:stone");
}

#[test]
fn formats_are_told_apart_by_their_tags() {
    let schematic = sample();
    let sponge = schematic.to_schematic();
    let litematic = to_litematic(&schematic, 1_700_000_000_000);
    assert!(is_schematic(&sponge));
    assert!(!is_litematic(&sponge));
    assert!(is_litematic(&litematic));
    assert!(!is_schematic(&litematic));
    assert!(!is_schematic(&NbtMap::new()));
    assert!(!is_litematic(&NbtMap::new()));

    let mut half = NbtMap::new();
    half.put("BlockData", NbtValue::ByteArray(vec![]));
    assert!(!is_schematic(&half));
    half.put("Palette", NbtValue::Int(0));
    assert!(is_schematic(&half));

    let read = UniversalSchematic::from_schematic(&sponge).unwrap();
    assert_eq!(read.get_block(0, 0, 0), schematic.get_block(0, 0, 0));
    assert_eq!(
        UniversalSchematic::from_schematic(&NbtMap::new()).err(),
        from_schematic(&NbtMap::new()).err()
    );
}

fn checkered(width: i32, height: i32, length: i32) -> UniversalSchematic {
    let mut schematic =
        UniversalSchematic::new(format!("Test Schematic {}x{}x{}", width, height, length));
    let stone = BlockState::new("minecraft:stone".to_string());
    let dirt = BlockState::new("minecraft:dirt".to_string());
    for x in 0..width {
        for y in 0..height {
            for z in 0..length {
                let block = if (x + y + z) % 2 == 0 { stone.clone() } else { dirt.clone() };
                assert!(schematic.set_block(x, y, z, block));
            }
        }
    }
    schematic
}

#[test]
fn both_formats_round_trip_for_several_dimensions() {
    let cases =
        vec![(1, 1, 1), (3, 3, 3), (16, 16, 16), (10, 5, 20), (7, 13, 17), (256, 1, 1), (1, 256, 1), (1, 1, 256)];
    for (width, height, length) in cases {
        let schematic = checkered(width, height, length);
        let dimensions = schematic.get_dimensions();

        let sponge = from_schematic(&to_schematic(&schematic)).unwrap();
        assert_eq!(sponge.metadata.name, schematic.metadata.name);
        assert_eq!(sponge.get_dimensions(), dimensions);

        let litematic = minecraft_schematic_utils::formats::litematic::from_litematic(
            &to_litematic(&schematic, 1_700_000_000_000),
        )
        .unwrap();
        assert_eq!(litematic.metadata.name, schematic.metadata.name);
        assert_eq!(litematic.get_dimensions(), dimensions);

        for x in 0..dimensions.0 {
            for y in 0..dimensions.1 {
                for z in 0..dimensions.2 {
                    let block = schematic.get_block(x, y, z);
                    assert_eq!(sponge.get_block(x, y, z), block);
                    assert_eq!(litematic.get_block(x, y, z), block);
                }
            }
        }
    }
}
