use minecraft_schematic_utils::block_entity::generic::BlockEntity as TreeBlockEntity;
use minecraft_schematic_utils::block_position::BlockPosition;
use minecraft_schematic_utils::error::NbtError;
use minecraft_schematic_utils::item::ItemStack;
use minecraft_schematic_utils::mchprs_world::{
    chunk_coordinate, generate_input_combinations, get_chunk_key, MchprsWorldError,
};
use minecraft_schematic_utils::metadata::Metadata;
use minecraft_schematic_utils::palette::GlobalPalette;
use minecraft_schematic_utils::region::Region;
use minecraft_schematic_utils::string_map::StringMap;
use minecraft_schematic_utils::text::{i64_to_string, u64_to_string};
use minecraft_schematic_utils::utils::nbt::{NbtMap, NbtValue};
use minecraft_schematic_utils::utils::calculate_bits_per_block;
use minecraft_schematic_utils::{BlockState, UniversalSchematic};

#[test]
fn string_map_keeps_insertion_order_and_compares_as_a_map() {
    let mut a = StringMap::new();
    assert!(a.is_empty());
    assert_eq!(a.insert("x".to_string(), "1".to_string()), None);
    assert_eq!(a.insert("y".to_string(), "2".to_string()), None);
    assert_eq!(a.insert("x".to_string(), "3".to_string()), Some("1".to_string()));
    assert_eq!(a.len(), 2);
    assert_eq!(a.key_at(0), "x");
    assert_eq!(a.value_at(0), "3");
    assert_eq!(a.key_at(1), "y");
    assert!(a.contains_key("y"));
    assert!(!a.contains_key("z"));
    assert_eq!(a.get("x"), Some(&"3".to_string()));
    assert_eq!(a.get("z"), None);
    let mut b = StringMap::new();
    b.insert("y".to_string(), "2".to_string());
    b.insert("x".to_string(), "3".to_string());
    assert_eq!(a, b);
    assert_eq!(a.clone(), a);
    assert_eq!(b.remove("y"), Some("2".to_string()));
    assert_eq!(b.remove("y"), None);
    assert_ne!(a, b);
    b.insert("w".to_string(), "2".to_string());
    assert_ne!(a, b);
}

#[test]
fn block_state_properties_can_be_set_and_removed() {
    let mut block = BlockState::new("minecraft:lamp".to_string());
    block.set_property("lit".to_string(), "false".to_string());
    block.set_property("lit".to_string(), "true".to_string());
    assert_eq!(block.get_property("lit"), Some(&"true".to_string()));
    block.remove_property("lit");
    assert_eq!(block.get_property("lit"), None);
    assert_eq!(block, BlockState::new("minecraft:lamp".to_string()));
    let mut properties = StringMap::new();
    properties.insert("a".to_string(), "b".to_string());
    let replaced = block.clone().with_property("x".to_string(), "y".to_string()).with_properties(
        properties.clone(),
    );
    assert_eq!(replaced.properties, properties);
    assert_eq!(replaced.to_string(), "minecraft:lamp[a=b]");
    assert!(!block.is_air());
    assert!(BlockState::new("minecraft:air".to_string())
        .with_property("a".to_string(), "b".to_string())
        .is_air());
}

#[test]
fn decimal_numerals_are_exact() {
    assert_eq!(u64_to_string(0), "0");
    assert_eq!(u64_to_string(7), "7");
    assert_eq!(u64_to_string(1234567890), "1234567890");
    assert_eq!(u64_to_string(u64::MAX), u64::MAX.to_string());
    assert_eq!(i64_to_string(0), "0");
    assert_eq!(i64_to_string(-1), "-1");
    assert_eq!(i64_to_string(i64::MIN), i64::MIN.to_string());
    assert_eq!(i64_to_string(i64::MAX), i64::MAX.to_string());
}

#[test]
fn input_combinations_count_up_in_binary() {
    assert_eq!(generate_input_combinations(0), vec![Vec::<bool>::new()]);
    assert_eq!(generate_input_combinations(1), vec![vec![false], vec![true]]);
    assert_eq!(
        generate_input_combinations(2),
        vec![vec![false, false], vec![true, false], vec![false, true], vec![true, true]]
    );
    let three = generate_input_combinations(3);
    assert_eq!(three.len(), 8);
    assert_eq!(three[5], vec![true, false, true]);
}

#[test]
fn chunk_keys_round_down() {
    assert_eq!(chunk_coordinate(0), 0);
    assert_eq!(chunk_coordinate(15), 0);
    assert_eq!(chunk_coordinate(16), 1);
    assert_eq!(chunk_coordinate(-1), -1);
    assert_eq!(chunk_coordinate(-16), -1);
    assert_eq!(chunk_coordinate(-17), -2);
    assert_eq!(chunk_coordinate(i32::MIN), i32::MIN >> 4);
    assert_eq!(chunk_coordinate(i32::MAX), i32::MAX >> 4);
    assert_eq!(get_chunk_key(33, -40), (2, -3));
    assert_eq!(
        MchprsWorldError::InitializationFailed("no chunks".to_string()).message(),
        "Initialization failed: no chunks"
    );
}

#[test]
fn global_palette_structured_value() {
    let mut palette = GlobalPalette::new();
    palette.get_or_insert(BlockState::new("minecraft:stone".to_string()));
    palette.get_or_insert(
        BlockState::new("minecraft:stone".to_string())
            .with_property("k".to_string(), "v".to_string()),
    );
    let value = palette.to_nbt();
    let compound = value.as_compound().unwrap();
    let names = compound.get_list("Blocks").unwrap();
    assert_eq!(names.len(), 3);
    assert_eq!(names[2].as_string(), Some(&"minecraft:stone".to_string()));
    let ids = compound.get_compound("BlockToIndex").unwrap();
    assert_eq!(ids.get_int("minecraft:air"), Some(0));
    assert_eq!(ids.get_int("minecraft:stone"), Some(2));
    let back = GlobalPalette::from_nbt(compound).unwrap();
    assert_eq!(back.len(), 2);
    assert_eq!(back.get(1), Some(&BlockState::new("minecraft:stone".to_string())));
    assert_eq!(back.clone().len(), 2);
    assert_eq!(GlobalPalette::from_nbt(&NbtMap::new()).err(), Some(NbtError::Blocks));
    let mut odd = NbtMap::new();
    odd.put("Blocks", NbtValue::Int(0));
    assert_eq!(GlobalPalette::from_nbt(&odd).err(), Some(NbtError::PaletteBlocks));
    odd.put("Blocks", NbtValue::List(vec![NbtValue::Int(0)]));
    assert_eq!(GlobalPalette::from_nbt(&odd).err(), Some(NbtError::BlockToIndex));
    odd.put("BlockToIndex", NbtValue::Compound(NbtMap::new()));
    assert_eq!(GlobalPalette::from_nbt(&odd).unwrap().len(), 1);
}

#[test]
fn item_stacks_and_chests() {
    let stack = ItemStack::new("minecraft:diamond", 200).with_slot(3);
    assert_eq!(stack.id, "minecraft:diamond");
    assert_eq!(stack.slot, Some(3));
    assert_eq!(stack.clone(), stack);
    let value = stack.to_nbt();
    let compound = value.as_compound().unwrap();
    assert_eq!(compound.get_string("id"), Some(&"minecraft:diamond".to_string()));
    assert_eq!(compound.get("Count").unwrap().as_i32(), Some(200u8 as i8 as i32));
    assert_eq!(compound.get("Slot").unwrap().as_i32(), Some(3));
    assert!(!ItemStack::new("a", 1).to_nbt().as_compound().unwrap().contains_key("Slot"));

    let chest = TreeBlockEntity::create_chest((1, 2, 3), vec![stack, ItemStack::new("b", 2)]);
    assert_eq!(chest.id, "minecraft:chest");
    assert_eq!(chest.position, (1, 2, 3));
    let items = chest.nbt.get_list("Items").unwrap();
    assert_eq!(items.len(), 2);
    assert_eq!(items[1].as_compound().unwrap().get_string("id"), Some(&"b".to_string()));
    let empty = TreeBlockEntity::create_chest((0, 0, 0), vec![]);
    assert_eq!(empty.nbt.len(), 0);
    let tagged = TreeBlockEntity::new("x".to_string(), (0, 0, 0))
        .with_nbt_data("Items".to_string(), NbtValue::Int(1));
    let mut tagged = tagged.clone();
    tagged.add_item_stack(ItemStack::new("c", 1));
    assert_eq!(tagged.nbt.get_list("Items").unwrap().len(), 1);

    let mut described = NbtMap::new();
    described.put("Id", NbtValue::String("minecraft:hopper".to_string()));
    described.put("Pos", NbtValue::IntArray(vec![4, 5, 6, 7]));
    let read = TreeBlockEntity::from_nbt(&described);
    assert_eq!(read.id, "minecraft:hopper");
    assert_eq!(read.position, (4, 5, 6));
    assert_eq!(read.to_nbt().len(), 2);
    let bare = TreeBlockEntity::from_nbt(&NbtMap::new());
    assert_eq!(bare.id, "unknown");
    assert_eq!(bare.position, (0, 0, 0));
}

#[test]
fn compound_entries_can_be_removed_and_changed_in_place() {
    let mut map = NbtMap::new();
    map.put("a", NbtValue::Int(1));
    map.put("b", NbtValue::Int(2));
    map.entries.push(("a".to_string(), NbtValue::Int(3)));
    map.put("c", NbtValue::Int(4));
    let removed = map.remove("a").unwrap();
    assert_eq!(removed.as_i32(), Some(3));
    assert_eq!(map.len(), 2);
    assert_eq!(map.key_at(0), "b");
    assert_eq!(map.key_at(1), "c");
    assert!(map.remove("a").is_none());
    if let Some(value) = map.get_mut("c") {
        *value = NbtValue::String("changed".to_string());
    }
    assert_eq!(map.get_string("c"), Some(&"changed".to_string()));
    assert!(map.get_mut("zz").is_none());
    assert_eq!(map.clone().get_int("b"), Some(2));
}

#[test]
fn schematic_counts_blocks_over_all_regions() {
    let mut schematic = UniversalSchematic::new("Counts".to_string());
    let stone = BlockState::new("minecraft:stone".to_string());
    let dirt = BlockState::new("minecraft:dirt".to_string());
    let mut a = Region::new("A".to_string(), (0, 0, 0), (2, 1, 1));
    a.set_block(0, 0, 0, stone.clone());
    let mut b = Region::new("B".to_string(), (5, 0, 0), (3, 1, 1));
    b.set_block(5, 0, 0, dirt.clone());
    b.set_block(6, 0, 0, stone.clone());
    schematic.add_region(a);
    schematic.add_region(b);
    let counts = schematic.count_block_types();
    assert_eq!(
        counts,
        vec![
            (BlockState::new("minecraft:air".to_string()), 2),
            (stone, 2),
            (dirt, 1),
        ]
    );
    assert_eq!(schematic.total_volume(), 5);
    assert_eq!(schematic.total_blocks(), 3);
    assert_eq!(UniversalSchematic::new("E".to_string()).count_block_types(), vec![]);
}

#[test]
fn small_types_keep_their_fields() {
    let position = BlockPosition::new(1, 2, 3);
    assert_eq!((position.x, position.y, position.z), (1, 2, 3));
    let metadata = Metadata::default();
    assert_eq!(metadata.clone(), metadata);
    assert_ne!(
        Metadata::new(None, None, None, None, None, None, Some(1), None),
        metadata
    );
    assert_eq!(calculate_bits_per_block(17), 5);
}

#[test]
fn tags_compare_by_value() {
    let list = |items: Vec<i32>| NbtValue::List(items.into_iter().map(NbtValue::Int).collect());
    assert_eq!(NbtValue::Int(3), NbtValue::Int(3));
    assert_ne!(NbtValue::Int(3), NbtValue::Int(4));
    assert_ne!(NbtValue::Int(3), NbtValue::Long(3));
    assert_ne!(NbtValue::Byte(0), NbtValue::Short(0));
    assert_eq!(NbtValue::Double(1.5f64.to_bits()), NbtValue::Double(1.5f64.to_bits()));
    assert_ne!(NbtValue::Double(0.0f64.to_bits()), NbtValue::Double((-0.0f64).to_bits()));
    assert_ne!(NbtValue::Float(1), NbtValue::Double(1));
    assert_eq!(NbtValue::String("a".to_string()), NbtValue::String("a".to_string()));
    assert_ne!(NbtValue::String("a".to_string()), NbtValue::String("b".to_string()));
    assert_eq!(NbtValue::ByteArray(vec![1, -2]), NbtValue::ByteArray(vec![1, -2]));
    assert_ne!(NbtValue::ByteArray(vec![1, -2]), NbtValue::ByteArray(vec![1]));
    assert_ne!(NbtValue::IntArray(vec![1, 2]), NbtValue::IntArray(vec![2, 1]));
    assert_eq!(NbtValue::LongArray(vec![i64::MIN]), NbtValue::LongArray(vec![i64::MIN]));
    assert_ne!(NbtValue::LongArray(vec![]), NbtValue::IntArray(vec![]));
    assert_eq!(list(vec![1, 2, 3]), list(vec![1, 2, 3]));
    assert_ne!(list(vec![1, 2, 3]), list(vec![1, 3, 2]));
    assert_ne!(list(vec![1, 2, 3]), list(vec![1, 2]));

    let mut first = NbtMap::new();
    first.put("a", NbtValue::Int(1));
    first.put("b", list(vec![1, 2]));
    let mut second = NbtMap::new();
    second.put("b", list(vec![1, 2]));
    second.put("a", NbtValue::Int(1));
    assert_eq!(first, second);
    assert_eq!(NbtValue::Compound(first.clone()), NbtValue::Compound(second.clone()));

    second.put("c", NbtValue::Byte(0));
    assert_ne!(first, second);
    assert_ne!(second, first);
    first.put("c", NbtValue::Byte(1));
    assert_ne!(first, second);
    first.put("c", NbtValue::Byte(0));
    assert_eq!(first, second);

    let shadowed = NbtMap {
        entries: vec![
            ("a".to_string(), NbtValue::Int(7)),
            ("b".to_string(), list(vec![1, 2])),
            ("c".to_string(), NbtValue::Byte(0)),
            ("a".to_string(), NbtValue::Int(1)),
        ],
    };
    assert_eq!(shadowed, first);
    assert_eq!(first, shadowed);
    assert_eq!(NbtMap::new(), NbtMap::new());
    assert_ne!(NbtMap::new(), first);

    let plain = TreeBlockEntity::new("minecraft:chest".to_string(), (1, 2, 3));
    let filled = plain.clone().with_nbt_data("Lock".to_string(), NbtValue::String("k".to_string()));
    assert_eq!(plain, plain.clone());
    assert_eq!(filled, filled.clone());
    assert_ne!(plain, filled);
    assert_ne!(plain, TreeBlockEntity::new("minecraft:chest".to_string(), (1, 2, 4)));
    assert_ne!(plain, TreeBlockEntity::new("minecraft:barrel".to_string(), (1, 2, 3)));
}
