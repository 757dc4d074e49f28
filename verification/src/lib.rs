//! In-memory model of voxel schematics: block states, palettes, bounding
//! boxes, growable regions and the schematic that holds them.

pub mod assoc;
pub mod block_entity;
pub mod block_position;
pub mod block_state;
pub mod bounding_box;
pub mod chunk;
pub mod chunk_section;
pub mod entity;
pub mod error;
pub mod formats;
pub mod item;
pub mod mchprs_world;
pub mod metadata;
pub mod packing;
pub mod palette;
pub mod print_utils;
pub mod region;
pub mod region_map;
pub mod region_nbt;
pub mod region_round_trip;
pub mod string_map;
pub mod text;
pub mod universal_schematic;
pub mod utils;

pub use block_state::BlockState;
pub use formats::{litematic, schematic};
pub use print_utils::format_schematic;
pub use universal_schematic::UniversalSchematic;
