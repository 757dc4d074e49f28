//! Helpers shared by the format code.

pub mod nbt;

pub use crate::packing::calculate_bits_per_block;
pub use nbt::{NbtMap, NbtValue};
