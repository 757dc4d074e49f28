//! What the two container formats ask of the model beyond its own
//! operations.

pub mod block_text;
pub mod litematic;
pub mod schematic;
