//! Items that block entities hold.

pub mod stack;

pub use stack::ItemStack;
