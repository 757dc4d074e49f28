//! The ways in which packed block data can be malformed.

use vstd::prelude::*;

verus! {

/// Why a packed index array was rejected.
#[derive(Debug, Clone, Copy, PartialEq, Eq, Structural)]
pub enum DecodeError {
    /// The number of words does not match the number of voxels and the
    /// width of the fields.
    PackedLength,
    /// A field holds an index that is not in the palette.
    PaletteIndex,
    /// The data ends in the middle of a variable-length number.
    VarintEnd,
    /// A variable-length number goes on beyond its fifth byte.
    VarintLength,
    /// The number of block indices is not the volume that was declared.
    BlockCount,
}

impl DecodeError {
    /// A description of the error.
    pub fn message(&self) -> (r: String)
        ensures
            r@ == match *self {
                DecodeError::PackedLength => "packed block data has the wrong length"@,
                DecodeError::PaletteIndex => "packed block data refers to a missing palette entry"@,
                DecodeError::VarintEnd => "block data ends inside a number"@,
                DecodeError::VarintLength => "Varint is too long"@,
                DecodeError::BlockCount => "block data length does not match the dimensions"@,
            },
    {
        match self {
            DecodeError::PackedLength => "packed block data has the wrong length".to_string(),
            DecodeError::PaletteIndex => "packed block data refers to a missing palette entry".to_string(),
            DecodeError::VarintEnd => "block data ends inside a number".to_string(),
            DecodeError::VarintLength => "Varint is too long".to_string(),
            DecodeError::BlockCount => "block data length does not match the dimensions".to_string(),
        }
    }
}

/// The tag of a structured value that is missing or has the wrong type.
#[derive(Debug, Clone, Copy, PartialEq, Eq, Structural)]
pub enum NbtError {
    /// The name of a block state.
    Name,
    /// The identifier of an entity.
    EntityId,
    /// The position list of an entity.
    EntityPosition,
    /// A position that does not have three coordinates.
    PositionData,
    /// The first coordinate of a position.
    PositionX,
    /// The second coordinate of a position.
    PositionY,
    /// The third coordinate of a position.
    PositionZ,
    /// The data of an entity.
    EntityData,
    /// The identifier of a block entity.
    BlockEntityId,
    /// The data of a block entity.
    BlockEntityData,
    /// The name of a region.
    RegionName,
    /// The position of a region.
    Position,
    /// The size of a region.
    Size,
    /// The palette of a region.
    Palette,
    /// The blocks of a region.
    Blocks,
    /// The entities of a region.
    Entities,
    /// The block entities of a region.
    BlockEntities,
    /// The metadata of a schematic.
    Metadata,
    /// The regions of a schematic.
    Regions,
    /// The name of the default region of a schematic.
    DefaultRegion,
    /// The block names of a palette.
    PaletteBlocks,
    /// The indices of the block names of a palette.
    BlockToIndex,
    /// The largest index of a palette.
    PaletteMax,
    /// The width of a schematic.
    Width,
    /// The height of a schematic.
    Height,
    /// The length of a schematic.
    Length,
    /// The block data of a schematic.
    BlockData,
    /// The packed block states of a region.
    BlockStates,
    /// The palette of block states of a region.
    BlockStatePalette,
}

impl NbtError {
    /// A description of the error.
    pub fn message(&self) -> (r: String)
        ensures
            r@ == nbt_error_text(*self),
    {
        match self {
            NbtError::Name => "Failed to get Name".to_string(),
            NbtError::EntityId => "Failed to get Entity id".to_string(),
            NbtError::EntityPosition => "Failed to get Entity position".to_string(),
            NbtError::PositionData => "Invalid position data".to_string(),
            NbtError::PositionX => "Failed to get X position".to_string(),
            NbtError::PositionY => "Failed to get Y position".to_string(),
            NbtError::PositionZ => "Failed to get Z position".to_string(),
            NbtError::EntityData => "Failed to get Entity NBT data".to_string(),
            NbtError::BlockEntityId => "Failed to get BlockEntity id".to_string(),
            NbtError::BlockEntityData => "Failed to get BlockEntity NBT data".to_string(),
            NbtError::RegionName => "Failed to get Region Name".to_string(),
            NbtError::Position => "Invalid Position tag".to_string(),
            NbtError::Size => "Invalid Size tag".to_string(),
            NbtError::Palette => "Failed to get Palette".to_string(),
            NbtError::Blocks => "Failed to get Blocks".to_string(),
            NbtError::Entities => "Failed to get Entities".to_string(),
            NbtError::BlockEntities => "Failed to get BlockEntities".to_string(),
            NbtError::Metadata => "Failed to get Metadata".to_string(),
            NbtError::Regions => "Failed to get Regions".to_string(),
            NbtError::DefaultRegion => "Failed to get DefaultRegion".to_string(),
            NbtError::PaletteBlocks => "Blocks is not a list".to_string(),
            NbtError::BlockToIndex => "Failed to get BlockToIndex".to_string(),
            NbtError::PaletteMax => "Failed to get PaletteMax".to_string(),
            NbtError::Width => "Failed to get Width".to_string(),
            NbtError::Height => "Failed to get Height".to_string(),
            NbtError::Length => "Failed to get Length".to_string(),
            NbtError::BlockData => "Failed to get BlockData".to_string(),
            NbtError::BlockStates => "Failed to get BlockStates".to_string(),
            NbtError::BlockStatePalette => "Failed to get BlockStatePalette".to_string(),
        }
    }
}

/// The description of an error.
pub open spec fn nbt_error_text(error: NbtError) -> Seq<char> {
    match error {
        NbtError::Name => "Failed to get Name"@,
        NbtError::EntityId => "Failed to get Entity id"@,
        NbtError::EntityPosition => "Failed to get Entity position"@,
        NbtError::PositionData => "Invalid position data"@,
        NbtError::PositionX => "Failed to get X position"@,
        NbtError::PositionY => "Failed to get Y position"@,
        NbtError::PositionZ => "Failed to get Z position"@,
        NbtError::EntityData => "Failed to get Entity NBT data"@,
        NbtError::BlockEntityId => "Failed to get BlockEntity id"@,
        NbtError::BlockEntityData => "Failed to get BlockEntity NBT data"@,
        NbtError::RegionName => "Failed to get Region Name"@,
        NbtError::Position => "Invalid Position tag"@,
        NbtError::Size => "Invalid Size tag"@,
        NbtError::Palette => "Failed to get Palette"@,
        NbtError::Blocks => "Failed to get Blocks"@,
        NbtError::Entities => "Failed to get Entities"@,
        NbtError::BlockEntities => "Failed to get BlockEntities"@,
        NbtError::Metadata => "Failed to get Metadata"@,
        NbtError::Regions => "Failed to get Regions"@,
        NbtError::DefaultRegion => "Failed to get DefaultRegion"@,
        NbtError::PaletteBlocks => "Blocks is not a list"@,
        NbtError::BlockToIndex => "Failed to get BlockToIndex"@,
        NbtError::PaletteMax => "Failed to get PaletteMax"@,
        NbtError::Width => "Failed to get Width"@,
        NbtError::Height => "Failed to get Height"@,
        NbtError::Length => "Failed to get Length"@,
        NbtError::BlockData => "Failed to get BlockData"@,
        NbtError::BlockStates => "Failed to get BlockStates"@,
        NbtError::BlockStatePalette => "Failed to get BlockStatePalette"@,
    }
}

/// Why a structured value was rejected: a tag is missing or wrong, or the
/// block data it holds is malformed.
#[derive(Debug, Clone, Copy, PartialEq, Eq, Structural)]
pub enum FormatError {
    Nbt(NbtError),
    Decode(DecodeError),
}

impl FormatError {
    /// A description of the error.
    pub fn message(&self) -> (r: String)
        ensures
            match *self {
                FormatError::Nbt(e) => r@ == nbt_error_text(e),
                FormatError::Decode(e) => true,
            },
    {
        match self {
            FormatError::Nbt(e) => e.message(),
            FormatError::Decode(e) => e.message(),
        }
    }
}

} // verus!
