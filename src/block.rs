//! The block palette: block kinds and whether light passes through them.

use vstd::prelude::*;

verus! {

/// The six faces of a block.
#[derive(Copy, Clone, Debug, PartialEq, Eq, Hash, Structural)]
pub enum BlockFace {
    Front,
    Back,
    Left,
    Right,
    Top,
    Bottom,
}

/// The kinds of block in the block palette.
#[derive(Copy, Clone, Debug, PartialEq, Eq, Hash, Structural)]
pub enum BlockType {
    Default,
    Air,
    Grass,
    Dirt,
    Stone,
    Wood,
    Sand,
    Water,
    Lava,
}

/// Position of a block inside a chunk.
#[derive(Copy, Clone, Debug, PartialEq, Eq, Hash, Structural)]
pub struct BlockPosition {
    pub x: i32,
    pub z: i32,
    pub y: i32,
}

impl BlockPosition {
    pub fn new(x: i32, y: i32, z: i32) -> (r: BlockPosition)
        ensures
            r.x == x && r.y == y && r.z == z,
    {
        BlockPosition { x, y, z }
    }
}

/// Whether light passes through blocks of type `t`: air and the liquids.
pub open spec fn type_transparent(t: BlockType) -> bool {
    t == BlockType::Air || t == BlockType::Water || t == BlockType::Lava
}

/// A block of the palette and whether it lets light through.
#[derive(Copy, Clone, Debug, PartialEq, Eq, Hash, Structural)]
pub struct Block {
    pub block_type: BlockType,
    pub is_transparent: bool,
}

impl Block {
    /// A block of type `block_type`, transparent as its type is.
    pub fn new(block_type: BlockType) -> (r: Block)
        ensures
            r.block_type == block_type,
            r.is_transparent == type_transparent(block_type),
    {
        let is_transparent = match block_type {
            BlockType::Default => false,
            BlockType::Air => true,
            BlockType::Grass => false,
            BlockType::Dirt => false,
            BlockType::Stone => false,
            BlockType::Wood => false,
            BlockType::Sand => false,
            BlockType::Water => true,
            BlockType::Lava => true,
        };
        Block { block_type, is_transparent }
    }

    pub fn is_transparent(&self) -> (r: bool)
        ensures
            r == self.is_transparent,
    {
        self.is_transparent
    }

    pub fn is_solid(&self) -> (r: bool)
        ensures
            r == !self.is_transparent,
    {
        !self.is_transparent
    }

    pub fn get_block_type(&self) -> (r: BlockType)
        ensures
            r == self.block_type,
    {
        self.block_type
    }

    /// Makes the block let light through, whatever its type.
    pub fn set_transparent(&mut self)
        ensures
            final(self).is_transparent,
            final(self).block_type == old(self).block_type,
    {
        self.is_transparent = true;
    }
}

} // verus!
