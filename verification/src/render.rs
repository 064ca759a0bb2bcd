//! Which texture a block is drawn with.

use vstd::prelude::*;
use crate::block::BlockType;

verus! {

/// The block textures the world is drawn with.
#[derive(Clone, Copy, PartialEq, Eq, Debug, Structural)]
pub enum BlockTexture {
    Dirt,
    Grass,
    Stone,
}

/// The texture a block is drawn with; air and marvin are not drawn.
pub open spec fn texture_of(b: BlockType) -> Option<BlockTexture> {
    match b {
        BlockType::Dirt => Some(BlockTexture::Dirt),
        BlockType::Grass => Some(BlockTexture::Grass),
        BlockType::Stone => Some(BlockTexture::Stone),
        _ => None,
    }
}

/// The texture block `b` is drawn with, if it is drawn.
pub fn block_texture(b: BlockType) -> (t: Option<BlockTexture>)
    ensures
        t == texture_of(b),
{
    match b {
        BlockType::Dirt => Some(BlockTexture::Dirt),
        BlockType::Grass => Some(BlockTexture::Grass),
        BlockType::Stone => Some(BlockTexture::Stone),
        _ => None,
    }
}

} // verus!
