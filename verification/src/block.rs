//! Block kinds and the names they are saved under.

use vstd::prelude::*;

verus! {

/// The kinds of block a chunk cell can hold.
#[derive(Clone, Copy, PartialEq, Eq, Debug, Structural)]
pub enum BlockType {
    Air,
    Stone,
    Dirt,
    Grass,
    Marvin,
}

/// The byte `+`, which separates block names in a saved chunk.
pub const SEPARATOR: u8 = 43;

/// The name a block is written under in a chunk file.
pub open spec fn block_name(b: BlockType) -> Seq<u8> {
    match b {
        BlockType::Air => seq![65u8, 105u8, 114u8],
        BlockType::Stone => seq![83u8, 116u8, 111u8, 110u8, 101u8],
        BlockType::Dirt => seq![68u8, 105u8, 114u8, 116u8],
        BlockType::Grass => seq![71u8, 114u8, 97u8, 115u8, 115u8],
        BlockType::Marvin => seq![77u8, 97u8, 114u8, 118u8, 105u8, 110u8],
    }
}

/// The names a chunk file is read back with: air, dirt, stone and grass.
pub open spec fn is_known_name(t: Seq<u8>) -> bool {
    ||| t == block_name(BlockType::Air)
    ||| t == block_name(BlockType::Dirt)
    ||| t == block_name(BlockType::Stone)
    ||| t == block_name(BlockType::Grass)
}

/// The block a saved name is read as; any other name reads as air.
pub open spec fn block_from_name(t: Seq<u8>) -> BlockType {
    if t == block_name(BlockType::Dirt) {
        BlockType::Dirt
    } else if t == block_name(BlockType::Stone) {
        BlockType::Stone
    } else if t == block_name(BlockType::Grass) {
        BlockType::Grass
    } else {
        BlockType::Air
    }
}

/// What a block becomes after it is written to a chunk file and read back:
/// the reader knows no name for marvin, so it comes back as air.
pub open spec fn saved_as(b: BlockType) -> BlockType {
    match b {
        BlockType::Marvin => BlockType::Air,
        _ => b,
    }
}

/// No block name holds the separator.
pub proof fn lemma_name_has_no_separator(b: BlockType)
    ensures
        forall|i: int| 0 <= i < block_name(b).len() ==> block_name(b)[i] != SEPARATOR,
        block_name(b).len() > 0,
{
}

/// Reading a block's name gives back `saved_as` of the block.
pub proof fn lemma_name_round_trip(b: BlockType)
    ensures
        block_from_name(block_name(b)) == saved_as(b),
        is_known_name(block_name(b)) <==> b != BlockType::Marvin,
{
    assert(block_name(BlockType::Dirt) != block_name(BlockType::Air));
    assert(block_name(BlockType::Marvin) != block_name(BlockType::Dirt));
    assert(block_name(BlockType::Marvin) != block_name(BlockType::Stone));
    assert(block_name(BlockType::Marvin) != block_name(BlockType::Grass));
    assert(block_name(BlockType::Marvin) != block_name(BlockType::Air));
    assert(block_name(BlockType::Stone)[0] != block_name(BlockType::Dirt)[0]);
    assert(block_name(BlockType::Grass)[0] != block_name(BlockType::Dirt)[0]);
    assert(block_name(BlockType::Grass)[0] != block_name(BlockType::Stone)[0]);
    assert(block_name(BlockType::Air)[0] != block_name(BlockType::Stone)[0]);
    assert(block_name(BlockType::Air)[0] != block_name(BlockType::Grass)[0]);
}

impl BlockType {
    /// Appends the block's saved name to `out`.
    pub fn push_name(&self, out: &mut Vec<u8>)
        ensures
            final(out)@ == old(out)@ + block_name(*self),
    {
        let ghost start = out@;
        match self {
            BlockType::Air => {
                out.push(65);
                out.push(105);
                out.push(114);
            },
            BlockType::Stone => {
                out.push(83);
                out.push(116);
                out.push(111);
                out.push(110);
                out.push(101);
            },
            BlockType::Dirt => {
                out.push(68);
                out.push(105);
                out.push(114);
                out.push(116);
            },
            BlockType::Grass => {
                out.push(71);
                out.push(114);
                out.push(97);
                out.push(115);
                out.push(115);
            },
            BlockType::Marvin => {
                out.push(77);
                out.push(97);
                out.push(114);
                out.push(118);
                out.push(105);
                out.push(110);
            },
        }
        assert(out@ =~= start + block_name(*self));
    }
}

/// True when `text[start..end]` spells out `name`.
fn spells(text: &[u8], start: usize, end: usize, name: &[u8]) -> (r: bool)
    requires
        start <= end <= text@.len(),
    ensures
        r == (text@.subrange(start as int, end as int) == name@),
{
    if end - start != name.len() {
        return false;
    }
    let mut i: usize = 0;
    while i < name.len()
        invariant
            start <= end <= text@.len(),
            end - start == name@.len(),
            i <= name@.len(),
            forall|j: int| 0 <= j < i ==> text@[start + j] == name@[j],
        decreases name@.len() - i,
    {
        if text[start + i] != name[i] {
            assert(text@.subrange(start as int, end as int)[i as int] != name@[i as int]);
            return false;
        }
        i = i + 1;
    }
    assert(text@.subrange(start as int, end as int) =~= name@);
    true
}

/// Reads the block named by `text[start..end]`, and whether the name is one
/// the chunk format knows.
pub fn block_from_token(text: &[u8], start: usize, end: usize) -> (r: (BlockType, bool))
    requires
        start <= end <= text@.len(),
    ensures
        r.0 == block_from_name(text@.subrange(start as int, end as int)),
        r.1 == is_known_name(text@.subrange(start as int, end as int)),
{
    let air: [u8; 3] = [65, 105, 114];
    let dirt: [u8; 4] = [68, 105, 114, 116];
    let stone: [u8; 5] = [83, 116, 111, 110, 101];
    let grass: [u8; 5] = [71, 114, 97, 115, 115];
    assert(air@ =~= block_name(BlockType::Air));
    assert(dirt@ =~= block_name(BlockType::Dirt));
    assert(stone@ =~= block_name(BlockType::Stone));
    assert(grass@ =~= block_name(BlockType::Grass));
    if spells(text, start, end, dirt.as_slice()) {
        (BlockType::Dirt, true)
    } else if spells(text, start, end, stone.as_slice()) {
        (BlockType::Stone, true)
    } else if spells(text, start, end, grass.as_slice()) {
        (BlockType::Grass, true)
    } else {
        let known = spells(text, start, end, air.as_slice());
        (BlockType::Air, known)
    }
}

} // verus!
