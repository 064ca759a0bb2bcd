//! Placing and removing single blocks in the loaded chunks.

use vstd::prelude::*;
use crate::block::BlockType;
use crate::chunk::ChunkWithOtherInfo;
use crate::view::ChunksInView;
use crate::world::{Coord, Planet, PlanetSize};

verus! {

/// Width of the planet in blocks, as the game computes it in `i32`.
pub open spec fn block_width(size: PlanetSize) -> int {
    (size.x as i32) as int * 32
}

/// Editing blocks on a planet of this size stays within machine integers.
pub open spec fn edit_fits(size: PlanetSize) -> bool {
    &&& i32::MIN <= block_width(size) <= i32::MAX
    &&& block_width(size) != 0
}

/// The chunk an edit at block cell `cell` goes to: the column is wrapped
/// around the planet, the row is not.
pub open spec fn edit_key(size: PlanetSize, cell: Coord) -> Coord {
    Coord {
        x: ((cell.x as int % block_width(size)) / 32) as i32,
        y: (cell.y as int / 32) as i32,
    }
}

/// The index, within its chunk, of the block an edit at `cell` changes.
pub open spec fn edit_index(cell: Coord) -> int {
    cell.x as int % 32 + (cell.y as int % 32) * 32
}

/// The block an edit at `cell` would change, if its chunk is loaded.
pub open spec fn block_at_cell(chunks: Map<Coord, ChunkWithOtherInfo>, size: PlanetSize, cell: Coord) -> Option<BlockType> {
    let key = edit_key(size, cell);
    if chunks.contains_key(key) {
        Some(chunks[key].chunk@[edit_index(cell)])
    } else {
        None
    }
}

/// `after` is `before` with the block at `cell` set to `block`, when its
/// chunk is loaded; otherwise nothing changed.
pub open spec fn block_set(
    before: Map<Coord, ChunkWithOtherInfo>,
    after: Map<Coord, ChunkWithOtherInfo>,
    size: PlanetSize,
    cell: Coord,
    block: BlockType,
) -> bool {
    let key = edit_key(size, cell);
    if before.contains_key(key) {
        &&& after.dom() == before.dom()
        &&& forall|c: Coord| c != key && #[trigger] before.contains_key(c) ==> after[c] == before[c]
        &&& after[key].position == before[key].position
        &&& after[key].chunk@ == before[key].chunk@.update(edit_index(cell), block)
    } else {
        after == before
    }
}

pub proof fn lemma_edit_index_bounds(cell: Coord)
    ensures
        0 <= edit_index(cell) < 1024,
{
}

/// An edit at block cell `cell` reaches the block of its chunk that lies at
/// that cell. The chunk at `key` covers block columns `32 * key.x` to
/// `32 * key.x + 31` and rows `32 * key.y` to `32 * key.y + 31`, its cell at
/// column `c` and row `r` being block `c + 32 * r`; the block edited is the
/// one whose row is the cell's row and whose column is the cell's column
/// taken around the planet (equal to it up to whole turns of the planet's
/// width in blocks, and inside the planet).
pub proof fn lemma_edit_addresses_cell(size: PlanetSize, cell: Coord)
    requires
        edit_fits(size),
    ensures
        ({
            let key = edit_key(size, cell);
            let i = edit_index(cell);
            let bw = block_width(size);
            let c = i % 32;
            let r = i / 32;
            let column = 32 * key.x + c;
            &&& 0 <= i < 1024
            &&& cell.y == 32 * key.y + r
            &&& 0 <= column
            &&& (bw > 0 ==> column < bw)
            &&& (bw < 0 ==> column < -bw)
            &&& (cell.x - column) % bw == 0
        }),
{
    let x = cell.x as int;
    let y = cell.y as int;
    let bw = block_width(size);
    let s = (size.x as i32) as int;
    assert(bw == s * 32);
    let w = x % bw;
    let q = x / bw;
    vstd::arithmetic::div_mod::lemma_fundamental_div_mod(x, bw);
    assert(0 <= w && (bw > 0 ==> w < bw) && (bw < 0 ==> w < -bw)) by (nonlinear_arith)
        requires
            bw != 0,
            w == x % bw,
    ;
    assert(x == 32 * (s * q) + w) by (nonlinear_arith)
        requires
            x == bw * q + w,
            bw == s * 32,
    ;
    vstd::arithmetic::div_mod::lemma_mod_multiples_vanish(s * q, w, 32);
    assert((32 * (s * q) + w) % 32 == w % 32);
    assert(x % 32 == w % 32);
    assert(w < 0x1_0000_0000);
    let kx = w / 32;
    assert(edit_key(size, cell).x == kx);
    assert(edit_key(size, cell).y == y / 32);
    assert(32 * kx + w % 32 == w);
    let i = edit_index(cell);
    vstd::arithmetic::div_mod::lemma_fundamental_div_mod_converse(i, 32, y % 32, x % 32);
    assert(i % 32 == x % 32 && i / 32 == y % 32);
    assert(x - w == q * bw) by (nonlinear_arith)
        requires
            x == bw * q + w,
    ;
    if bw > 0 {
        vstd::arithmetic::div_mod::lemma_mod_multiples_basic(q, bw);
    } else {
        vstd::arithmetic::div_mod::lemma_mod_multiples_basic(-q, -bw);
        assert((q * bw) % bw == 0) by (nonlinear_arith)
            requires
                bw < 0,
                ((-q) * (-bw)) % (-bw) == 0,
        ;
    }
}

/// Whether editing blocks on a planet of this size stays within machine
/// integers (`edit_fits`).
pub fn edit_in_range(size: PlanetSize) -> (r: bool)
    ensures
        r == edit_fits(size),
{
    let w: i64 = (size.x as i32) as i64 * 32;
    w >= i32::MIN as i64 && w <= i32::MAX as i64 && w != 0
}

/// The chunk an edit at block cell `cell` goes to.
pub fn edit_chunk_key(size: PlanetSize, cell: Coord) -> (key: Coord)
    requires
        edit_fits(size),
    ensures
        key == edit_key(size, cell),
{
    let width: i32 = (size.x as i32) * 32;
    let wrapped: i32 = match cell.x.checked_rem_euclid(width) {
        Some(v) => v,
        None => 0,
    };
    let chunk_x: i32 = match wrapped.checked_div_euclid(32) {
        Some(v) => v,
        None => 0,
    };
    let chunk_y: i32 = match cell.y.checked_div_euclid(32) {
        Some(v) => v,
        None => 0,
    };
    Coord { x: chunk_x, y: chunk_y }
}

/// Sets the block at block cell `cell` to `id_of_block_to_place`, if its
/// chunk is loaded; returns whether it was.
pub fn place_block(
    id_of_block_to_place: BlockType,
    cell: Coord,
    planet: &Planet,
    chunks_in_view: &mut ChunksInView,
) -> (placed: bool)
    requires
        edit_fits(planet.size),
    ensures
        placed == old(chunks_in_view)@.contains_key(edit_key(planet.size, cell)),
        block_set(old(chunks_in_view)@, final(chunks_in_view)@, planet.size, cell, id_of_block_to_place),
{
    let key = edit_chunk_key(planet.size, cell);
    let lx: i32 = match cell.x.checked_rem_euclid(32) {
        Some(v) => v,
        None => 0,
    };
    let ly: i32 = match cell.y.checked_rem_euclid(32) {
        Some(v) => v,
        None => 0,
    };
    let index: usize = (lx + ly * 32) as usize;
    proof {
        lemma_edit_index_bounds(cell);
    }
    let found = match chunks_in_view.get(key) {
        Some(info) => Some(*info),
        None => None,
    };
    match found {
        Some(info) => {
            let mut edited = info;
            edited.chunk[index] = id_of_block_to_place;
            let ghost before = chunks_in_view@;
            chunks_in_view.insert(key, edited);
            proof {
                assert(chunks_in_view@.dom() =~= before.dom());
            }
            true
        },
        None => false,
    }
}

/// Clears the block at block cell `cell` to air, if its chunk is loaded;
/// returns whether it was.
pub fn destroy_block(cell: Coord, planet: &Planet, chunks_in_view: &mut ChunksInView) -> (destroyed: bool)
    requires
        edit_fits(planet.size),
    ensures
        destroyed == old(chunks_in_view)@.contains_key(edit_key(planet.size, cell)),
        block_set(old(chunks_in_view)@, final(chunks_in_view)@, planet.size, cell, BlockType::Air),
{
    place_block(BlockType::Air, cell, planet, chunks_in_view)
}

/// A block set at a cell whose chunk is loaded reads back from that cell,
/// and a cell that addresses another block reads as it did before.
pub proof fn lemma_set_then_read(
    before: Map<Coord, ChunkWithOtherInfo>,
    after: Map<Coord, ChunkWithOtherInfo>,
    size: PlanetSize,
    cell: Coord,
    block: BlockType,
    other: Coord,
)
    requires
        block_set(before, after, size, cell, block),
    ensures
        before.contains_key(edit_key(size, cell)) ==> block_at_cell(after, size, cell) == Some(block),
        (edit_key(size, other) != edit_key(size, cell) || edit_index(other) != edit_index(cell))
            ==> block_at_cell(after, size, other) == block_at_cell(before, size, other),
{
    lemma_edit_index_bounds(cell);
    lemma_edit_index_bounds(other);
    let key = edit_key(size, cell);
    if before.contains_key(key) {
        assert(after.dom().contains(key));
        let ko = edit_key(size, other);
        if ko != key && before.contains_key(ko) {
            assert(after.dom().contains(ko));
        }
        if !before.contains_key(ko) {
            assert(!after.dom().contains(ko));
        }
    }
}

} // verus!
