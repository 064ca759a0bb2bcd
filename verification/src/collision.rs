//! The solid blocks a moving rectangle may run into.

use vstd::prelude::*;
use crate::block::{BlockType, block_name};
use crate::chunk::ChunkWithOtherInfo;
use crate::inventory::ItemType;
use crate::view::ChunksInView;
use crate::world::{Coord, Planet, PlanetSize};

verus! {

/// The block cells to test: `area` cells laid out row by row, `w` to a row,
/// starting from block cell `(x, y)`.
#[derive(Clone, Copy, Debug)]
pub struct CellWindow {
    pub x: i32,
    pub y: i32,
    pub w: usize,
    pub area: usize,
}

pub open spec fn cell_x(win: CellWindow, i: int) -> int {
    i % (win.w as int) + win.x
}

pub open spec fn cell_y(win: CellWindow, i: int) -> int {
    i / (win.w as int) + win.y
}

/// Walking the window stays within machine integers and never divides by
/// zero.
pub open spec fn cell_window_fits(win: CellWindow, size: PlanetSize) -> bool {
    &&& win.area <= 0x8000_0000
    &&& win.area > 0 ==> {
        &&& win.w > 0
        &&& 0 < size.x <= i32::MAX
        &&& 0 < size.y <= i32::MAX
    }
    &&& forall|i: int|
        0 <= i < win.area ==> i32::MIN <= #[trigger] cell_x(win, i) <= i32::MAX
            && i32::MIN <= cell_y(win, i) <= i32::MAX
}

/// The first item type from `j` on whose id is the block's saved name, or -1.
pub open spec fn item_type_index_from(itemtypes: Seq<ItemType>, b: BlockType, j: int) -> int
    decreases itemtypes.len() - j,
{
    if j < 0 || j >= itemtypes.len() {
        -1
    } else if vstd::utf8::encode_utf8(itemtypes[j].id@) == block_name(b) {
        j
    } else {
        item_type_index_from(itemtypes, b, j + 1)
    }
}

proof fn lemma_item_type_index_from(itemtypes: Seq<ItemType>, b: BlockType, j: int)
    requires
        0 <= j,
    ensures
        item_type_index_from(itemtypes, b, j) == -1 || j <= item_type_index_from(itemtypes, b, j) < itemtypes.len(),
    decreases itemtypes.len() - j,
{
    if j < itemtypes.len() {
        lemma_item_type_index_from(itemtypes, b, j + 1);
    }
}

proof fn lemma_div_mod_small(i: int, w: int)
    requires
        0 <= i,
        0 < w,
    ensures
        0 <= i % w <= i,
        0 <= i / w <= i,
{
    assert(0 <= i % w <= i && 0 <= i / w <= i) by (nonlinear_arith)
        requires
            0 <= i,
            0 < w,
    ;
}

/// A block is collidable when its item type is.
pub open spec fn is_collidable(itemtypes: Seq<ItemType>, b: BlockType) -> bool {
    let k = item_type_index_from(itemtypes, b, 0);
    k >= 0 && itemtypes[k].collidable
}

/// The index of the block at block cell `(cx, cy)` within its chunk, when
/// that chunk lies below the planet's top, is loaded, and the block is
/// collidable. Columns and rows of chunks both wrap around the planet.
pub open spec fn solid_block(
    chunks: Map<Coord, ChunkWithOtherInfo>,
    size: PlanetSize,
    itemtypes: Seq<ItemType>,
    cx: int,
    cy: int,
) -> Option<int> {
    let chunk_y = cy / 32;
    let key = Coord {
        x: ((cx / 32) % (size.x as int)) as i32,
        y: (chunk_y % (size.y as int)) as i32,
    };
    let index = cx % 32 + (cy % 32) * 32;
    if chunk_y >= size.y as int {
        None
    } else if !chunks.contains_key(key) {
        None
    } else if is_collidable(itemtypes, chunks[key].chunk@[index]) {
        Some(index)
    } else {
        None
    }
}

/// A solid block cell: its index within its chunk and its block position.
#[derive(Clone, Copy, PartialEq, Eq, Debug, Structural)]
pub struct SolidCell {
    pub index: usize,
    pub x: i32,
    pub y: i32,
}

/// The solid cells among the window's first `n` cells, in window order.
pub open spec fn solid_cells(
    win: CellWindow,
    chunks: Map<Coord, ChunkWithOtherInfo>,
    size: PlanetSize,
    itemtypes: Seq<ItemType>,
    n: nat,
) -> Seq<SolidCell>
    decreases n,
{
    if n == 0 {
        seq![]
    } else {
        let prev = solid_cells(win, chunks, size, itemtypes, (n - 1) as nat);
        let cx = cell_x(win, n - 1);
        let cy = cell_y(win, n - 1);
        match solid_block(chunks, size, itemtypes, cx, cy) {
            Some(index) => prev.push(SolidCell { index: index as usize, x: cx as i32, y: cy as i32 }),
            None => prev,
        }
    }
}

/// Cell `i` of a window that starts at `(win.x, win.y)` and is `win.w`
/// cells wide, counted row by row, is block cell `(x, y)`.
pub open spec fn window_covers(win: CellWindow, i: int, x: int, y: int) -> bool {
    &&& 0 <= i < win.area
    &&& x == win.x + i % (win.w as int)
    &&& y == win.y + i / (win.w as int)
}

proof fn lemma_solid_cells_cover(
    win: CellWindow,
    chunks: Map<Coord, ChunkWithOtherInfo>,
    size: PlanetSize,
    itemtypes: Seq<ItemType>,
    n: nat,
)
    requires
        n <= win.area,
        cell_window_fits(win, size),
    ensures
        forall|k: int|
            0 <= k < solid_cells(win, chunks, size, itemtypes, n).len() ==> {
                let cell = #[trigger] solid_cells(win, chunks, size, itemtypes, n)[k];
                &&& exists|i: int| i < n && #[trigger] window_covers(win, i, cell.x as int, cell.y as int)
                &&& solid_block(chunks, size, itemtypes, cell.x as int, cell.y as int) == Some(cell.index as int)
            },
        forall|i: int, x: int, y: int|
            #[trigger] window_covers(win, i, x, y) && i < n && solid_block(chunks, size, itemtypes, x, y) is Some
                ==> exists|k: int|
                0 <= k < solid_cells(win, chunks, size, itemtypes, n).len()
                    && (#[trigger] solid_cells(win, chunks, size, itemtypes, n)[k]).x == x
                    && solid_cells(win, chunks, size, itemtypes, n)[k].y == y,
    decreases n,
{
    if n > 0 {
        lemma_solid_cells_cover(win, chunks, size, itemtypes, (n - 1) as nat);
        let prev = solid_cells(win, chunks, size, itemtypes, (n - 1) as nat);
        let cur = solid_cells(win, chunks, size, itemtypes, n);
        let cx = cell_x(win, n - 1);
        let cy = cell_y(win, n - 1);
        assert(i32::MIN <= cx <= i32::MAX && i32::MIN <= cy <= i32::MAX);
        assert(window_covers(win, n - 1, cx, cy));
        assert forall|k: int| 0 <= k < cur.len() implies {
            let cell = #[trigger] cur[k];
            &&& exists|i: int| i < n && #[trigger] window_covers(win, i, cell.x as int, cell.y as int)
            &&& solid_block(chunks, size, itemtypes, cell.x as int, cell.y as int) == Some(cell.index as int)
        } by {
            if k < prev.len() {
                assert(cur[k] == prev[k]);
                let cell = prev[k];
                let i = choose|i: int| i < n - 1 && #[trigger] window_covers(win, i, cell.x as int, cell.y as int);
                assert(i < n && window_covers(win, i, cell.x as int, cell.y as int));
            } else {
                let idx = solid_block(chunks, size, itemtypes, cx, cy)->Some_0;
                assert(0 <= cx % 32 < 32 && 0 <= cy % 32 < 32);
                assert(0 <= idx < 1024);
                assert(cur[k] == SolidCell { index: idx as usize, x: cx as i32, y: cy as i32 });
            }
        }
        assert forall|i: int, x: int, y: int|
            #[trigger] window_covers(win, i, x, y) && i < n && solid_block(chunks, size, itemtypes, x, y) is Some
                implies exists|k: int|
                0 <= k < cur.len() && (#[trigger] cur[k]).x == x && cur[k].y == y by {
            if i < n - 1 {
                let k = choose|k: int| 0 <= k < prev.len() && (#[trigger] prev[k]).x == x && prev[k].y == y;
                assert(cur[k] == prev[k]);
            } else {
                assert(x == cx && y == cy);
                let k = cur.len() - 1;
                assert(cur[k].x == x && cur[k].y == y);
            }
        }
    }
}

/// The collision candidates are exactly the solid cells of the window, the
/// `win.w`-wide rectangle of `win.area` cells whose cell `i` is block cell
/// `(win.x + i % win.w, win.y + i / win.w)`: every candidate is a solid cell
/// of that rectangle, with its index within its chunk, and every solid
/// loaded cell of that rectangle is a candidate.
pub proof fn lemma_collision_candidates_cover_window(
    win: CellWindow,
    chunks: Map<Coord, ChunkWithOtherInfo>,
    size: PlanetSize,
    itemtypes: Seq<ItemType>,
)
    requires
        cell_window_fits(win, size),
    ensures
        forall|k: int|
            0 <= k < solid_cells(win, chunks, size, itemtypes, win.area as nat).len() ==> {
                let cell = #[trigger] solid_cells(win, chunks, size, itemtypes, win.area as nat)[k];
                &&& exists|i: int| #[trigger] window_covers(win, i, cell.x as int, cell.y as int)
                &&& solid_block(chunks, size, itemtypes, cell.x as int, cell.y as int) == Some(cell.index as int)
            },
        forall|i: int, x: int, y: int|
            #[trigger] window_covers(win, i, x, y) && solid_block(chunks, size, itemtypes, x, y) is Some
                ==> exists|k: int|
                0 <= k < solid_cells(win, chunks, size, itemtypes, win.area as nat).len()
                    && (#[trigger] solid_cells(win, chunks, size, itemtypes, win.area as nat)[k]).x == x
                    && solid_cells(win, chunks, size, itemtypes, win.area as nat)[k].y == y,
{
    lemma_solid_cells_cover(win, chunks, size, itemtypes, win.area as nat);
    let cells = solid_cells(win, chunks, size, itemtypes, win.area as nat);
    assert forall|k: int| 0 <= k < cells.len() implies {
        let cell = #[trigger] cells[k];
        &&& exists|i: int| #[trigger] window_covers(win, i, cell.x as int, cell.y as int)
        &&& solid_block(chunks, size, itemtypes, cell.x as int, cell.y as int) == Some(cell.index as int)
    } by {
        let cell = cells[k];
        let i = choose|i: int| i < win.area && #[trigger] window_covers(win, i, cell.x as int, cell.y as int);
    }
}

fn bytes_equal(a: &[u8], b: &[u8]) -> (r: bool)
    ensures
        r == (a@ == b@),
{
    if a.len() != b.len() {
        return false;
    }
    let mut i: usize = 0;
    while i < a.len()
        invariant
            i <= a@.len(),
            a@.len() == b@.len(),
            forall|j: int| 0 <= j < i ==> a@[j] == b@[j],
        decreases a@.len() - i,
    {
        if a[i] != b[i] {
            return false;
        }
        i = i + 1;
    }
    assert(a@ =~= b@);
    true
}

/// The index of the item type of block `b`: the first whose id is the
/// block's saved name.
pub fn item_type_index(itemtypes: &Vec<ItemType>, b: BlockType) -> (r: Option<usize>)
    ensures
        match r {
            Some(k) => k as int == item_type_index_from(itemtypes@, b, 0) && k < itemtypes@.len(),
            None => item_type_index_from(itemtypes@, b, 0) == -1,
        },
{
    proof {
        lemma_item_type_index_from(itemtypes@, b, 0);
    }
    let mut name: Vec<u8> = Vec::new();
    b.push_name(&mut name);
    assert(name@ =~= block_name(b));
    let mut j: usize = 0;
    while j < itemtypes.len()
        invariant
            j <= itemtypes@.len(),
            name@ == block_name(b),
            item_type_index_from(itemtypes@, b, j as int) == item_type_index_from(itemtypes@, b, 0),
        decreases itemtypes@.len() - j,
    {
        if bytes_equal(itemtypes[j].id.as_str().as_bytes(), name.as_slice()) {
            return Some(j);
        }
        j = j + 1;
    }
    None
}

/// Whether block `b` is collidable.
pub fn block_collidable(itemtypes: &Vec<ItemType>, b: BlockType) -> (r: bool)
    ensures
        r == is_collidable(itemtypes@, b),
{
    match item_type_index(itemtypes, b) {
        Some(k) => itemtypes[k].collidable,
        None => false,
    }
}

/// The solid block cells in the window, in window order: those a moving
/// rectangle covering the window is tested against.
pub fn collision_candidates(
    window: &CellWindow,
    chunks_in_view: &ChunksInView,
    planet: &Planet,
    itemtypes: &Vec<ItemType>,
) -> (cells: Vec<SolidCell>)
    requires
        cell_window_fits(*window, planet.size),
    ensures
        cells@ == solid_cells(*window, chunks_in_view@, planet.size, itemtypes@, window.area as nat),
{
    let mut cells: Vec<SolidCell> = Vec::new();
    let mut i: usize = 0;
    while i < window.area
        invariant
            i <= window.area,
            cell_window_fits(*window, planet.size),
            cells@ == solid_cells(*window, chunks_in_view@, planet.size, itemtypes@, i as nat),
        decreases window.area - i,
    {
        proof {
            assert(i32::MIN <= cell_x(*window, i as int) <= i32::MAX);
            lemma_div_mod_small(i as int, window.w as int);
        }
        let x: i32 = (i % window.w) as i32 + window.x;
        let y: i32 = (i / window.w) as i32 + window.y;
        let chunk_x: i32 = match x.checked_div_euclid(32) {
            Some(v) => v,
            None => 0,
        };
        let chunk_y: i32 = match y.checked_div_euclid(32) {
            Some(v) => v,
            None => 0,
        };
        if chunk_y < planet.size.y as i32 {
            let kx: i32 = match chunk_x.checked_rem_euclid(planet.size.x as i32) {
                Some(v) => v,
                None => 0,
            };
            let ky: i32 = match chunk_y.checked_rem_euclid(planet.size.y as i32) {
                Some(v) => v,
                None => 0,
            };
            let lx: i32 = match x.checked_rem_euclid(32) {
                Some(v) => v,
                None => 0,
            };
            let ly: i32 = match y.checked_rem_euclid(32) {
                Some(v) => v,
                None => 0,
            };
            let index: usize = (lx + ly * 32) as usize;
            match chunks_in_view.get(Coord { x: kx, y: ky }) {
                Some(info) => {
                    if block_collidable(itemtypes, info.chunk[index]) {
                        cells.push(SolidCell { index, x, y });
                    }
                },
                None => {},
            }
        }
        i = i + 1;
    }
    cells
}

impl CellWindow {
    /// Whether walking this window over a planet of `size` stays within
    /// machine integers (`cell_window_fits`).
    pub fn fits(&self, size: PlanetSize) -> (r: bool)
        ensures
            r == cell_window_fits(*self, size),
    {
        if self.area > 0x8000_0000 {
            return false;
        }
        if self.area > 0 && (self.w == 0 || size.x == 0 || size.x > 0x7fff_ffff || size.y == 0
            || size.y > 0x7fff_ffff) {
            return false;
        }
        let mut i: usize = 0;
        while i < self.area
            invariant
                i <= self.area <= 0x8000_0000,
                self.area > 0 ==> self.w > 0,
                forall|j: int|
                    0 <= j < i ==> i32::MIN <= #[trigger] cell_x(*self, j) <= i32::MAX
                        && i32::MIN <= cell_y(*self, j) <= i32::MAX,
            decreases self.area - i,
        {
            proof {
                lemma_div_mod_small(i as int, self.w as int);
            }
            let cx: i64 = (i % self.w) as i64 + self.x as i64;
            let cy: i64 = (i / self.w) as i64 + self.y as i64;
            if cx < i32::MIN as i64 || cx > i32::MAX as i64 || cy < i32::MIN as i64 || cy
                > i32::MAX as i64 {
                assert(!(i32::MIN <= cell_x(*self, i as int) <= i32::MAX
                    && i32::MIN <= cell_y(*self, i as int) <= i32::MAX));
                return false;
            }
            i = i + 1;
        }
        true
    }
}

} // verus!
