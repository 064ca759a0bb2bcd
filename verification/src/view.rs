//! The chunks kept loaded around a viewer, keyed by their chunk-grid position.

use vstd::prelude::*;
use std::collections::HashMap;
use vstd::std_specs::iter::IteratorSpec;
use crate::block::BlockType;
use crate::chunk::{
    ChunkWithOtherInfo, CHUNKSIZE, ChunkFileWrite, writechunkfile, chunk_file_path,
    chunk_text, planet_name_bytes,
};
use crate::world::{Coord, Planet, PlanetSize};

verus! {

broadcast use vstd::std_specs::hash::group_hash_axioms;

/// The map key a chunk position is stored under: both coordinates shifted
/// into `0..2^32` and laid side by side.
pub open spec fn pack(c: Coord) -> u64 {
    ((c.x as int + 0x8000_0000) * 0x1_0000_0000 + (c.y as int + 0x8000_0000)) as u64
}

/// The chunk position a map key stands for.
pub open spec fn unpack(k: u64) -> Coord {
    Coord {
        x: (k as int / 0x1_0000_0000 - 0x8000_0000) as i32,
        y: (k as int % 0x1_0000_0000 - 0x8000_0000) as i32,
    }
}

pub proof fn lemma_pack_unpack(c: Coord)
    ensures
        unpack(pack(c)) == c,
        0 <= (c.x as int + 0x8000_0000) * 0x1_0000_0000 + (c.y as int + 0x8000_0000) <= u64::MAX,
{
    let hi = c.x as int + 0x8000_0000;
    let lo = c.y as int + 0x8000_0000;
    let k = hi * 0x1_0000_0000 + lo;
    assert(0 <= hi < 0x1_0000_0000);
    assert(0 <= lo < 0x1_0000_0000);
    assert(0 <= k <= u64::MAX) by (nonlinear_arith)
        requires
            0 <= hi < 0x1_0000_0000,
            0 <= lo < 0x1_0000_0000,
            k == hi * 0x1_0000_0000 + lo,
    ;
    assert(k / 0x1_0000_0000 == hi && k % 0x1_0000_0000 == lo) by (nonlinear_arith)
        requires
            0 <= hi < 0x1_0000_0000,
            0 <= lo < 0x1_0000_0000,
            k == hi * 0x1_0000_0000 + lo,
    ;
}

pub proof fn lemma_unpack_pack(k: u64)
    ensures
        pack(unpack(k)) == k,
{
    let hi = k as int / 0x1_0000_0000;
    let lo = k as int % 0x1_0000_0000;
    assert(0 <= hi < 0x1_0000_0000 && 0 <= lo < 0x1_0000_0000 && hi * 0x1_0000_0000 + lo == k)
        by (nonlinear_arith)
        requires
            hi == k as int / 0x1_0000_0000,
            lo == k as int % 0x1_0000_0000,
            0 <= k <= u64::MAX,
    ;
}

pub proof fn lemma_pack_injective(a: Coord, b: Coord)
    ensures
        pack(a) == pack(b) <==> a == b,
{
    lemma_pack_unpack(a);
    lemma_pack_unpack(b);
}

fn pack_key(c: Coord) -> (k: u64)
    ensures
        k == pack(c),
{
    proof {
        lemma_pack_unpack(c);
    }
    let hi: u64 = (c.x as i64 + 0x8000_0000) as u64;
    let lo: u64 = (c.y as i64 + 0x8000_0000) as u64;
    hi * 0x1_0000_0000 + lo
}

fn unpack_key(k: u64) -> (c: Coord)
    ensures
        c == unpack(k),
{
    proof {
        lemma_unpack_pack(k);
    }
    let hi: i64 = (k / 0x1_0000_0000) as i64;
    let lo: i64 = (k % 0x1_0000_0000) as i64;
    Coord { x: (hi - 0x8000_0000) as i32, y: (lo - 0x8000_0000) as i32 }
}

/// The loaded chunks, each under the chunk-grid position it is stored at.
pub struct ChunksInView {
    chunks: HashMap<u64, ChunkWithOtherInfo>,
}

impl View for ChunksInView {
    type V = Map<Coord, ChunkWithOtherInfo>;

    closed spec fn view(&self) -> Map<Coord, ChunkWithOtherInfo> {
        Map::new(
            |c: Coord| self.chunks@.contains_key(pack(c)),
            |c: Coord| self.chunks@[pack(c)],
        )
    }
}

impl ChunksInView {
    /// No chunks loaded.
    pub fn new() -> (s: Self)
        ensures
            s@ == Map::<Coord, ChunkWithOtherInfo>::empty(),
    {
        let s = ChunksInView { chunks: HashMap::new() };
        assert(s@ =~= Map::<Coord, ChunkWithOtherInfo>::empty());
        s
    }

    /// Stores `info` at `key`, replacing what was there.
    pub fn insert(&mut self, key: Coord, info: ChunkWithOtherInfo)
        ensures
            final(self)@ == old(self)@.insert(key, info),
    {
        let k = pack_key(key);
        self.chunks.insert(k, info);
        proof {
            assert forall|c: Coord| #[trigger] final(self)@.contains_key(c) == old(self)@.insert(key, info).contains_key(c) by {
                lemma_pack_injective(c, key);
            }
            assert forall|c: Coord| #[trigger] final(self)@.contains_key(c) implies final(self)@[c] == old(self)@.insert(key, info)[c] by {
                lemma_pack_injective(c, key);
            }
            assert(final(self)@ =~= old(self)@.insert(key, info));
        }
    }

    /// Takes the chunk stored at `key` out, if there is one.
    pub fn remove(&mut self, key: Coord) -> (r: Option<ChunkWithOtherInfo>)
        ensures
            final(self)@ == old(self)@.remove(key),
            match r {
                Some(info) => old(self)@.contains_key(key) && info == old(self)@[key],
                None => !old(self)@.contains_key(key),
            },
    {
        let k = pack_key(key);
        let r = self.chunks.remove(&k);
        proof {
            assert forall|c: Coord| #[trigger] final(self)@.contains_key(c) == old(self)@.remove(key).contains_key(c) by {
                lemma_pack_injective(c, key);
            }
            assert(final(self)@ =~= old(self)@.remove(key));
        }
        r
    }

    /// The chunk stored at `key`, if there is one.
    pub fn get(&self, key: Coord) -> (r: Option<&ChunkWithOtherInfo>)
        ensures
            match r {
                Some(info) => self@.contains_key(key) && *info == self@[key],
                None => !self@.contains_key(key),
            },
    {
        let k = pack_key(key);
        self.chunks.get(&k)
    }

    /// Whether a chunk is stored at `key`.
    pub fn contains_key(&self, key: Coord) -> (r: bool)
        ensures
            r == self@.contains_key(key),
    {
        let k = pack_key(key);
        self.chunks.contains_key(&k)
    }

    /// The positions chunks are stored at, each once, in no particular order.
    pub fn keys(&self) -> (ks: Vec<Coord>)
        ensures
            ks@.no_duplicates(),
            forall|c: Coord| ks@.contains(c) <==> self@.dom().contains(c),
    {
        let mut ks: Vec<Coord> = Vec::new();
        let ghost all = self.chunks.keys().remaining();
        for k in it: self.chunks.keys()
            invariant
                it.seq() == all,
                ks@ == it.seq().take(it.index()).map_values(|r: &u64| unpack(*r)),
        {
            ks.push(unpack_key(*k));
            proof {
                assert(ks@ =~= it.seq().take(it.index() + 1).map_values(|r: &u64| unpack(*r)));
            }
        }
        proof {
            assert(all.take(all.len() as int) =~= all);
            let keys = all.unref();
            assert(keys.to_set() == self.chunks@.dom());
            assert forall|c: Coord| ks@.contains(c) <==> self@.dom().contains(c) by {
                if ks@.contains(c) {
                    let j = choose|j: int| 0 <= j < ks@.len() && ks@[j] == c;
                    assert(keys[j] == *all[j]);
                    assert(keys.to_set().contains(keys[j]));
                    lemma_unpack_pack(keys[j]);
                }
                if self@.dom().contains(c) {
                    assert(keys.to_set().contains(pack(c)));
                    let j = choose|j: int| 0 <= j < keys.len() && keys[j] == pack(c);
                    lemma_pack_unpack(c);
                    assert(ks@[j] == c);
                }
            }
            assert forall|a: int, b: int| 0 <= a < b < ks@.len() implies ks@[a] != ks@[b] by {
                assert(keys[a] == *all[a] && keys[b] == *all[b]);
                lemma_unpack_pack(keys[a]);
                lemma_unpack_pack(keys[b]);
            }
        }
        ks
    }
}


/// The window of chunks a viewer wants loaded: `area` cells laid out row by
/// row, `w` to a row, starting from chunk `(x, y)`. Cell `i` is the chunk at
/// `(x + i % w, y + i / w)`, with `%` and `/` as Rust computes them on `i32`.
#[derive(Clone, Copy, Debug)]
pub struct ViewWindow {
    pub x: i32,
    pub y: i32,
    pub w: i32,
    pub area: usize,
}

/// Column of window cell `i` in the chunk grid, before wrapping around the planet.
pub open spec fn view_cell_x(win: ViewWindow, i: int) -> int {
    i % (win.w as int) + win.x
}

/// Row of window cell `i` in the chunk grid, before wrapping around the planet.
pub open spec fn view_cell_y(win: ViewWindow, i: int) -> int {
    i / (win.w as int) + win.y
}

/// The chunk-grid position of window cell `i`, as recorded in a chunk
/// loaded for it.
pub open spec fn view_position(win: ViewWindow, i: int) -> Coord {
    Coord { x: view_cell_x(win, i) as i32, y: view_cell_y(win, i) as i32 }
}

/// The position window cell `i` is stored under: its position wrapped
/// around the planet in both directions.
pub open spec fn view_key(win: ViewWindow, size: PlanetSize, i: int) -> Coord {
    Coord {
        x: (view_cell_x(win, i) % (size.x as int)) as i32,
        y: (view_cell_y(win, i) % (size.y as int)) as i32,
    }
}

/// The positions the window's cells are stored under.
pub open spec fn view_keys(win: ViewWindow, size: PlanetSize) -> Set<Coord> {
    Set::new(|c: Coord| exists|i: int| 0 <= i < win.area && #[trigger] view_key(win, size, i) == c)
}

/// The conditions under which walking the window stays within machine
/// integers and never divides by zero.
pub open spec fn window_fits(win: ViewWindow, size: PlanetSize) -> bool {
    &&& win.area <= 0x8000_0000
    &&& win.area > 0 ==> {
        &&& win.w != 0
        &&& 0 < size.x <= i32::MAX
        &&& 0 < size.y <= i32::MAX
    }
    &&& forall|i: int|
        0 <= i < win.area ==> i32::MIN <= #[trigger] view_cell_x(win, i) <= i32::MAX
            && i32::MIN <= view_cell_y(win, i) <= i32::MAX
}

/// A chunk to load: the position it is stored under and the position
/// recorded in it.
#[derive(Clone, Copy, PartialEq, Eq, Debug, Structural)]
pub struct ChunkLoad {
    pub key: Coord,
    pub position: Coord,
}

pub open spec fn load_keys(loads: Seq<ChunkLoad>) -> Seq<Coord> {
    loads.map_values(|l: ChunkLoad| l.key)
}

/// The chunks to load for the first `n` window cells, in cell order: a cell
/// whose key is neither loaded nor already planned is loaded, with the
/// position of that cell.
pub open spec fn fresh_loads(win: ViewWindow, size: PlanetSize, loaded: Set<Coord>, n: nat) -> Seq<ChunkLoad>
    decreases n,
{
    if n == 0 {
        seq![]
    } else {
        let prev = fresh_loads(win, size, loaded, (n - 1) as nat);
        let k = view_key(win, size, n - 1);
        if loaded.contains(k) || load_keys(prev).contains(k) {
            prev
        } else {
            prev.push(ChunkLoad { key: k, position: view_position(win, n - 1) })
        }
    }
}

/// The planned keys are distinct, and are exactly the keys of the first `n`
/// cells that are not loaded.
pub proof fn lemma_fresh_loads(win: ViewWindow, size: PlanetSize, loaded: Set<Coord>, n: nat)
    ensures
        load_keys(fresh_loads(win, size, loaded, n)).no_duplicates(),
        forall|c: Coord|
            #![trigger load_keys(fresh_loads(win, size, loaded, n)).contains(c)]
            load_keys(fresh_loads(win, size, loaded, n)).contains(c) <==> (!loaded.contains(c) && exists|i: int|
                0 <= i < n && #[trigger] view_key(win, size, i) == c),
    decreases n,
{
    if n > 0 {
        let prev = fresh_loads(win, size, loaded, (n - 1) as nat);
        lemma_fresh_loads(win, size, loaded, (n - 1) as nat);
        let k = view_key(win, size, n - 1);
        let cur = fresh_loads(win, size, loaded, n);
        let pk = load_keys(prev);
        let ck = load_keys(cur);
        let added = !(loaded.contains(k) || pk.contains(k));
        assert(added ==> ck =~= pk.push(k));
        assert(!added ==> ck == pk);
        assert forall|c: Coord|
            ck.contains(c) <==> (!loaded.contains(c) && exists|i: int|
                0 <= i < n && #[trigger] view_key(win, size, i) == c) by {
            if ck.contains(c) {
                if c == k {
                    if pk.contains(c) {
                        let i = choose|i: int| 0 <= i < n - 1 && #[trigger] view_key(win, size, i) == c;
                        assert(0 <= i < n && view_key(win, size, i) == c);
                    } else {
                        assert(view_key(win, size, n - 1) == c);
                    }
                } else {
                    let j = choose|j: int| 0 <= j < ck.len() && ck[j] == c;
                    if added {
                        assert(j < pk.len());
                        assert(pk[j] == c);
                    }
                    assert(pk.contains(c));
                    let i = choose|i: int| 0 <= i < n - 1 && #[trigger] view_key(win, size, i) == c;
                    assert(0 <= i < n && view_key(win, size, i) == c);
                }
            }
            if !loaded.contains(c) && exists|i: int| 0 <= i < n && #[trigger] view_key(win, size, i) == c {
                let i = choose|i: int| 0 <= i < n && #[trigger] view_key(win, size, i) == c;
                if i < n - 1 {
                    assert(pk.contains(c));
                    let j = choose|j: int| 0 <= j < pk.len() && pk[j] == c;
                    assert(ck[j] == c);
                } else {
                    if added {
                        assert(ck[ck.len() - 1] == c);
                    }
                }
            }
        }
    }
}

/// The manager's plan fits what `apply_view_plan` asks of it, and carrying
/// it out leaves exactly the window's chunks loaded: a chunk is loaded
/// afterwards if and only if some window cell is stored under its key.
pub proof fn lemma_manager_settles(
    win: ViewWindow,
    size: PlanetSize,
    before: Set<Coord>,
    loads: Seq<ChunkLoad>,
    evictions: Seq<Coord>,
)
    requires
        loads == fresh_loads(win, size, before, win.area as nat),
        forall|c: Coord| evictions.contains(c) <==> before.contains(c) && !view_keys(win, size).contains(c),
    ensures
        load_keys(loads).no_duplicates(),
        forall|j: int| 0 <= j < loads.len() ==> !before.contains(#[trigger] loads[j].key),
        forall|j: int| 0 <= j < evictions.len() ==> before.contains(#[trigger] evictions[j]),
        forall|c: Coord|
            ((before.contains(c) || load_keys(loads).contains(c)) && !evictions.contains(c))
                <==> #[trigger] view_keys(win, size).contains(c),
{
    lemma_fresh_loads(win, size, before, win.area as nat);
    assert forall|j: int| 0 <= j < loads.len() implies !before.contains(#[trigger] loads[j].key) by {
        assert(load_keys(loads)[j] == loads[j].key);
        assert(load_keys(loads).contains(loads[j].key));
    }
    assert forall|j: int| 0 <= j < evictions.len() implies before.contains(#[trigger] evictions[j]) by {
        assert(evictions.contains(evictions[j]));
    }
    assert forall|c: Coord|
        ((before.contains(c) || load_keys(loads).contains(c)) && !evictions.contains(c))
            <==> #[trigger] view_keys(win, size).contains(c) by {
        if view_keys(win, size).contains(c) {
            let i = choose|i: int| 0 <= i < win.area && #[trigger] view_key(win, size, i) == c;
        }
    }
}

/// Once exactly the window's chunks are loaded, another step over the same
/// window plans no loads and no evictions.
pub proof fn lemma_manager_settled_is_still(win: ViewWindow, size: PlanetSize, loaded: Set<Coord>)
    requires
        loaded == view_keys(win, size),
    ensures
        fresh_loads(win, size, loaded, win.area as nat).len() == 0,
        forall|c: Coord| !(loaded.contains(c) && !view_keys(win, size).contains(c)),
{
    lemma_fresh_loads(win, size, loaded, win.area as nat);
    let loads = fresh_loads(win, size, loaded, win.area as nat);
    if loads.len() > 0 {
        let c = loads[0].key;
        assert(load_keys(loads)[0] == c);
        assert(load_keys(loads).contains(c));
        let i = choose|i: int| 0 <= i < win.area && #[trigger] view_key(win, size, i) == c;
        assert(view_keys(win, size).contains(c));
    }
}

proof fn lemma_fresh_loads_are_cells(win: ViewWindow, size: PlanetSize, loaded: Set<Coord>, n: nat, j: int)
    requires
        0 <= j < fresh_loads(win, size, loaded, n).len(),
    ensures
        exists|i: int|
            0 <= i < n && fresh_loads(win, size, loaded, n)[j] == (ChunkLoad {
                key: #[trigger] view_key(win, size, i),
                position: view_position(win, i),
            }),
    decreases n,
{
    let prev = fresh_loads(win, size, loaded, (n - 1) as nat);
    if j < prev.len() {
        lemma_fresh_loads_are_cells(win, size, loaded, (n - 1) as nat, j);
        let i = choose|i: int|
            0 <= i < n - 1 && prev[j] == (ChunkLoad {
                key: #[trigger] view_key(win, size, i),
                position: view_position(win, i),
            });
        assert(fresh_loads(win, size, loaded, n)[j] == prev[j]);
    } else {
        assert(fresh_loads(win, size, loaded, n)[j] == ChunkLoad {
            key: view_key(win, size, n - 1),
            position: view_position(win, n - 1),
        });
    }
}

/// Chunk columns and rows wrap around the planet: every chunk the manager
/// plans to load is stored under a key inside the planet, `0..size.x` by
/// `0..size.y`, that differs from the position recorded in it by whole
/// turns of the planet in each direction: the key is the position reduced
/// by the planet's size with a Euclidean (never negative) remainder.
pub proof fn lemma_loads_wrap_around_planet(win: ViewWindow, size: PlanetSize, loaded: Set<Coord>, j: int)
    requires
        window_fits(win, size),
        0 <= j < fresh_loads(win, size, loaded, win.area as nat).len(),
    ensures
        ({
            let l = fresh_loads(win, size, loaded, win.area as nat)[j];
            &&& 0 <= l.key.x < size.x
            &&& 0 <= l.key.y < size.y
            &&& (l.position.x - l.key.x) % (size.x as int) == 0
            &&& (l.position.y - l.key.y) % (size.y as int) == 0
            &&& l.key.x == (l.position.x as int) % (size.x as int)
            &&& l.key.y == (l.position.y as int) % (size.y as int)
        }),
{
    lemma_fresh_loads_are_cells(win, size, loaded, win.area as nat, j);
    let l = fresh_loads(win, size, loaded, win.area as nat)[j];
    let i = choose|i: int|
        0 <= i < win.area && l == (ChunkLoad {
            key: #[trigger] view_key(win, size, i),
            position: view_position(win, i),
        });
    let cx = view_cell_x(win, i);
    let cy = view_cell_y(win, i);
    assert(i32::MIN <= cx <= i32::MAX && i32::MIN <= cy <= i32::MAX);
    let sx = size.x as int;
    let sy = size.y as int;
    vstd::arithmetic::div_mod::lemma_fundamental_div_mod(cx, sx);
    vstd::arithmetic::div_mod::lemma_fundamental_div_mod(cy, sy);
    vstd::arithmetic::div_mod::lemma_mod_bound(cx, sx);
    vstd::arithmetic::div_mod::lemma_mod_bound(cy, sy);
    assert(l.key.x == cx % sx);
    assert(l.key.y == cy % sy);
    assert(l.position.x == cx);
    assert(l.position.y == cy);
    vstd::arithmetic::div_mod::lemma_mod_multiples_basic(cx / sx, sx);
    vstd::arithmetic::div_mod::lemma_mod_multiples_basic(cy / sy, sy);
    assert(l.position.x - l.key.x == (cx / sx) * sx) by (nonlinear_arith)
        requires
            cx == sx * (cx / sx) + cx % sx,
            l.position.x == cx,
            l.key.x == cx % sx,
    ;
    assert(l.position.y - l.key.y == (cy / sy) * sy) by (nonlinear_arith)
        requires
            cy == sy * (cy / sy) + cy % sy,
            l.position.y == cy,
            l.key.y == cy % sy,
    ;
}

/// Cell `i` of a view window that starts at chunk `(win.x, win.y)` and is
/// `win.w` chunks wide, counted row by row, is chunk `(x, y)` (with `%` and
/// `/` as Rust computes them on the non-negative `i`).
pub open spec fn view_covers(win: ViewWindow, i: int, x: int, y: int) -> bool {
    &&& 0 <= i < win.area
    &&& x == win.x + i % (win.w as int)
    &&& y == win.y + i / (win.w as int)
}

/// Every chunk the manager plans to load records the position of a cell of
/// the window: the cell `i` at `(win.x + i % win.w, win.y + i / win.w)`.
pub proof fn lemma_load_position_is_cell(win: ViewWindow, size: PlanetSize, loaded: Set<Coord>, j: int)
    requires
        window_fits(win, size),
        0 <= j < fresh_loads(win, size, loaded, win.area as nat).len(),
    ensures
        exists|i: int|
            #[trigger] view_covers(
                win,
                i,
                fresh_loads(win, size, loaded, win.area as nat)[j].position.x as int,
                fresh_loads(win, size, loaded, win.area as nat)[j].position.y as int,
            ),
{
    lemma_fresh_loads_are_cells(win, size, loaded, win.area as nat, j);
    let l = fresh_loads(win, size, loaded, win.area as nat)[j];
    let i = choose|i: int|
        0 <= i < win.area && l == (ChunkLoad {
            key: #[trigger] view_key(win, size, i),
            position: view_position(win, i),
        });
    assert(i32::MIN <= view_cell_x(win, i) <= i32::MAX);
    assert(view_covers(win, i, l.position.x as int, l.position.y as int));
}

/// The manager leaves no cell of the window out: for every window cell at
/// `(x, y)`, the chunk under its position wrapped around the planet (`x`
/// modulo the width, `y` modulo the height) is either loaded already or
/// planned.
pub proof fn lemma_loads_cover_window(win: ViewWindow, size: PlanetSize, loaded: Set<Coord>)
    requires
        window_fits(win, size),
    ensures
        forall|i: int, x: int, y: int|
            #[trigger] view_covers(win, i, x, y) ==> {
                let k = Coord { x: (x % (size.x as int)) as i32, y: (y % (size.y as int)) as i32 };
                loaded.contains(k) || load_keys(fresh_loads(win, size, loaded, win.area as nat)).contains(k)
            },
{
    let loads = fresh_loads(win, size, loaded, win.area as nat);
    lemma_fresh_loads(win, size, loaded, win.area as nat);
    assert forall|i: int, x: int, y: int| #[trigger] view_covers(win, i, x, y) implies {
        let k = Coord { x: (x % (size.x as int)) as i32, y: (y % (size.y as int)) as i32 };
        loaded.contains(k) || load_keys(loads).contains(k)
    } by {
        assert(view_key(win, size, i) == Coord { x: (x % (size.x as int)) as i32, y: (y % (size.y as int)) as i32 });
    }
}

/// What the manager decides for one step: the chunks to load, in window
/// order, and the loaded chunks to save and drop, each once.
pub struct ViewPlan {
    pub loads: Vec<ChunkLoad>,
    pub evictions: Vec<Coord>,
}


/// Rust's `%` and `/` of a non-negative `i32` by a non-zero one agree with
/// Euclidean division.
proof fn lemma_truncating_matches(x: int, d: int)
    requires
        x >= 0,
        d != 0,
    ensures
        d < 0 ==> x % (d * -1) == x % d && (x / (d * -1)) * -1 == x / d,
        x == 0 ==> x % d == 0 && x / d == 0,
{
    if x == 0 {
        assert(x % d == 0 && x / d == 0) by (nonlinear_arith)
            requires
                x == 0,
                d != 0,
        ;
    }
    if d < 0 {
        let e = d * -1;
        let q = x / e;
        let r = x % e;
        assert(x == e * q + r && 0 <= r < e) by (nonlinear_arith)
            requires
                e > 0,
                q == x / e,
                r == x % e,
        ;
        assert(x == d * (q * -1) + r) by (nonlinear_arith)
            requires
                x == e * q + r,
                e == d * -1,
        ;
        let q2 = x / d;
        let r2 = x % d;
        assert(x == d * q2 + r2 && 0 <= r2 < e) by (nonlinear_arith)
            requires
                d < 0,
                e == d * -1,
                q2 == x / d,
                r2 == x % d,
        ;
        assert(q2 == q * -1 && r2 == r) by (nonlinear_arith)
            requires
                x == d * q2 + r2,
                x == d * (q * -1) + r,
                0 <= r2 < e,
                0 <= r < e,
                e == d * -1,
                d < 0,
        ;
    }
}

/// The position and the key of window cell `i`.
fn view_cell(win: &ViewWindow, size: PlanetSize, i: usize) -> (r: (Coord, Coord))
    requires
        window_fits(*win, size),
        i < win.area,
    ensures
        r.0 == view_position(*win, i as int),
        r.1 == view_key(*win, size, i as int),
{
    proof {
        assert(i32::MIN <= view_cell_x(*win, i as int) <= i32::MAX);
        lemma_truncating_matches(i as int, win.w as int);
    }
    let ii: i32 = i as i32;
    assert(ii as int == i as int);
    let rx: i32 = match ii.checked_rem(win.w) {
        Some(v) => v,
        None => 0,
    };
    assert(rx as int == (i as int) % (win.w as int));
    let qy: i32 = match ii.checked_div(win.w) {
        Some(v) => v,
        None => 0,
    };
    assert(qy as int == (i as int) / (win.w as int));
    let cx: i32 = rx + win.x;
    let cy: i32 = qy + win.y;
    let kx: i32 = match cx.checked_rem_euclid(size.x as i32) {
        Some(v) => v,
        None => 0,
    };
    let ky: i32 = match cy.checked_rem_euclid(size.y as i32) {
        Some(v) => v,
        None => 0,
    };
    (Coord { x: cx, y: cy }, Coord { x: kx, y: ky })
}

impl ViewWindow {
    /// Whether walking this window over a planet of `size` stays within
    /// machine integers (`window_fits`).
    pub fn fits(&self, size: PlanetSize) -> (r: bool)
        ensures
            r == window_fits(*self, size),
    {
        if self.area > 0x8000_0000 {
            return false;
        }
        if self.area > 0 && (self.w == 0 || size.x == 0 || size.x > 0x7fff_ffff || size.y == 0
            || size.y > 0x7fff_ffff) {
            return false;
        }
        let mut i: usize = 0;
        while i < self.area
            invariant
                i <= self.area <= 0x8000_0000,
                self.area > 0 ==> self.w != 0,
                forall|j: int|
                    0 <= j < i ==> i32::MIN <= #[trigger] view_cell_x(*self, j) <= i32::MAX
                        && i32::MIN <= view_cell_y(*self, j) <= i32::MAX,
            decreases self.area - i,
        {
            proof {
                lemma_truncating_matches(i as int, self.w as int);
            }
            let ii: i32 = i as i32;
            let rx: i32 = match ii.checked_rem(self.w) {
                Some(v) => v,
                None => 0,
            };
            let qy: i32 = match ii.checked_div(self.w) {
                Some(v) => v,
                None => 0,
            };
            let cx: i64 = rx as i64 + self.x as i64;
            let cy: i64 = qy as i64 + self.y as i64;
            if cx < i32::MIN as i64 || cx > i32::MAX as i64 || cy < i32::MIN as i64 || cy
                > i32::MAX as i64 {
                assert(!(i32::MIN <= view_cell_x(*self, i as int) <= i32::MAX
                    && i32::MIN <= view_cell_y(*self, i as int) <= i32::MAX));
                return false;
            }
            i = i + 1;
        }
        true
    }
}

fn contains_coord(v: &Vec<Coord>, c: Coord) -> (r: bool)
    ensures
        r == v@.contains(c),
{
    let mut j: usize = 0;
    while j < v.len()
        invariant
            j <= v@.len(),
            forall|k: int| 0 <= k < j ==> v@[k] != c,
        decreases v@.len() - j,
    {
        if v[j] == c {
            return true;
        }
        j = j + 1;
    }
    false
}

fn planned(loads: &Vec<ChunkLoad>, c: Coord) -> (r: bool)
    ensures
        r == load_keys(loads@).contains(c),
{
    let mut j: usize = 0;
    while j < loads.len()
        invariant
            j <= loads@.len(),
            forall|k: int| 0 <= k < j ==> loads@[k].key != c,
        decreases loads@.len() - j,
    {
        if loads[j].key == c {
            assert(load_keys(loads@)[j as int] == c);
            return true;
        }
        j = j + 1;
    }
    false
}

/// Decides one step of keeping the chunks around a viewer loaded: which
/// window chunks to load (those neither loaded nor planned yet, in window
/// order, each with the position of the first cell that wants it), and
/// which loaded chunks to save and drop (those outside the window).
pub fn chunks_in_view_manager(display: &ViewWindow, chunks_in_view: &ChunksInView, planet: &Planet) -> (plan: ViewPlan)
    requires
        window_fits(*display, planet.size),
    ensures
        plan.loads@ == fresh_loads(*display, planet.size, chunks_in_view@.dom(), display.area as nat),
        plan.evictions@.no_duplicates(),
        forall|c: Coord|
            plan.evictions@.contains(c) <==> chunks_in_view@.dom().contains(c) && !view_keys(
                *display,
                planet.size,
            ).contains(c),
{
    let ghost loaded = chunks_in_view@.dom();
    let mut loads: Vec<ChunkLoad> = Vec::new();
    let mut in_view: Vec<Coord> = Vec::new();
    let mut i: usize = 0;
    while i < display.area
        invariant
            i <= display.area,
            window_fits(*display, planet.size),
            loaded == chunks_in_view@.dom(),
            loads@ == fresh_loads(*display, planet.size, loaded, i as nat),
            in_view@ == Seq::new(i as nat, |j: int| view_key(*display, planet.size, j)),
        decreases display.area - i,
    {
        let (position, key) = view_cell(display, planet.size, i);
        in_view.push(key);
        if !chunks_in_view.contains_key(key) && !planned(&loads, key) {
            loads.push(ChunkLoad { key, position });
        }
        i = i + 1;
        assert(in_view@ =~= Seq::new(i as nat, |j: int| view_key(*display, planet.size, j)));
    }
    let keys = chunks_in_view.keys();
    let mut evictions: Vec<Coord> = Vec::new();
    let mut j: usize = 0;
    while j < keys.len()
        invariant
            j <= keys@.len(),
            keys@.no_duplicates(),
            forall|c: Coord| keys@.contains(c) <==> loaded.contains(c),
            in_view@ == Seq::new(display.area as nat, |k: int| view_key(*display, planet.size, k)),
            evictions@.no_duplicates(),
            forall|c: Coord|
                evictions@.contains(c) <==> (exists|k: int| 0 <= k < j && keys@[k] == c)
                    && !view_keys(*display, planet.size).contains(c),
        decreases keys@.len() - j,
    {
        let c = keys[j];
        let seen = contains_coord(&in_view, c);
        proof {
            if seen {
                let k = choose|k: int| 0 <= k < in_view@.len() && in_view@[k] == c;
                assert(view_key(*display, planet.size, k) == c);
                assert(view_keys(*display, planet.size).contains(c));
            } else {
                assert forall|k: int| 0 <= k < display.area implies #[trigger] view_key(*display, planet.size, k) != c by {
                    assert(in_view@[k] == view_key(*display, planet.size, k));
                }
                assert(!view_keys(*display, planet.size).contains(c));
            }
        }
        let ghost before = evictions@;
        let ghost jj = j as int;
        if !seen {
            proof {
                assert forall|k: int| 0 <= k < evictions@.len() implies evictions@[k] != c by {
                    let e = evictions@[k];
                    assert(evictions@.contains(e));
                    let m = choose|m: int| 0 <= m < jj && keys@[m] == e;
                    assert(keys@[m] != keys@[jj]);
                }
            }
            evictions.push(c);
        }
        j = j + 1;
        proof {
            assert forall|c2: Coord|
                evictions@.contains(c2) <==> (exists|k: int| 0 <= k < j && keys@[k] == c2)
                    && !view_keys(*display, planet.size).contains(c2) by {
                if evictions@.contains(c2) {
                    if !seen && c2 == c {
                        assert(keys@[jj] == c2);
                    } else {
                        let k = choose|k: int| 0 <= k < evictions@.len() && evictions@[k] == c2;
                        assert(before[k] == c2);
                        assert(before.contains(c2));
                        let m = choose|m: int| 0 <= m < jj && keys@[m] == c2;
                        assert(0 <= m < j && keys@[m] == c2);
                    }
                }
                if (exists|k: int| 0 <= k < j && keys@[k] == c2) && !view_keys(*display, planet.size).contains(c2) {
                    let k = choose|k: int| 0 <= k < j && keys@[k] == c2;
                    if k < jj {
                        assert(before.contains(c2));
                        let m = choose|m: int| 0 <= m < before.len() && before[m] == c2;
                        assert(evictions@[m] == c2);
                    } else {
                        assert(c2 == c);
                        assert(evictions@[evictions@.len() - 1] == c2);
                    }
                }
            }
        }
    }
    proof {
        assert forall|c: Coord|
            evictions@.contains(c) <==> loaded.contains(c) && !view_keys(*display, planet.size).contains(c) by {
            if loaded.contains(c) {
                assert(keys@.contains(c));
                let k = choose|k: int| 0 <= k < keys@.len() && keys@[k] == c;
            }
        }
    }
    ViewPlan { loads, evictions }
}


/// Carries out a plan of the manager: stores each planned chunk under its
/// key, with the position the plan records and the blocks loaded for it,
/// then takes the evicted chunks out. Returns the evicted chunks, each with
/// its key as position, as they are to be saved.
pub fn apply_view_plan(
    chunks_in_view: &mut ChunksInView,
    plan: &ViewPlan,
    loaded: &Vec<[BlockType; CHUNKSIZE]>,
) -> (saved: Vec<ChunkWithOtherInfo>)
    requires
        loaded@.len() == plan.loads@.len(),
        load_keys(plan.loads@).no_duplicates(),
        forall|j: int| 0 <= j < plan.loads@.len() ==> !old(chunks_in_view)@.contains_key(
            #[trigger] plan.loads@[j].key,
        ),
        plan.evictions@.no_duplicates(),
        forall|j: int| 0 <= j < plan.evictions@.len() ==> old(chunks_in_view)@.contains_key(
            #[trigger] plan.evictions@[j],
        ),
    ensures
        forall|c: Coord|
            #[trigger] final(chunks_in_view)@.contains_key(c) <==> (old(chunks_in_view)@.contains_key(c)
                || load_keys(plan.loads@).contains(c)) && !plan.evictions@.contains(c),
        forall|j: int|
            0 <= j < plan.loads@.len() ==> final(chunks_in_view)@[#[trigger] plan.loads@[j].key]
                == (ChunkWithOtherInfo { position: plan.loads@[j].position, chunk: loaded@[j] }),
        forall|c: Coord|
            old(chunks_in_view)@.contains_key(c) && !plan.evictions@.contains(c)
                ==> #[trigger] final(chunks_in_view)@[c] == old(chunks_in_view)@[c],
        saved@.len() == plan.evictions@.len(),
        forall|j: int|
            0 <= j < saved@.len() ==> #[trigger] saved@[j] == (ChunkWithOtherInfo {
                position: plan.evictions@[j],
                chunk: old(chunks_in_view)@[plan.evictions@[j]].chunk,
            }),
{
    let ghost start = chunks_in_view@;
    let mut j: usize = 0;
    while j < plan.loads.len()
        invariant
            j <= plan.loads@.len(),
            loaded@.len() == plan.loads@.len(),
            load_keys(plan.loads@).no_duplicates(),
            forall|k: int| 0 <= k < plan.loads@.len() ==> !start.contains_key(
                #[trigger] plan.loads@[k].key,
            ),
            forall|c: Coord|
                #[trigger] chunks_in_view@.contains_key(c) <==> start.contains_key(c) || exists|k: int|
                    0 <= k < j && plan.loads@[k].key == c,
            forall|k: int|
                0 <= k < j ==> chunks_in_view@[#[trigger] plan.loads@[k].key] == (ChunkWithOtherInfo {
                    position: plan.loads@[k].position,
                    chunk: loaded@[k],
                }),
            forall|c: Coord| #[trigger] start.contains_key(c) ==> chunks_in_view@[c] == start[c],
        decreases plan.loads@.len() - j,
    {
        let load = plan.loads[j];
        chunks_in_view.insert(load.key, ChunkWithOtherInfo { position: load.position, chunk: loaded[j] });
        proof {
            assert forall|k: int| 0 <= k < j implies plan.loads@[k].key != load.key by {
                assert(load_keys(plan.loads@)[k] == plan.loads@[k].key);
                assert(load_keys(plan.loads@)[j as int] == load.key);
            }
        }
        j = j + 1;
    }
    proof {
        assert forall|c: Coord| load_keys(plan.loads@).contains(c) <==> exists|k: int|
            0 <= k < plan.loads@.len() && plan.loads@[k].key == c by {
            if load_keys(plan.loads@).contains(c) {
                let k = choose|k: int| 0 <= k < load_keys(plan.loads@).len() && load_keys(plan.loads@)[k] == c;
                assert(plan.loads@[k].key == c);
            }
            if exists|k: int| 0 <= k < plan.loads@.len() && plan.loads@[k].key == c {
                let k = choose|k: int| 0 <= k < plan.loads@.len() && plan.loads@[k].key == c;
                assert(load_keys(plan.loads@)[k] == c);
            }
        }
    }
    let ghost middle = chunks_in_view@;
    let mut saved: Vec<ChunkWithOtherInfo> = Vec::new();
    let mut e: usize = 0;
    while e < plan.evictions.len()
        invariant
            e <= plan.evictions@.len(),
            plan.evictions@.no_duplicates(),
            forall|k: int| 0 <= k < plan.evictions@.len() ==> start.contains_key(
                #[trigger] plan.evictions@[k],
            ),
            forall|k: int| 0 <= k < plan.loads@.len() ==> !start.contains_key(
                #[trigger] plan.loads@[k].key,
            ),
            forall|c: Coord| #[trigger] start.contains_key(c) ==> middle[c] == start[c],
            forall|c: Coord| start.contains_key(c) ==> #[trigger] middle.contains_key(c),
            forall|c: Coord|
                #[trigger] chunks_in_view@.contains_key(c) <==> middle.contains_key(c) && !exists|k: int|
                    0 <= k < e && plan.evictions@[k] == c,
            forall|c: Coord| #[trigger] chunks_in_view@.contains_key(c) ==> chunks_in_view@[c] == middle[c],
            saved@.len() == e,
            forall|k: int|
                0 <= k < e ==> #[trigger] saved@[k] == (ChunkWithOtherInfo {
                    position: plan.evictions@[k],
                    chunk: start[plan.evictions@[k]].chunk,
                }),
        decreases plan.evictions@.len() - e,
    {
        let key = plan.evictions[e];
        proof {
            assert forall|k: int| 0 <= k < e implies plan.evictions@[k] != key by {
                assert(plan.evictions@[k] != plan.evictions@[e as int]);
            }
            assert(start.contains_key(key));
            assert(middle.contains_key(key));
            assert(chunks_in_view@.contains_key(key));
        }
        let taken = chunks_in_view.remove(key);
        match taken {
            Some(info) => {
                saved.push(ChunkWithOtherInfo { position: key, chunk: info.chunk });
            },
            None => {
                saved.push(ChunkWithOtherInfo { position: key, chunk: [BlockType::Air; CHUNKSIZE] });
            },
        }
        e = e + 1;
    }
    proof {
        assert forall|c: Coord| plan.evictions@.contains(c) <==> exists|k: int|
            0 <= k < plan.evictions@.len() && plan.evictions@[k] == c by {
        }
        assert forall|j: int| 0 <= j < plan.loads@.len() implies chunks_in_view@[#[trigger] plan.loads@[j].key]
            == (ChunkWithOtherInfo { position: plan.loads@[j].position, chunk: loaded@[j] }) by {
            let k = plan.loads@[j].key;
            assert(!start.contains_key(k));
            assert(!plan.evictions@.contains(k));
            assert(middle.contains_key(k));
            assert(chunks_in_view@.contains_key(k));
        }
        assert forall|c: Coord|
            start.contains_key(c) && !plan.evictions@.contains(c)
                implies #[trigger] chunks_in_view@[c] == start[c] by {
            assert(middle.contains_key(c));
            assert(chunks_in_view@.contains_key(c));
        }
    }
    saved
}


/// `writes` saves each chunk of `chunks` once, in the order of `keys`: each
/// with its key as position.
pub open spec fn saves_all(
    keys: Seq<Coord>,
    writes: Seq<ChunkFileWrite>,
    chunks: Map<Coord, ChunkWithOtherInfo>,
    planet: &Planet,
) -> bool {
    &&& keys.no_duplicates()
    &&& forall|c: Coord| keys.contains(c) <==> chunks.dom().contains(c)
    &&& writes.len() == keys.len()
    &&& forall|j: int|
        0 <= j < writes.len() ==> {
            &&& (#[trigger] writes[j]).path@ == chunk_file_path(planet_name_bytes(planet), keys[j])
            &&& writes[j].contents@ == chunk_text(chunks[keys[j]].chunk@)
        }
}

/// What saving every loaded chunk writes: one file per loaded chunk, named
/// after the position it is stored under, in no particular order.
pub fn save_planet_from_manager(chunks_in_view: &ChunksInView, planet: &Planet) -> (writes: Vec<ChunkFileWrite>)
    ensures
        exists|keys: Seq<Coord>| saves_all(keys, writes@, chunks_in_view@, planet),
{
    let keys = chunks_in_view.keys();
    let mut writes: Vec<ChunkFileWrite> = Vec::new();
    let mut j: usize = 0;
    while j < keys.len()
        invariant
            j <= keys@.len(),
            forall|c: Coord| keys@.contains(c) <==> chunks_in_view@.dom().contains(c),
            writes@.len() == j,
            forall|k: int|
                0 <= k < j ==> {
                    &&& (#[trigger] writes@[k]).path@ == chunk_file_path(planet_name_bytes(planet), keys@[k])
                    &&& writes@[k].contents@ == chunk_text(chunks_in_view@[keys@[k]].chunk@)
                },
        decreases keys@.len() - j,
    {
        let key = keys[j];
        proof {
            assert(keys@.contains(key));
        }
        match chunks_in_view.get(key) {
            Some(info) => {
                let to_save = ChunkWithOtherInfo { position: key, chunk: info.chunk };
                writes.push(writechunkfile(&to_save, planet));
            },
            None => {
                let to_save = ChunkWithOtherInfo { position: key, chunk: [BlockType::Air; CHUNKSIZE] };
                writes.push(writechunkfile(&to_save, planet));
            },
        }
        j = j + 1;
    }
    assert(saves_all(keys@, writes@, chunks_in_view@, planet));
    writes
}

} // verus!
