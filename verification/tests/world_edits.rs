use torus::edit::{edit_chunk_key, edit_in_range};
use torus::block::BlockType;
use torus::chunk::{ChunkWithOtherInfo, CHUNKSIZE};
use torus::collision::{block_collidable, collision_candidates, item_type_index, CellWindow, SolidCell};
use torus::edit::{destroy_block, place_block};
use torus::inventory::ItemType;
use torus::render::{block_texture, BlockTexture};
use torus::view::ChunksInView;
use torus::world::{Coord, Planet, PlanetSize};

fn planet(x: u32, y: u32) -> Planet {
    Planet { name: "Terra".to_string(), size: PlanetSize { x, y } }
}

fn c(x: i32, y: i32) -> Coord {
    Coord { x, y }
}

fn air(position: Coord) -> ChunkWithOtherInfo {
    ChunkWithOtherInfo { position, chunk: [BlockType::Air; CHUNKSIZE] }
}

fn item_type(id: &str, collidable: bool) -> ItemType {
    ItemType {
        id: id.to_string(),
        name: "DIRTMADAFAKA".to_string(),
        placeable: collidable,
        max_stack: 64,
        tool: false,
        block: false,
        collidable,
    }
}

fn game_item_types() -> Vec<ItemType> {
    vec![
        item_type("Air", false),
        item_type("Dirt", true),
        item_type("Stone", true),
        item_type("Grass", true),
    ]
}

#[test]
fn place_block_wraps_columns() {
    let p = planet(2, 2);
    let mut store = ChunksInView::new();
    store.insert(c(1, 0), air(c(1, 0)));
    // column -1 wraps to 63, in chunk 1 at local column 31; row 5
    assert!(place_block(BlockType::Dirt, c(-1, 5), &p, &mut store));
    let chunk = store.get(c(1, 0)).unwrap();
    assert_eq!(chunk.chunk[31 + 5 * 32], BlockType::Dirt);
    assert_eq!(chunk.chunk.iter().filter(|b| **b == BlockType::Dirt).count(), 1);
    assert_eq!(chunk.position, c(1, 0));
    // column 127 wraps to 63 as well
    assert!(place_block(BlockType::Stone, c(127, 5), &p, &mut store));
    assert_eq!(store.get(c(1, 0)).unwrap().chunk[31 + 5 * 32], BlockType::Stone);
}

#[test]
fn place_block_needs_a_loaded_chunk() {
    let p = planet(2, 2);
    let mut store = ChunksInView::new();
    store.insert(c(0, 0), air(c(0, 0)));
    // rows are not wrapped: row -1 is in chunk row -1
    assert!(!place_block(BlockType::Dirt, c(3, -1), &p, &mut store));
    assert!(!place_block(BlockType::Dirt, c(40, 3), &p, &mut store));
    assert!(store.get(c(0, 0)).unwrap().chunk.iter().all(|b| *b == BlockType::Air));
}

#[test]
fn destroy_block_clears_to_air() {
    let p = planet(3, 3);
    let mut store = ChunksInView::new();
    store.insert(c(0, 1), ChunkWithOtherInfo { position: c(0, 1), chunk: [BlockType::Stone; CHUNKSIZE] });
    assert!(destroy_block(c(2, 33), &p, &mut store));
    let chunk = store.get(c(0, 1)).unwrap();
    assert_eq!(chunk.chunk[2 + 32], BlockType::Air);
    assert_eq!(chunk.chunk[2], BlockType::Stone);
    assert!(!destroy_block(c(2, 200), &p, &mut store));
}

#[test]
fn item_types_are_found_by_block_name() {
    let types = game_item_types();
    assert_eq!(item_type_index(&types, BlockType::Air), Some(0));
    assert_eq!(item_type_index(&types, BlockType::Stone), Some(2));
    assert_eq!(item_type_index(&types, BlockType::Marvin), None);
    assert!(block_collidable(&types, BlockType::Dirt));
    assert!(!block_collidable(&types, BlockType::Air));
    assert!(!block_collidable(&types, BlockType::Marvin));
}

#[test]
fn collision_candidates_are_solid_loaded_cells() {
    let p = planet(3, 2);
    let types = game_item_types();
    let mut store = ChunksInView::new();
    let mut chunk = air(c(0, 0));
    chunk.chunk[0] = BlockType::Stone;
    chunk.chunk[33] = BlockType::Dirt;
    chunk.chunk[32] = BlockType::Marvin;
    store.insert(c(0, 0), chunk);
    let window = CellWindow { x: 0, y: 0, w: 2, area: 4 };
    assert!(window.fits(p.size));
    let cells = collision_candidates(&window, &store, &p, &types);
    assert_eq!(cells, vec![SolidCell { index: 0, x: 0, y: 0 }, SolidCell { index: 33, x: 1, y: 1 }]);
}

#[test]
fn collision_wraps_columns_and_stops_at_the_top() {
    let p = planet(3, 2);
    let types = game_item_types();
    let mut store = ChunksInView::new();
    let mut chunk = air(c(2, 1));
    chunk.chunk[31] = BlockType::Grass;
    store.insert(c(2, 1), chunk);
    // cell (-1, 32) is chunk (-1, 1), stored under (2, 1), at index 31
    let window = CellWindow { x: -1, y: 32, w: 1, area: 1 };
    let cells = collision_candidates(&window, &store, &p, &types);
    assert_eq!(cells, vec![SolidCell { index: 31, x: -1, y: 32 }]);
    // row 64 is chunk row 2, at the planet's top: never solid
    let mut top = air(c(2, 0));
    top.chunk[31] = BlockType::Grass;
    store.insert(c(2, 0), top);
    let window = CellWindow { x: -1, y: 64, w: 1, area: 1 };
    assert!(collision_candidates(&window, &store, &p, &types).is_empty());
    // row -32 is chunk row -1, wrapped to 1
    let window = CellWindow { x: -1, y: -32, w: 1, area: 1 };
    assert_eq!(
        collision_candidates(&window, &store, &p, &types),
        vec![SolidCell { index: 31, x: -1, y: -32 }]
    );
}

#[test]
fn cell_window_fit_checks() {
    let size = PlanetSize { x: 20, y: 20 };
    assert!(CellWindow { x: 5, y: 5, w: 3, area: 9 }.fits(size));
    assert!(!CellWindow { x: 5, y: 5, w: 0, area: 9 }.fits(size));
    assert!(!CellWindow { x: i32::MAX, y: 5, w: 3, area: 9 }.fits(size));
    assert!(CellWindow { x: 5, y: 5, w: 0, area: 0 }.fits(size));
}

#[test]
fn block_textures() {
    assert_eq!(block_texture(BlockType::Dirt), Some(BlockTexture::Dirt));
    assert_eq!(block_texture(BlockType::Grass), Some(BlockTexture::Grass));
    assert_eq!(block_texture(BlockType::Stone), Some(BlockTexture::Stone));
    assert_eq!(block_texture(BlockType::Air), None);
    assert_eq!(block_texture(BlockType::Marvin), None);
}

#[test]
fn edit_keys_and_ranges() {
    let size = PlanetSize { x: 2, y: 2 };
    assert!(edit_in_range(size));
    assert!(!edit_in_range(PlanetSize { x: 0, y: 2 }));
    assert!(!edit_in_range(PlanetSize { x: 67108864, y: 2 }));
    assert_eq!(edit_chunk_key(size, c(-1, 5)), c(1, 0));
    assert_eq!(edit_chunk_key(size, c(64, -1)), c(0, -1));
    assert_eq!(edit_chunk_key(size, c(40, 70)), c(1, 2));
}
