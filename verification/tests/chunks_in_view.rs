use torus::block::BlockType;
use torus::chunk::{chunk_file_contents, ChunkWithOtherInfo, CHUNKSIZE};
use torus::view::{
    apply_view_plan, chunks_in_view_manager, save_planet_from_manager, ChunkLoad, ChunksInView,
    ViewWindow,
};
use torus::world::{Coord, Planet, PlanetSize};

fn planet(x: u32, y: u32) -> Planet {
    Planet { name: "Terra".to_string(), size: PlanetSize { x, y } }
}

fn filled(position: Coord, block: BlockType) -> ChunkWithOtherInfo {
    ChunkWithOtherInfo { position, chunk: [block; CHUNKSIZE] }
}

fn c(x: i32, y: i32) -> Coord {
    Coord { x, y }
}

fn sorted_keys(store: &ChunksInView) -> Vec<(i32, i32)> {
    let mut keys: Vec<(i32, i32)> = store.keys().iter().map(|k| (k.x, k.y)).collect();
    keys.sort();
    keys
}

#[test]
fn store_insert_get_remove() {
    let mut store = ChunksInView::new();
    assert!(store.keys().is_empty());
    store.insert(c(-1, 3), filled(c(-1, 3), BlockType::Dirt));
    store.insert(c(i32::MAX, i32::MIN), filled(c(0, 0), BlockType::Stone));
    assert!(store.contains_key(c(-1, 3)));
    assert!(!store.contains_key(c(3, -1)));
    assert_eq!(store.get(c(i32::MAX, i32::MIN)).unwrap().chunk[0], BlockType::Stone);
    store.insert(c(-1, 3), filled(c(7, 7), BlockType::Grass));
    assert_eq!(store.get(c(-1, 3)).unwrap().position, c(7, 7));
    assert_eq!(sorted_keys(&store), vec![(-1, 3), (i32::MAX, i32::MIN)]);
    let taken = store.remove(c(-1, 3)).unwrap();
    assert_eq!(taken.chunk[5], BlockType::Grass);
    assert!(store.remove(c(-1, 3)).is_none());
    assert_eq!(sorted_keys(&store), vec![(i32::MAX, i32::MIN)]);
}

#[test]
fn manager_plans_loads_and_evictions() {
    let p = planet(3, 2);
    let mut store = ChunksInView::new();
    store.insert(c(0, 0), filled(c(0, 0), BlockType::Stone));
    store.insert(c(1, 1), filled(c(1, 1), BlockType::Dirt));
    // cells (-1,0) (0,0) (-1,1) (0,1), stored under (2,0) (0,0) (2,1) (0,1)
    let window = ViewWindow { x: -1, y: 0, w: 2, area: 4 };
    assert!(window.fits(p.size));
    let plan = chunks_in_view_manager(&window, &store, &p);
    assert_eq!(
        plan.loads,
        vec![
            ChunkLoad { key: c(2, 0), position: c(-1, 0) },
            ChunkLoad { key: c(2, 1), position: c(-1, 1) },
            ChunkLoad { key: c(0, 1), position: c(0, 1) },
        ]
    );
    assert_eq!(plan.evictions, vec![c(1, 1)]);

    let loaded = vec![[BlockType::Grass; CHUNKSIZE]; 3];
    let saved = apply_view_plan(&mut store, &plan, &loaded);
    assert_eq!(sorted_keys(&store), vec![(0, 0), (0, 1), (2, 0), (2, 1)]);
    assert_eq!(store.get(c(2, 0)).unwrap().position, c(-1, 0));
    assert_eq!(store.get(c(2, 1)).unwrap().chunk[0], BlockType::Grass);
    assert_eq!(store.get(c(0, 0)).unwrap().chunk[0], BlockType::Stone);
    assert_eq!(saved.len(), 1);
    assert_eq!(saved[0].position, c(1, 1));
    assert_eq!(saved[0].chunk[0], BlockType::Dirt);

    // a second step over the same window changes nothing
    let again = chunks_in_view_manager(&window, &store, &p);
    assert!(again.loads.is_empty());
    assert!(again.evictions.is_empty());
}

#[test]
fn manager_loads_a_wrapped_key_once() {
    let p = planet(4, 2);
    let store = ChunksInView::new();
    // one column: cells (1,0) (1,1) (1,2); (1,2) wraps onto (1,0)
    let window = ViewWindow { x: 1, y: 0, w: 1, area: 3 };
    let plan = chunks_in_view_manager(&window, &store, &p);
    assert_eq!(
        plan.loads,
        vec![
            ChunkLoad { key: c(1, 0), position: c(1, 0) },
            ChunkLoad { key: c(1, 1), position: c(1, 1) },
        ]
    );
    assert!(plan.evictions.is_empty());
}

#[test]
fn manager_with_negative_width_and_empty_window() {
    let p = planet(5, 5);
    let mut store = ChunksInView::new();
    store.insert(c(4, 4), filled(c(4, 4), BlockType::Air));
    // w = -2: cell i is (x + i % -2, y + i / -2) as Rust computes it
    let window = ViewWindow { x: 0, y: 0, w: -2, area: 3 };
    let plan = chunks_in_view_manager(&window, &store, &p);
    assert_eq!(
        plan.loads,
        vec![
            ChunkLoad { key: c(0, 0), position: c(0, 0) },
            ChunkLoad { key: c(1, 0), position: c(1, 0) },
            ChunkLoad { key: c(0, 4), position: c(0, -1) },
        ]
    );
    assert_eq!(plan.evictions, vec![c(4, 4)]);
    let empty = ViewWindow { x: 0, y: 0, w: 0, area: 0 };
    assert!(empty.fits(p.size));
    let plan = chunks_in_view_manager(&empty, &store, &p);
    assert!(plan.loads.is_empty());
    assert_eq!(plan.evictions, vec![c(4, 4)]);
}

#[test]
fn window_fit_checks() {
    let size = PlanetSize { x: 20, y: 20 };
    assert!(ViewWindow { x: -3, y: 10, w: 4, area: 24 }.fits(size));
    assert!(!ViewWindow { x: 0, y: 0, w: 0, area: 1 }.fits(size));
    assert!(!ViewWindow { x: i32::MAX, y: 0, w: 4, area: 2 }.fits(size));
    assert!(!ViewWindow { x: 0, y: 0, w: 4, area: 1 }.fits(PlanetSize { x: 0, y: 20 }));
    assert!(ViewWindow { x: i32::MAX - 1, y: 0, w: 2, area: 2 }.fits(size));
}

#[test]
fn saving_writes_every_loaded_chunk() {
    let p = planet(20, 20);
    let mut store = ChunksInView::new();
    store.insert(c(1, 2), filled(c(21, 2), BlockType::Dirt));
    store.insert(c(0, 0), filled(c(0, 0), BlockType::Stone));
    let writes = save_planet_from_manager(&store, &p);
    let mut files: Vec<(String, Vec<u8>)> = writes
        .into_iter()
        .map(|w| (String::from_utf8(w.path).unwrap(), w.contents))
        .collect();
    files.sort();
    assert_eq!(files.len(), 2);
    assert_eq!(files[0].0, "Planets/Terra/x0y0");
    assert_eq!(files[0].1, chunk_file_contents(&[BlockType::Stone; CHUNKSIZE]));
    assert_eq!(files[1].0, "Planets/Terra/x1y2");
    assert_eq!(files[1].1, chunk_file_contents(&[BlockType::Dirt; CHUNKSIZE]));
}
