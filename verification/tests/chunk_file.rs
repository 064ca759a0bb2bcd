use torus::chunk::generation_in_range;
use torus::block::BlockType;
use torus::chunk::{
    chunk_file_contents, chunk_path, count_chunk_tokens, generate_chunk, parse_chunk_text,
    readchunkfile, terrain_roll, terrain_seed_value, writechunkfile, ChunkSource,
    ChunkWithOtherInfo, CHUNKSIZE, TERRAIN_SEED,
};
use torus::world::{Coord, Planet, PlanetSize};

fn planet(name: &str, x: u32, y: u32) -> Planet {
    Planet { name: name.to_string(), size: PlanetSize { x, y } }
}

fn sample_chunk() -> [BlockType; CHUNKSIZE] {
    let mut chunk = [BlockType::Air; CHUNKSIZE];
    for i in 0..CHUNKSIZE {
        chunk[i] = match i % 5 {
            0 => BlockType::Air,
            1 => BlockType::Stone,
            2 => BlockType::Dirt,
            3 => BlockType::Grass,
            _ => BlockType::Marvin,
        };
    }
    chunk
}

#[test]
fn contents_join_block_names_with_plus() {
    let mut chunk = [BlockType::Air; CHUNKSIZE];
    chunk[0] = BlockType::Dirt;
    chunk[1] = BlockType::Marvin;
    chunk[1023] = BlockType::Grass;
    let text = String::from_utf8(chunk_file_contents(&chunk)).unwrap();
    assert!(text.starts_with("Dirt+Marvin+Air+Air+"));
    assert!(text.ends_with("+Air+Grass"));
    assert_eq!(text.split('+').count(), 1024);
    assert_eq!(text.matches("Air").count(), 1021);
}

#[test]
fn all_air_chunk_text() {
    let chunk = [BlockType::Air; CHUNKSIZE];
    let expected = vec!["Air"; 1024].join("+");
    assert_eq!(chunk_file_contents(&chunk), expected.into_bytes());
}

#[test]
fn count_tokens_follows_split() {
    assert_eq!(count_chunk_tokens(b""), 1);
    assert_eq!(count_chunk_tokens(b"Air"), 1);
    assert_eq!(count_chunk_tokens(b"Air+Dirt"), 2);
    assert_eq!(count_chunk_tokens(b"+"), 2);
    assert_eq!(count_chunk_tokens(b"Air++"), 3);
}

#[test]
fn saved_chunk_reads_back_with_marvin_as_air() {
    let chunk = sample_chunk();
    let text = chunk_file_contents(&chunk);
    assert_eq!(count_chunk_tokens(&text), CHUNKSIZE);
    let parsed = parse_chunk_text(&text);
    for i in 0..CHUNKSIZE {
        let expected = if chunk[i] == BlockType::Marvin { BlockType::Air } else { chunk[i] };
        assert_eq!(parsed.blocks[i], expected);
    }
    let marvins: Vec<usize> = (0..CHUNKSIZE).filter(|i| i % 5 == 4).collect();
    assert_eq!(parsed.unreadable, marvins);
}

#[test]
fn unknown_names_read_as_air() {
    let mut names = vec!["Stone"; 1024];
    names[5] = "Foo";
    names[7] = "";
    names[9] = "Dirt";
    names[11] = "air";
    let text = names.join("+");
    let parsed = parse_chunk_text(text.as_bytes());
    assert_eq!(parsed.blocks[5], BlockType::Air);
    assert_eq!(parsed.blocks[7], BlockType::Air);
    assert_eq!(parsed.blocks[9], BlockType::Dirt);
    assert_eq!(parsed.blocks[11], BlockType::Air);
    assert_eq!(parsed.blocks[0], BlockType::Stone);
    assert_eq!(parsed.unreadable, vec![5, 7, 11]);
}

#[test]
fn chunk_paths_name_planet_and_position() {
    let terra = planet("Terra", 20, 20);
    let path = chunk_path(&terra, Coord { x: 3, y: -12 });
    assert_eq!(String::from_utf8(path).unwrap(), "Planets/Terra/x3y-12");
    let path = chunk_path(&terra, Coord { x: 0, y: 1000 });
    assert_eq!(String::from_utf8(path).unwrap(), "Planets/Terra/x0y1000");
    let path = chunk_path(&terra, Coord { x: i32::MIN, y: i32::MAX });
    assert_eq!(String::from_utf8(path).unwrap(), "Planets/Terra/x-2147483648y2147483647");
    let accents = planet("Planète", 1, 1);
    let path = chunk_path(&accents, Coord { x: -7, y: 0 });
    assert_eq!(String::from_utf8(path).unwrap(), "Planets/Planète/x-7y0");
}

#[test]
fn writechunkfile_gives_path_and_contents() {
    let me = planet("PlanetMe", 20, 10);
    let chunk = sample_chunk();
    let info = ChunkWithOtherInfo { position: Coord { x: 4, y: 2 }, chunk };
    let write = writechunkfile(&info, &me);
    assert_eq!(String::from_utf8(write.path).unwrap(), "Planets/PlanetMe/x4y2");
    assert_eq!(write.contents, chunk_file_contents(&chunk));
}

#[test]
fn generated_floor_and_gaps() {
    let terra = planet("Terra", 20, 20);
    let crust = [140; 32];
    let chunk = generate_chunk(Coord { x: 0, y: 0 }, &terra, &crust);
    for x in 0..32 {
        assert_eq!(chunk[x], BlockType::Stone, "row 0 is the stone floor");
    }
    assert_eq!(chunk[32 + 10], BlockType::Air);
    assert_eq!(chunk[32 + 11], BlockType::Air);
    assert_eq!(chunk[32 + 12], BlockType::Air);
    let chunk = generate_chunk(Coord { x: 1, y: 3 }, &terra, &crust);
    // planet rows 96..128: rows 99 and 100 are the air gap, rows below the crust are air
    assert_eq!(chunk[3 * 32], BlockType::Air);
    assert_eq!(chunk[4 * 32 + 5], BlockType::Air);
}

#[test]
fn generated_rock_follows_crust() {
    let terra = planet("Terra", 20, 20);
    let mut crust = [150; 32];
    crust[3] = 140;
    // chunk (1, 4) holds planet rows 128..160 and columns 32..64
    let chunk = generate_chunk(Coord { x: 1, y: 4 }, &terra, &crust);
    let row_of = |py: usize| (py - 128) * 32;
    assert_eq!(chunk[row_of(139) + 3], BlockType::Air);
    assert_eq!(chunk[row_of(140) + 3], BlockType::Stone);
    assert_eq!(chunk[row_of(140) + 4], BlockType::Air);
    assert_eq!(chunk[row_of(149) + 4], BlockType::Air);
    assert_eq!(chunk[row_of(150) + 4], BlockType::Stone);
}

#[test]
fn generated_top_seam_and_shaft() {
    let terra = planet("Terra", 20, 20);
    let crust = [140; 32];
    // top row is 20 * 32 - 33 = 607, in chunk y 18 at local row 31
    let chunk = generate_chunk(Coord { x: 0, y: 18 }, &terra, &crust);
    assert_eq!(chunk[31 * 32 + 5], BlockType::Grass);
    assert_eq!(chunk[31 * 32 + 10], BlockType::Air);
    assert_eq!(chunk[30 * 32 + 5], BlockType::Stone);
    // seam columns 607, 608 are stone and 609 is air: chunk x 18 and 19
    let chunk = generate_chunk(Coord { x: 18, y: 2 }, &terra, &crust);
    assert_eq!(chunk[5 * 32 + 31], BlockType::Stone);
    let chunk = generate_chunk(Coord { x: 19, y: 2 }, &terra, &crust);
    assert_eq!(chunk[5 * 32], BlockType::Stone);
    assert_eq!(chunk[5 * 32 + 1], BlockType::Air);
    // above the top row everything is air
    let chunk = generate_chunk(Coord { x: 0, y: 19 }, &terra, &crust);
    assert!(chunk.iter().all(|b| *b == BlockType::Air));
}

#[test]
fn readchunkfile_from_each_source() {
    let terra = planet("Terra", 20, 20);
    let position = Coord { x: 2, y: 5 };
    let chunk = sample_chunk();
    let saved = ChunkSource::Saved(chunk_file_contents(&chunk));
    let read = readchunkfile(position, &terra, &saved);
    assert_eq!(read.info.position, position);
    assert_eq!(read.info.chunk[1], BlockType::Stone);
    assert_eq!(read.info.chunk[4], BlockType::Air);
    assert_eq!(read.unreadable.len(), 1024 / 5);

    let crust = [140; 32];
    let read = readchunkfile(Coord { x: 0, y: 0 }, &terra, &ChunkSource::Missing(crust));
    assert_eq!(read.info.chunk, generate_chunk(Coord { x: 0, y: 0 }, &terra, &crust));
    assert!(read.unreadable.is_empty());

    let read = readchunkfile(position, &terra, &ChunkSource::Unreadable);
    assert!(read.info.chunk.iter().all(|b| *b == BlockType::Air));
    assert_eq!(read.info.position, position);
}

#[test]
fn terrain_seed_and_roll() {
    assert_eq!(terrain_seed_value(TERRAIN_SEED, Coord { x: 1, y: 2 }), 9);
    assert_eq!(terrain_seed_value(0, Coord { x: -5, y: 0 }), u64::MAX - 4);
    let a = terrain_roll(TERRAIN_SEED, Coord { x: 3, y: 4 });
    let b = terrain_roll(TERRAIN_SEED, Coord { x: 3, y: 4 });
    assert!((0..100).contains(&a));
    assert_eq!(a, b);
    for x in -20..20 {
        let r = terrain_roll(TERRAIN_SEED, Coord { x, y: 7 });
        assert!((0..100).contains(&r));
    }
}

#[test]
fn positions_get_distinct_files() {
    let terra = planet("Terra", 20, 20);
    let a = chunk_path(&terra, Coord { x: 1, y: 23 });
    let b = chunk_path(&terra, Coord { x: 12, y: 3 });
    let c = chunk_path(&terra, Coord { x: -1, y: 23 });
    assert_ne!(a, b);
    assert_ne!(a, c);
    assert_eq!(String::from_utf8(b).unwrap(), "Planets/Terra/x12y3");
}

#[test]
fn generation_range_checks() {
    assert!(generation_in_range(Coord { x: 0, y: 0 }, PlanetSize { x: 20, y: 20 }));
    assert!(generation_in_range(Coord { x: -67108864, y: 67108863 }, PlanetSize { x: 20, y: 20 }));
    assert!(!generation_in_range(Coord { x: 67108864, y: 0 }, PlanetSize { x: 20, y: 20 }));
    assert!(!generation_in_range(Coord { x: 0, y: 0 }, PlanetSize { x: 134217728, y: 20 }));
    // 2^26 * 32 reads as i32::MIN, and subtracting 33 from it overflows
    assert!(!generation_in_range(Coord { x: 0, y: 0 }, PlanetSize { x: 67108864, y: 20 }));
    assert!(generation_in_range(Coord { x: 0, y: 0 }, PlanetSize { x: 67108863, y: 20 }));
}
