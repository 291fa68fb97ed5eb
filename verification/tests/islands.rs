use pamly::convert::actions::crop::{ceil_log2, edges};
use pamly::convert::actions::remove_islands::{bounds, find_connected_subgraphs, get_size};
use pamly::convert::{crop, downscale, remove_islands, Config, LockFile};
use pamly::database::meta::get_entry;
use pamly::{Database, Error, Raster, SlideData, Tile};

fn solid_tile(pos: (u64, u64), level: u64, size: u64, c: (u8, u8, u8)) -> Tile {
    let mut tile = Tile::new(pos, level, size);
    tile.set_image(Raster::solid(size as u32, size as u32, c)).unwrap();
    tile
}

fn sorted(mut v: Vec<(u64, u64)>) -> Vec<(u64, u64)> {
    v.sort();
    v
}

fn config(island_size: u64, island_tiles: u64) -> Config {
    Config { tile_size: 4, edge_detect_size: 64, island_size, island_tiles }
}

#[test]
fn default_config() {
    let c = Config::default();
    assert_eq!(c.tile_size, 512);
    assert_eq!(c.edge_detect_size, 64);
    assert_eq!(c.island_size, 5);
    assert_eq!(c.island_tiles, 15);
}

#[test]
fn size_is_the_bounding_box() {
    assert_eq!(get_size(&vec![(3, 4)]), (1, 1));
    assert_eq!(get_size(&vec![(3, 4), (5, 4), (4, 9)]), (3, 6));
    assert_eq!(bounds(&vec![(3, 4), (5, 4), (4, 9)]), ((3, 4), (5, 9)));
    assert_eq!(get_size(&vec![(0, 0), (u64::MAX, 1)]), (u64::MAX, 2));
}

#[test]
fn components_of_an_empty_grid() {
    let mut lock = LockFile::lock("Init");
    let parts = find_connected_subgraphs(Vec::new(), &mut lock);
    assert_eq!(parts.len(), 0);
    assert_eq!(lock.state, "Island removal");
    assert_eq!(lock.total, 0);
}

#[test]
fn components_follow_four_neighbours_only() {
    let graph = vec![(0, 0), (1, 1), (1, 0), (5, 5), (5, 6), (7, 7), (6, 6)];
    let mut lock = LockFile::lock("Init");
    let parts = find_connected_subgraphs(graph, &mut lock);
    let mut parts: Vec<Vec<(u64, u64)>> = parts.into_iter().map(sorted).collect();
    parts.sort();
    assert_eq!(
        parts,
        vec![vec![(0, 0), (1, 0), (1, 1)], vec![(5, 5), (5, 6), (6, 6)], vec![(7, 7)]]
    );
    assert_eq!(lock.total, 7);
    assert_eq!(lock.current, 7);
}

#[test]
fn components_at_the_edge_of_the_number_range() {
    let graph = vec![(u64::MAX, u64::MAX), (u64::MAX - 1, u64::MAX), (0, 0)];
    let mut lock = LockFile::lock("Init");
    let parts = find_connected_subgraphs(graph, &mut lock);
    assert_eq!(parts.len(), 2);
}

#[test]
fn isolated_tile_is_removed_and_cluster_kept() {
    let mut db = Database::create(SlideData::new(4, 4, 32, 32, 1, 1));
    db.write(&solid_tile((0, 0), 3, 4, (1, 1, 1))).unwrap();
    let mut cluster = Vec::new();
    for x in 3..8u64 {
        for y in 3..8u64 {
            cluster.push((x, y));
            db.write(&solid_tile((x, y), 3, 4, (1, 1, 1))).unwrap();
        }
    }
    db.write(&solid_tile((0, 0), 2, 4, (1, 1, 1))).unwrap();
    let mut lock = LockFile::lock("Init");
    assert_eq!(remove_islands(&mut db, &config(5, 1), &mut lock), Ok(()));
    assert_eq!(sorted(db.list_tiles(3)), sorted(cluster));
    assert_eq!(db.list_tiles(2), vec![(0, 0)]);
}

#[test]
fn island_needs_few_tiles_and_a_small_side() {
    let mut db = Database::create(SlideData::new(4, 4, 32, 32, 1, 1));
    for x in 0..6u64 {
        db.write(&solid_tile((x, 0), 3, 4, (1, 1, 1))).unwrap();
    }
    db.write(&solid_tile((0, 5), 3, 4, (1, 1, 1))).unwrap();
    db.write(&solid_tile((1, 5), 3, 4, (1, 1, 1))).unwrap();
    let mut lock = LockFile::lock("Init");
    assert_eq!(remove_islands(&mut db, &config(5, 5), &mut lock), Ok(()));
    assert_eq!(sorted(db.list_tiles(3)), vec![(0, 0), (1, 0), (2, 0), (3, 0), (4, 0), (5, 0)]);
    let mut lock = LockFile::lock("Init");
    assert_eq!(remove_islands(&mut db, &config(1, 6), &mut lock), Ok(()));
    assert_eq!(db.list_tiles(3).len(), 6);
    let mut lock = LockFile::lock("Init");
    assert_eq!(remove_islands(&mut db, &config(2, 6), &mut lock), Ok(()));
    assert_eq!(db.list_tiles(3).len(), 0);
}

#[test]
fn pruning_an_empty_level_is_no_error() {
    let mut db = Database::create(SlideData::new(4, 2, 8, 8, 1, 1));
    let mut lock = LockFile::lock("Init");
    assert_eq!(remove_islands(&mut db, &config(5, 15), &mut lock), Ok(()));
    assert_eq!(db.rows.len(), 0);
}

#[test]
fn pruning_a_read_only_store() {
    let mut meta: Vec<(String, String)> = Vec::new();
    SlideData::new(4, 2, 8, 8, 1, 1).write_to(&mut meta);
    let mut source = Database::create(SlideData::new(4, 2, 8, 8, 1, 1));
    source.write(&solid_tile((1, 1), 1, 4, (9, 9, 9))).unwrap();
    let mut db = Database::open_readonly(source.rows, meta).unwrap();
    let mut lock = LockFile::lock("Init");
    assert_eq!(remove_islands(&mut db, &config(5, 15), &mut lock), Err(Error::ReadOnly));
    assert_eq!(db.list_tiles(1), vec![(1, 1)]);
    let mut lock = LockFile::lock("Init");
    assert_eq!(remove_islands(&mut db, &config(1, 15), &mut lock), Ok(()));
}

#[test]
fn ceil_log2_values() {
    assert_eq!(ceil_log2(1), 0);
    assert_eq!(ceil_log2(2), 1);
    assert_eq!(ceil_log2(3), 2);
    assert_eq!(ceil_log2(4), 2);
    assert_eq!(ceil_log2(5), 3);
    assert_eq!(ceil_log2(1024), 10);
    assert_eq!(ceil_log2(1025), 11);
    assert_eq!(ceil_log2(1u128 << 64), 64);
}

#[test]
fn edges_of_the_finest_level() {
    let mut db = Database::create(SlideData::new(4, 4, 32, 32, 1, 1));
    assert_eq!(edges(&db), Err(Error::NoTiles));
    db.write(&solid_tile((2, 5), 3, 4, (1, 1, 1))).unwrap();
    db.write(&solid_tile((4, 3), 3, 4, (1, 1, 1))).unwrap();
    db.write(&solid_tile((0, 0), 2, 4, (1, 1, 1))).unwrap();
    assert_eq!(edges(&db), Ok((2, 4, 3, 5)));
}

#[test]
fn crop_moves_the_occupied_part_to_the_origin() {
    let mut db = Database::create(SlideData::new(4, 5, 64, 64, 7, 9));
    for (x, y) in [(5u64, 9u64), (6, 9), (7, 9), (5, 10), (9, 11)] {
        db.write(&solid_tile((x, y), 4, 4, (1, 1, 1))).unwrap();
    }
    assert_eq!(crop(&mut db), Ok(()));
    assert_eq!(db.levels(), 4);
    assert_eq!(db.width(), 20);
    assert_eq!(db.height(), 12);
    assert_eq!(db.tile_size(), 4);
    assert_eq!(db.data.x_ppm, 7);
    assert_eq!(db.data.y_ppm, 9);
    assert_eq!(sorted(db.list_tiles(3)), vec![(0, 0), (0, 1), (1, 0), (2, 0), (4, 2)]);
    assert_eq!(db.list_tiles(4).len(), 0);
    let positions = db.list_tiles(3);
    assert_eq!(positions.iter().map(|p| p.0).min(), Some(0));
    assert_eq!(positions.iter().map(|p| p.1).min(), Some(0));
    let meta = db.read_metadata();
    assert_eq!(get_entry(&meta, "levels"), Some(&"4".to_string()));
    assert_eq!(get_entry(&meta, "width"), Some(&"20".to_string()));
    assert_eq!(get_entry(&meta, "height"), Some(&"12".to_string()));
    assert_eq!(get_entry(&meta, "tile_size"), Some(&"4".to_string()));
}

#[test]
fn crop_of_a_single_tile() {
    let mut db = Database::create(SlideData::new(4, 3, 16, 16, 1, 1));
    db.write(&solid_tile((3, 1), 2, 4, (1, 1, 1))).unwrap();
    db.write(&solid_tile((0, 0), 0, 4, (1, 1, 1))).unwrap();
    assert_eq!(crop(&mut db), Ok(()));
    assert_eq!(db.levels(), 1);
    assert_eq!((db.width(), db.height()), (4, 4));
    assert_eq!(db.list_tiles(0), vec![(0, 0)]);
    assert_eq!(db.rows.len(), 1);
}

#[test]
fn crop_of_an_empty_level_changes_nothing() {
    let mut db = Database::create(SlideData::new(4, 3, 16, 16, 1, 1));
    db.write(&solid_tile((0, 0), 1, 4, (1, 1, 1))).unwrap();
    assert_eq!(crop(&mut db), Ok(()));
    assert_eq!(db.levels(), 3);
    assert_eq!((db.width(), db.height()), (16, 16));
    assert_eq!(db.list_tiles(1), vec![(0, 0)]);
}

#[test]
fn crop_errors() {
    let mut meta: Vec<(String, String)> = Vec::new();
    SlideData::new(4, 2, 8, 8, 1, 1).write_to(&mut meta);
    let mut source = Database::create(SlideData::new(4, 2, 8, 8, 1, 1));
    source.write(&solid_tile((1, 1), 1, 4, (9, 9, 9))).unwrap();
    let mut db = Database::open_readonly(source.rows, meta).unwrap();
    assert_eq!(crop(&mut db), Err(Error::ReadOnly));
    assert_eq!(db.list_tiles(1), vec![(1, 1)]);
    let mut big = Database::create(SlideData::new(1 << 40, 2, 8, 8, 1, 1));
    big.rows.push(pamly::database::database::TileRow { x: 0, y: 0, level: 1, jpeg: vec![] });
    big.rows.push(pamly::database::database::TileRow { x: 1 << 30, y: 0, level: 1, jpeg: vec![] });
    assert_eq!(crop(&mut big), Err(Error::RegionTooLarge));
    assert_eq!(big.levels(), 2);
}

#[test]
fn prune_crop_and_build() {
    let size = 4;
    let mut db = Database::create(SlideData::new(size, 3, 12, 12, 1, 1));
    for (x, y) in [(0u64, 0u64), (1, 0), (0, 1), (1, 1)] {
        db.write(&solid_tile((x, y), 2, size, (50, 100, 150))).unwrap();
    }
    db.write(&solid_tile((2, 2), 2, size, (0, 0, 0))).unwrap();
    let mut lock = LockFile::lock("Init");
    assert_eq!(remove_islands(&mut db, &config(5, 1), &mut lock), Ok(()));
    assert_eq!(sorted(db.list_tiles(2)), vec![(0, 0), (0, 1), (1, 0), (1, 1)]);
    assert_eq!(crop(&mut db), Ok(()));
    assert_eq!(db.levels(), 2);
    assert_eq!(db.width(), 8);
    assert_eq!(db.height(), 8);
    assert_eq!(downscale(&mut db, &mut lock), Ok(()));
    let root = db.read((0, 0), 0).unwrap();
    assert!(!root.is_empty());
    let c = root.image().unwrap().get(1, 1);
    assert!((c.0 as i32 - 50).abs() <= 4);
    assert!((c.1 as i32 - 100).abs() <= 4);
    assert!((c.2 as i32 - 150).abs() <= 4);
    assert_eq!(db.rows.len(), 5);
}
