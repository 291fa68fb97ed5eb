use pamly::convert::actions::downscale::{combine_into, compute_tile, downscale, node_count};
use pamly::convert::LockFile;
use pamly::{Database, Error, Raster, SlideData, Tile};

fn solid_tile(pos: (u64, u64), level: u64, size: u64, c: (u8, u8, u8)) -> Tile {
    let mut tile = Tile::new(pos, level, size);
    tile.set_image(Raster::solid(size as u32, size as u32, c)).unwrap();
    tile
}

fn mean(img: &Raster) -> (f64, f64, f64) {
    let mut sum = (0f64, 0f64, 0f64);
    for y in 0..img.height() {
        for x in 0..img.width() {
            let (r, g, b) = img.get(x, y);
            sum = (sum.0 + r as f64, sum.1 + g as f64, sum.2 + b as f64);
        }
    }
    let n = (img.width() * img.height()) as f64;
    (sum.0 / n, sum.1 / n, sum.2 / n)
}

fn keys(db: &Database) -> Vec<(u64, u64, u64, Vec<u8>)> {
    let mut out: Vec<(u64, u64, u64, Vec<u8>)> =
        db.rows.iter().map(|r| (r.level, r.x, r.y, r.jpeg.clone())).collect();
    out.sort();
    out
}

#[test]
fn node_count_is_the_size_of_a_full_pyramid() {
    assert_eq!(node_count(0), 0);
    assert_eq!(node_count(1), 1);
    assert_eq!(node_count(2), 5);
    assert_eq!(node_count(3), 21);
    assert_eq!(node_count(10), 349525);
    assert_eq!(node_count(32), u64::MAX / 3);
}

#[test]
fn combine_averages_four_solid_children() {
    let size = 8;
    let colours = [(100u8, 50u8, 60u8), (140, 90, 100), (60, 130, 80), (180, 170, 200)];
    let children = vec![
        solid_tile((0, 0), 1, size, colours[0]),
        solid_tile((1, 0), 1, size, colours[1]),
        solid_tile((0, 1), 1, size, colours[2]),
        solid_tile((1, 1), 1, size, colours[3]),
    ];
    let mut tile = Tile::new((0, 0), 0, size);
    combine_into(&mut tile, &children);
    let img = tile.image().unwrap();
    assert_eq!(img.width(), 8);
    assert_eq!(img.height(), 8);
    let m = mean(img);
    assert!((m.0 - 120.0).abs() < 3.0);
    assert!((m.1 - 110.0).abs() < 3.0);
    assert!((m.2 - 110.0).abs() < 3.0);
    let corner = img.get(0, 0);
    assert!((corner.0 as i32 - 100).abs() <= 3);
    let far = img.get(7, 7);
    assert!((far.2 as i32 - 200).abs() <= 3);
    let right = img.get(7, 0);
    assert!((right.1 as i32 - 90).abs() <= 3);
    let lower = img.get(0, 7);
    assert!((lower.1 as i32 - 130).abs() <= 3);
}

#[test]
fn combine_paints_missing_children_white() {
    let size = 8;
    let children = vec![
        solid_tile((0, 0), 1, size, (0, 0, 0)),
        Tile::new((1, 0), 1, size),
        Tile::new((0, 1), 1, size),
        Tile::new((1, 1), 1, size),
    ];
    let mut tile = Tile::new((0, 0), 0, size);
    combine_into(&mut tile, &children);
    let img = tile.image().unwrap();
    assert!(img.get(0, 0).0 < 10);
    assert!(img.get(7, 7).0 > 245);
    assert!(img.get(7, 0).1 > 245);
    assert!(img.get(0, 7).2 > 245);
}

#[test]
fn combine_of_four_empty_children_is_empty() {
    let children = vec![
        Tile::new((0, 0), 1, 4),
        Tile::new((1, 0), 1, 4),
        Tile::new((0, 1), 1, 4),
        Tile::new((1, 1), 1, 4),
    ];
    let mut tile = Tile::new((0, 0), 0, 4);
    combine_into(&mut tile, &children);
    assert!(tile.is_empty());
}

#[test]
fn build_of_an_empty_store_stores_nothing() {
    let mut db = Database::create(SlideData::new(4, 3, 16, 16, 1, 1));
    let mut lock = LockFile::lock("Init");
    assert_eq!(downscale(&mut db, &mut lock), Ok(()));
    assert_eq!(db.rows.len(), 0);
    assert_eq!(lock.total, 21);
    assert_eq!(lock.current, 21);
    assert_eq!(lock.state, "Downscaling");
}

#[test]
fn build_makes_every_tile_above_an_occupied_one() {
    let mut db = Database::create(SlideData::new(4, 3, 16, 16, 1, 1));
    db.write(&solid_tile((3, 2), 2, 4, (0, 0, 0))).unwrap();
    let mut lock = LockFile::lock("Init");
    assert_eq!(downscale(&mut db, &mut lock), Ok(()));
    assert_eq!(db.list_tiles(2), vec![(3, 2)]);
    assert_eq!(db.list_tiles(1), vec![(1, 1)]);
    assert_eq!(db.list_tiles(0), vec![(0, 0)]);
    let root = db.read((0, 0), 0).unwrap();
    let img = root.image().unwrap();
    assert_eq!((img.width(), img.height()), (4, 4));
    assert!(img.get(0, 0).0 > 240);
    assert!(img.get(3, 2).0 < 200);
}

#[test]
fn build_twice_stores_the_same_tiles() {
    let mut db = Database::create(SlideData::new(4, 3, 16, 16, 1, 1));
    db.write(&solid_tile((0, 0), 2, 4, (200, 10, 10))).unwrap();
    db.write(&solid_tile((1, 0), 2, 4, (10, 200, 10))).unwrap();
    db.write(&solid_tile((3, 3), 2, 4, (10, 10, 200))).unwrap();
    let mut lock = LockFile::lock("Init");
    assert_eq!(downscale(&mut db, &mut lock), Ok(()));
    let first = keys(&db);
    assert_eq!(first.len(), 3 + 2 + 1);
    let mut again = LockFile::lock("Init");
    assert_eq!(downscale(&mut db, &mut again), Ok(()));
    assert_eq!(keys(&db), first);
    assert_eq!(again.current, again.total);
}

#[test]
fn cached_tile_ends_the_descent() {
    let mut db = Database::create(SlideData::new(4, 3, 16, 16, 1, 1));
    db.write(&solid_tile((0, 0), 0, 4, (1, 2, 3))).unwrap();
    db.write(&solid_tile((0, 0), 2, 4, (200, 10, 10))).unwrap();
    let mut lock = LockFile::lock("Init");
    lock.start(21);
    let mut root = Tile::new((0, 0), 0, 4);
    assert_eq!(compute_tile(&mut db, &mut root, &mut lock), Ok(()));
    assert!(!root.is_empty());
    assert_eq!(lock.current, 1);
    assert_eq!(db.list_tiles(1), Vec::<(u64, u64)>::new());
}

#[test]
fn missing_finest_tile_is_not_made() {
    let mut db = Database::create(SlideData::new(4, 1, 4, 4, 1, 1));
    let mut lock = LockFile::lock("Init");
    let mut root = Tile::new((0, 0), 0, 4);
    assert_eq!(compute_tile(&mut db, &mut root, &mut lock), Ok(()));
    assert!(root.is_empty());
    assert_eq!(db.rows.len(), 0);
}

#[test]
fn build_on_a_read_only_store_fails_where_it_must_write() {
    let mut meta: Vec<(String, String)> = Vec::new();
    SlideData::new(4, 2, 8, 8, 1, 1).write_to(&mut meta);
    let mut source = Database::create(SlideData::new(4, 2, 8, 8, 1, 1));
    source.write(&solid_tile((1, 1), 1, 4, (9, 9, 9))).unwrap();
    let mut db = Database::open_readonly(source.rows, meta).unwrap();
    let mut lock = LockFile::lock("Init");
    assert_eq!(downscale(&mut db, &mut lock), Err(Error::ReadOnly));
    assert_eq!(db.rows.len(), 1);
}
