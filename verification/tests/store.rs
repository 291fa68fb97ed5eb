use pamly::database::database::TileRow;
use pamly::database::meta::{get_entry, set_entry};
use pamly::{Database, Error, Patch, Raster, SlideData, Tile};

fn solid_tile(pos: (u64, u64), level: u64, size: u64, c: (u8, u8, u8)) -> Tile {
    let mut tile = Tile::new(pos, level, size);
    tile.set_image(Raster::solid(size as u32, size as u32, c)).unwrap();
    tile
}

fn store(levels: u64, tile_size: u64) -> Database {
    let side = tile_size << (levels - 1);
    Database::create(SlideData::new(tile_size, levels, side, side, 1000, 1000))
}

#[test]
fn raster_from_raw_checks_length() {
    assert!(Raster::from_raw(2, 2, vec![0; 12]).is_some());
    assert!(Raster::from_raw(2, 2, vec![0; 11]).is_none());
    assert!(Raster::from_raw(2, 2, vec![0; 13]).is_none());
    assert!(Raster::from_raw(0, 5, vec![]).is_some());
    let r = Raster::from_raw(2, 1, vec![1, 2, 3, 4, 5, 6]).unwrap();
    assert_eq!(r.width(), 2);
    assert_eq!(r.height(), 1);
    assert_eq!(r.get(0, 0), (1, 2, 3));
    assert_eq!(r.get(1, 0), (4, 5, 6));
}

#[test]
fn solid_raster_has_one_colour() {
    let r = Raster::solid(3, 2, (9, 8, 7));
    assert_eq!(r.data.len(), 18);
    for y in 0..2 {
        for x in 0..3 {
            assert_eq!(r.get(x, y), (9, 8, 7));
        }
    }
}

#[test]
fn set_image_checks_size() {
    let mut tile = Tile::new((0, 0), 0, 4);
    assert_eq!(tile.set_image(Raster::solid(4, 3, (0, 0, 0))), Err(Error::InvalidImageSize));
    assert!(tile.is_empty());
    assert_eq!(tile.set_image(Raster::solid(4, 4, (0, 0, 0))), Ok(()));
    assert!(!tile.is_empty());
}

#[test]
fn empty_tile_and_patch_have_no_image() {
    let tile = Tile::new((0, 0), 0, 4);
    assert_eq!(tile.image().err(), Some(Error::EmptyTile));
    assert_eq!(tile.data().err(), Some(Error::EmptyTile));
    let mut patch = Patch::new((3, 4), 2);
    assert!(patch.is_empty());
    assert_eq!(patch.image().err(), Some(Error::EmptyPatch));
    assert_eq!(patch.size().err(), Some(Error::EmptyPatch));
    assert_eq!(patch.level(), 2);
    assert_eq!(patch.coords(), (3, 4));
    patch.set_image(Raster::solid(5, 3, (1, 1, 1)));
    assert_eq!(patch.size(), Ok((5, 3)));
}

#[test]
fn tile_data_is_a_jpeg_file_that_decodes_to_the_tile() {
    let tile = solid_tile((0, 0), 0, 8, (128, 128, 128));
    let bytes = tile.data().unwrap();
    assert!(bytes.len() > 4);
    assert_eq!(&bytes[0..2], &[0xFF, 0xD8]);
    let mut back = Tile::new((0, 0), 0, 8);
    assert_eq!(back.set_data(bytes.clone()), Ok(()));
    let img = back.image().unwrap();
    assert_eq!(img.width(), 8);
    assert_eq!(img.height(), 8);
    assert_eq!(img.get(3, 5), (128, 128, 128));
    let mut other = Tile::new((0, 0), 0, 4);
    assert_eq!(other.set_data(bytes), Err(Error::InvalidImageSize));
    assert!(other.is_empty());
}

#[test]
fn undecodable_bytes_are_an_error() {
    let mut tile = Tile::new((0, 0), 0, 4);
    assert_eq!(tile.set_data(vec![1, 2, 3, 4, 5]), Err(Error::Decode));
    assert!(tile.is_empty());
}

#[test]
fn read_of_absent_tile_is_empty() {
    let db = store(2, 4);
    let tile = db.read((1, 1), 1).unwrap();
    assert!(tile.is_empty());
    assert_eq!(tile.pos(), (1, 1));
    assert_eq!(tile.level(), 1);
    assert_eq!(tile.size(), 4);
}

#[test]
fn write_then_read_and_delete() {
    let mut db = store(2, 4);
    assert!(db.is_writeable());
    assert_eq!(db.check_writeable(), Ok(()));
    assert_eq!(db.write(&solid_tile((1, 0), 1, 4, (255, 255, 255))), Ok(()));
    assert_eq!(db.write(&Tile::new((0, 0), 1, 4)), Ok(()));
    assert_eq!(db.list_tiles(1), vec![(1, 0)]);
    assert_eq!(db.list_tiles(0), Vec::<(u64, u64)>::new());
    let tile = db.read((1, 0), 1).unwrap();
    assert!(!tile.is_empty());
    assert_eq!(tile.image().unwrap().get(2, 2), (255, 255, 255));
    assert_eq!(db.write(&solid_tile((1, 0), 1, 4, (0, 0, 0))), Ok(()));
    assert_eq!(db.list_tiles(1), vec![(1, 0)]);
    assert_eq!(db.read((1, 0), 1).unwrap().image().unwrap().get(2, 2), (0, 0, 0));
    assert_eq!(db.delete((1, 0), 1), Ok(()));
    assert_eq!(db.delete((1, 0), 1), Ok(()));
    assert!(db.read((1, 0), 1).unwrap().is_empty());
    assert_eq!(db.list_tiles(1), Vec::<(u64, u64)>::new());
}

#[test]
fn read_many_gives_the_tiles_of_the_range() {
    let mut db = store(3, 4);
    for (x, y) in [(0u64, 0u64), (1, 0), (2, 2), (3, 3), (1, 2)] {
        db.write(&solid_tile((x, y), 2, 4, (10, 20, 30))).unwrap();
    }
    db.write(&solid_tile((1, 1), 1, 4, (10, 20, 30))).unwrap();
    let tiles = db.read_many((1, 0), (3, 3), 2).unwrap();
    let mut positions: Vec<(u64, u64)> = tiles.iter().map(|t| t.pos()).collect();
    positions.sort();
    assert_eq!(positions, vec![(1, 0), (1, 2), (2, 2)]);
    assert!(tiles.iter().all(|t| !t.is_empty() && t.level() == 2));
    assert_eq!(db.read_many((0, 0), (0, 4), 2).unwrap().len(), 0);
}

#[test]
fn read_only_store_refuses_changes() {
    let mut meta: Vec<(String, String)> = Vec::new();
    SlideData::new(4, 2, 8, 8, 1, 1).write_to(&mut meta);
    let mut db = Database::open_readonly(Vec::new(), meta.clone()).unwrap();
    assert!(!db.is_writeable());
    assert_eq!(db.check_writeable(), Err(Error::ReadOnly));
    assert_eq!(db.write(&solid_tile((0, 0), 1, 4, (1, 2, 3))), Err(Error::ReadOnly));
    assert_eq!(db.write(&Tile::new((0, 0), 1, 4)), Ok(()));
    assert_eq!(db.delete((0, 0), 1), Err(Error::ReadOnly));
    assert_eq!(db.set_meta("a", "b"), Err(Error::ReadOnly));
    assert_eq!(db.write_metadata(&vec![("a".to_string(), "b".to_string())]), Err(Error::ReadOnly));
    assert_eq!(db.write_metadata(&Vec::new()), Ok(()));
    let db2 = Database::open(Vec::new(), meta).unwrap();
    assert!(!db2.is_writeable());
}

#[test]
fn metadata_round_trip() {
    let data = SlideData::new(512, 7, 30000, 20000, 4000000, 4000001);
    let mut meta: Vec<(String, String)> = Vec::new();
    data.write_to(&mut meta);
    assert_eq!(meta.len(), 6);
    assert_eq!(get_entry(&meta, "tile_size"), Some(&"512".to_string()));
    assert_eq!(get_entry(&meta, "y_ppm"), Some(&"4000001".to_string()));
    assert_eq!(SlideData::from(&meta), Ok(data));
    let db = Database::open_readwrite(Vec::new(), meta.clone()).unwrap();
    assert!(db.is_writeable());
    assert_eq!(db.tile_size(), 512);
    assert_eq!(db.levels(), 7);
    assert_eq!(db.width(), 30000);
    assert_eq!(db.height(), 20000);
    assert_eq!(db.read_metadata(), meta);
}

#[test]
fn missing_or_malformed_metadata() {
    let mut meta: Vec<(String, String)> = Vec::new();
    SlideData::new(512, 7, 30000, 20000, 1, 1).write_to(&mut meta);
    let mut broken = meta.clone();
    broken.remove(2);
    assert_eq!(SlideData::from(&broken), Err(Error::MissingKey));
    assert_eq!(Database::open_readonly(Vec::new(), broken).err(), Some(Error::MissingKey));
    let mut wrong = meta.clone();
    set_entry(&mut wrong, "levels", "seven");
    assert_eq!(wrong.len(), 6);
    assert_eq!(SlideData::from(&wrong), Err(Error::InvalidNumber));
    assert_eq!(SlideData::from(&Vec::new()), Err(Error::MissingKey));
}

#[test]
fn set_entry_replaces_or_appends() {
    let mut meta: Vec<(String, String)> = Vec::new();
    set_entry(&mut meta, "a", "1");
    set_entry(&mut meta, "b", "2");
    set_entry(&mut meta, "a", "3");
    assert_eq!(meta, vec![("a".to_string(), "3".to_string()), ("b".to_string(), "2".to_string())]);
    assert_eq!(get_entry(&meta, "c"), None);
}

#[test]
fn set_meta_and_write_metadata() {
    let mut db = store(1, 4);
    assert_eq!(db.set_meta("slide_path", "/tmp/a.ndpi"), Ok(()));
    let changes = vec![("island_size".to_string(), "5".to_string()), ("slide_path".to_string(), "x".to_string())];
    assert_eq!(db.write_metadata(&changes), Ok(()));
    let meta = db.read_metadata();
    assert_eq!(meta.len(), 8);
    assert_eq!(get_entry(&meta, "slide_path"), Some(&"x".to_string()));
    assert_eq!(get_entry(&meta, "island_size"), Some(&"5".to_string()));
    assert_eq!(get_entry(&meta, "levels"), Some(&"1".to_string()));
}

#[test]
fn duplicate_rows_are_refused() {
    let mut meta: Vec<(String, String)> = Vec::new();
    SlideData::new(4, 2, 8, 8, 1, 1).write_to(&mut meta);
    let rows = vec![
        TileRow { x: 1, y: 0, level: 1, jpeg: vec![1] },
        TileRow { x: 0, y: 0, level: 1, jpeg: vec![2] },
        TileRow { x: 1, y: 0, level: 1, jpeg: vec![3] },
    ];
    assert_eq!(Database::open_readwrite(rows, meta.clone()).err(), Some(Error::DuplicateTile));
    let rows = vec![
        TileRow { x: 1, y: 0, level: 1, jpeg: vec![1] },
        TileRow { x: 1, y: 0, level: 0, jpeg: vec![3] },
    ];
    let db = Database::open_readwrite(rows, meta).unwrap();
    assert_eq!(db.list_tiles(1), vec![(1, 0)]);
    assert_eq!(db.read((1, 0), 1).err(), Some(Error::Decode));
    assert_eq!(db.read_many((0, 0), (2, 2), 1).err(), Some(Error::Decode));
}
