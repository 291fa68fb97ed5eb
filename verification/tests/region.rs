use pamly::database::patches::{level_drop, resample, scaled_side};
use pamly::{Database, Error, Patch, Raster, SlideData, Tile};

fn solid_tile(pos: (u64, u64), level: u64, size: u64, c: (u8, u8, u8)) -> Tile {
    let mut tile = Tile::new(pos, level, size);
    tile.set_image(Raster::solid(size as u32, size as u32, c)).unwrap();
    tile
}

fn white() -> (u8, u8, u8) {
    (255, 255, 255)
}

#[test]
fn rectangle_of_a_written_tile_reads_back() {
    let mut db = Database::create(SlideData::new(8, 2, 16, 16, 1, 1));
    db.write(&solid_tile((1, 0), 1, 8, (128, 128, 128))).unwrap();
    let patch = db.read_region((8, 0), (8, 8)).unwrap();
    let img = patch.image().unwrap();
    let stored = db.read((1, 0), 1).unwrap();
    let tile = stored.image().unwrap();
    assert_eq!((img.width(), img.height()), (8, 8));
    assert_eq!(img.data, tile.data);
    for y in 0..8 {
        for x in 0..8 {
            assert_eq!(img.get(x, y), (128, 128, 128));
        }
    }
    assert_eq!(patch.coords(), (8, 0));
    assert_eq!(patch.level(), 1);
}

#[test]
fn region_across_tiles_and_gaps() {
    let mut db = Database::create(SlideData::new(8, 2, 16, 16, 1, 1));
    db.write(&solid_tile((0, 0), 1, 8, (0, 0, 0))).unwrap();
    db.write(&solid_tile((1, 1), 1, 8, (128, 128, 128))).unwrap();
    let patch = db.read_region((6, 5), (5, 7)).unwrap();
    assert_eq!(patch.size(), Ok((5, 7)));
    let img = patch.image().unwrap();
    assert_eq!(img.get(0, 0), (0, 0, 0));
    assert_eq!(img.get(1, 2), (0, 0, 0));
    assert_eq!(img.get(2, 0), white());
    assert_eq!(img.get(4, 2), white());
    assert_eq!(img.get(0, 3), white());
    assert_eq!(img.get(1, 6), white());
    assert_eq!(img.get(2, 3), (128, 128, 128));
    assert_eq!(img.get(4, 6), (128, 128, 128));
}

#[test]
fn region_without_tiles_is_an_empty_patch() {
    let mut db = Database::create(SlideData::new(8, 2, 16, 16, 1, 1));
    db.write(&solid_tile((0, 0), 1, 8, (0, 0, 0))).unwrap();
    let patch = db.read_region((8, 8), (8, 8)).unwrap();
    assert!(patch.is_empty());
    let patch = db.read_region_level((0, 0), (8, 8), 0).unwrap();
    assert!(patch.is_empty());
}

#[test]
fn region_too_large_is_refused() {
    let db = Database::create(SlideData::new(8, 2, 16, 16, 1, 1));
    assert_eq!(db.read_region((0, 0), (1 << 33, 8)).err(), Some(Error::RegionTooLarge));
    assert_eq!(db.read_region((u64::MAX, 0), (u64::MAX, 8)).err(), Some(Error::RegionTooLarge));
    assert!(db.read_region((0, u64::MAX - 2), (1, 2)).unwrap().is_empty());
    let fine = Database::create(SlideData::new(1, 2, 16, 16, 1, 1));
    assert_eq!(fine.read_region((0, u64::MAX), (1, 1)).err(), Some(Error::RegionTooLarge));
    assert!(fine.read_region((0, u64::MAX - 1), (1, 1)).unwrap().is_empty());
}

#[test]
fn scaled_read_with_unequal_scales_fails() {
    let mut db = Database::create(SlideData::new(8, 2, 16, 16, 1, 1));
    db.write(&solid_tile((0, 0), 1, 8, (0, 0, 0))).unwrap();
    assert_eq!(db.read_region_scaled((0, 0), (8, 8), (16, 24)).err(), Some(Error::ScaleMismatch));
    assert_eq!(db.read_region_scaled((0, 0), (0, 8), (4, 4)).err(), Some(Error::ScaleMismatch));
    assert_eq!(db.read_region_scaled((0, 0), (8, 0), (4, 4)).err(), Some(Error::ScaleMismatch));
    assert_eq!(db.read_region_scaled((0, 0), (1000, 1000), (500, 502)).err(), Some(Error::ScaleMismatch));
    assert!(db.read_region_scaled((0, 0), (1000, 1000), (500, 501)).is_ok());
    assert!(db.read_region_scaled((0, 0), (16, 16), (8, 8)).is_ok());
}

#[test]
fn scale_tolerance_is_a_thousandth() {
    let db = Database::create(SlideData::new(8, 1, 8, 8, 1, 1));
    assert!(db.read_region_scaled((0, 0), (2000, 1000), (1000, 501)).is_ok());
    assert_eq!(db.read_region_scaled((0, 0), (2000, 1000), (1000, 502)).err(), Some(Error::ScaleMismatch));
}

#[test]
fn scaled_read_uses_the_coarsest_level_that_is_fine_enough() {
    let mut db = Database::create(SlideData::new(8, 3, 32, 32, 1, 1));
    db.write(&solid_tile((0, 0), 2, 8, (0, 0, 0))).unwrap();
    db.write(&solid_tile((0, 0), 1, 8, (128, 128, 128))).unwrap();
    db.write(&solid_tile((0, 0), 0, 8, (255, 255, 255))).unwrap();
    let p = db.read_region_scaled((0, 0), (8, 8), (8, 8)).unwrap();
    assert_eq!(p.level(), 2);
    assert_eq!(p.image().unwrap().get(4, 4), (0, 0, 0));
    let p = db.read_region_scaled((0, 0), (8, 8), (16, 16)).unwrap();
    assert_eq!(p.level(), 2);
    assert_eq!(p.size(), Ok((16, 16)));
    let p = db.read_region_scaled((0, 0), (16, 16), (8, 8)).unwrap();
    assert_eq!(p.level(), 1);
    assert_eq!(p.coords(), (0, 0));
    assert_eq!(p.image().unwrap().get(4, 4), (128, 128, 128));
    let p = db.read_region_scaled((0, 0), (16, 16), (7, 7)).unwrap();
    assert_eq!(p.level(), 1);
    assert_eq!(p.size(), Ok((7, 7)));
    let p = db.read_region_scaled((0, 0), (32, 32), (8, 8)).unwrap();
    assert_eq!(p.level(), 0);
    assert_eq!(p.image().unwrap().get(4, 4), (255, 255, 255));
    let p = db.read_region_scaled((0, 0), (32, 32), (2, 2)).unwrap();
    assert_eq!(p.level(), 0);
    assert_eq!(p.size(), Ok((2, 2)));
}

#[test]
fn level_drop_values() {
    assert_eq!(level_drop(8, 8, 5), 0);
    assert_eq!(level_drop(9, 8, 5), 0);
    assert_eq!(level_drop(4, 8, 5), 1);
    assert_eq!(level_drop(5, 8, 5), 0);
    assert_eq!(level_drop(3, 8, 5), 1);
    assert_eq!(level_drop(2, 8, 5), 2);
    assert_eq!(level_drop(1, 1024, 5), 5);
    assert_eq!(level_drop(1, 1024, 31), 10);
    assert_eq!(level_drop(0, 8, 5), 5);
    assert_eq!(level_drop(4, 8, 0), 0);
}

#[test]
fn resample_of_patches() {
    assert!(resample(Patch::new((1, 2), 3), (5, 6), (10, 10)).unwrap().is_empty());
    let mut p = Patch::new((0, 0), 1);
    p.set_image(Raster::solid(4, 4, (10, 20, 30)));
    let r = resample(p, (5, 6), (2, 2)).unwrap();
    assert_eq!(r.coords(), (5, 6));
    assert_eq!(r.level(), 1);
    assert_eq!(r.size(), Ok((2, 2)));
    assert_eq!(r.image().unwrap().get(1, 1), (10, 20, 30));
    let mut p = Patch::new((0, 0), 1);
    p.set_image(Raster::solid(4, 4, (10, 20, 30)));
    assert_eq!(resample(p, (0, 0), (1 << 32, 2)).err(), Some(Error::RegionTooLarge));
    let mut p = Patch::new((0, 0), 1);
    p.set_image(Raster::solid(0, 4, (10, 20, 30)));
    assert_eq!(resample(p, (0, 0), (2, 2)).err(), Some(Error::EmptyRegion));
    let mut p = Patch::new((0, 0), 1);
    p.set_image(Raster::solid(0, 4, (10, 20, 30)));
    assert_eq!(resample(p, (0, 0), (0, 4)).unwrap().size(), Ok((0, 4)));
}

#[test]
fn thumbnail_sides() {
    assert_eq!(scaled_side(3000, 1024, 3000), 1024);
    assert_eq!(scaled_side(2000, 1024, 3000), 683);
    assert_eq!(scaled_side(1, 10, 1000), 1);
    assert_eq!(scaled_side(0, 10, 0), 0);
    assert_eq!(scaled_side(0, 10, 5), 0);
}

#[test]
fn thumbnail_of_a_pyramid() {
    let mut db = Database::create(SlideData::new(8, 2, 16, 16, 1, 1));
    for (x, y) in [(0u64, 0u64), (1, 0), (0, 1), (1, 1)] {
        db.write(&solid_tile((x, y), 1, 8, (128, 128, 128))).unwrap();
    }
    db.write(&solid_tile((0, 0), 0, 8, (0, 0, 0))).unwrap();
    let t = db.thumbnail(8).unwrap();
    assert_eq!(t.level(), 0);
    assert_eq!(t.size(), Ok((8, 8)));
    assert_eq!(t.image().unwrap().get(3, 3), (0, 0, 0));
    let t = db.thumbnail(12).unwrap();
    assert_eq!(t.level(), 1);
    assert_eq!(t.size(), Ok((12, 12)));
    let c = t.image().unwrap().get(6, 6);
    assert!((c.0 as i32 - 128).abs() <= 2);
    let empty = Database::create(SlideData::new(8, 1, 0, 0, 1, 1));
    assert_eq!(empty.thumbnail(8).err(), Some(Error::ScaleMismatch));
}
