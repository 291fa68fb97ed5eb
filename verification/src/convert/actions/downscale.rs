//! The pyramid builder: every coarser tile is made of the four tiles below it.

use crate::convert::lockfile::{advanced, LockFile};
use crate::database::database::{Database, Key};
use crate::error::Error;
use crate::quadtree;
use crate::raster::{
    channel, column_of, decoded_of, from_pixel, jpeg_of, lanczos3_of, lemma_byte_is_channel,
    pixel_at, replace, resize, row_of, white, Color, Raster,
};
use crate::types::tile::{stored_image_check, Tile};
use vstd::prelude::*;

verus! {

/// Whether the buffers that combining tiles of `size` pixels a side needs
/// can be addressed.
pub open spec fn tile_size_fits(size: u64) -> bool {
    64 * size * size <= isize::MAX
}

/// The pixel bytes of a tile's image, if it has one.
pub open spec fn image_bytes(t: &Tile) -> Option<Seq<u8>> {
    match t.data {
        Some(img) => Some(img.data@),
        None => None,
    }
}

/// The pixel at `(x, y)` of the canvas of four tiles of `size` pixels a
/// side: `k0` upper left, `k1` upper right, `k2` lower left, `k3` lower
/// right. The quadrant of a missing tile is white.
pub open spec fn mosaic_pixel(
    size: int,
    k0: Option<Seq<u8>>,
    k1: Option<Seq<u8>>,
    k2: Option<Seq<u8>>,
    k3: Option<Seq<u8>>,
    x: int,
    y: int,
) -> Color {
    let right = x >= size;
    let lower = y >= size;
    let lx = if right {
        x - size
    } else {
        x
    };
    let ly = if lower {
        y - size
    } else {
        y
    };
    let kid = if lower {
        if right {
            k3
        } else {
            k2
        }
    } else {
        if right {
            k1
        } else {
            k0
        }
    };
    match kid {
        Some(data) => pixel_at(data, size, lx, ly),
        None => white(),
    }
}

/// The bytes of the canvas of four tiles, row by row.
pub open spec fn mosaic_bytes(
    size: int,
    k0: Option<Seq<u8>>,
    k1: Option<Seq<u8>>,
    k2: Option<Seq<u8>>,
    k3: Option<Seq<u8>>,
) -> Seq<u8> {
    Seq::new(
        (12 * size * size) as nat,
        |i: int|
            channel(
                mosaic_pixel(size, k0, k1, k2, k3, column_of(i, 2 * size), row_of(i, 2 * size)),
                i % 3,
            ),
    )
}

/// The image of a tile made of the four tiles below it: their canvas,
/// resampled to the size of one tile.
pub open spec fn combined(
    size: u64,
    k0: Option<Seq<u8>>,
    k1: Option<Seq<u8>>,
    k2: Option<Seq<u8>>,
    k3: Option<Seq<u8>>,
) -> Seq<u8> {
    lanczos3_of(
        mosaic_bytes(size as int, k0, k1, k2, k3),
        (2 * size) as u32,
        (2 * size) as u32,
        size as u32,
        size as u32,
    )
}

/// Copies the image of a tile, where it has one, onto the canvas.
fn paint(canvas: &mut Raster, tile: &Tile, x: u32, y: u32)
    requires
        old(canvas).wf(),
        tile.wf(),
    ensures
        final(canvas).wf(),
        final(canvas).width == old(canvas).width,
        final(canvas).height == old(canvas).height,
        forall|i: int, j: int|
            0 <= i < old(canvas).width && 0 <= j < old(canvas).height ==> #[trigger] final(canvas).pixel(
                i,
                j,
            ) == (if tile.data.is_some() && x <= i < x + tile.size && y <= j < y + tile.size {
                tile.data.unwrap().pixel(i - x, j - y)
            } else {
                old(canvas).pixel(i, j)
            }),
{
    match &tile.data {
        Some(img) => {
            replace(canvas, img, x, y);
        },
        None => {},
    }
}

/// Gives `tile` the image made of the four tiles below it, in the order
/// upper left, upper right, lower left, lower right. Where all four are
/// empty, `tile` stays as it is.
pub fn combine_into(tile: &mut Tile, tiles: &Vec<Tile>)
    requires
        old(tile).wf(),
        tile_size_fits(old(tile).size),
        tiles@.len() == 4,
        forall|q: int| 0 <= q < 4 ==> (#[trigger] tiles@[q]).wf() && tiles@[q].size == old(tile).size,
    ensures
        final(tile).wf(),
        final(tile).size == old(tile).size,
        final(tile).level == old(tile).level,
        final(tile).pos == old(tile).pos,
        (forall|q: int| 0 <= q < 4 ==> (#[trigger] tiles@[q]).data.is_none()) ==> final(tile).data == old(tile).data,
        (exists|q: int| 0 <= q < 4 && (#[trigger] tiles@[q]).data.is_some()) ==> image_bytes(final(tile))
            == Some(
            combined(
                old(tile).size,
                image_bytes(&tiles@[0]),
                image_bytes(&tiles@[1]),
                image_bytes(&tiles@[2]),
                image_bytes(&tiles@[3]),
            ),
        ),
{
    if tiles[0].is_empty() && tiles[1].is_empty() && tiles[2].is_empty() && tiles[3].is_empty() {
        return ;
    }
    let size = tile.size;
    proof {
        assert(size <= 0x4000_0000 && 2 * size * (2 * size) == 4 * size * size && 64 * size * size >= 4
            * size * size && 12 * size * size <= 64 * size * size && 16 * (2 * size) * size <= 64 * size
            * size && 16 * size * size <= 64 * size * size) by (nonlinear_arith)
            requires
                64 * size * size <= isize::MAX,
                isize::MAX <= 0x7FFF_FFFF_FFFF_FFFF,
                size >= 0,
        ;
    }
    let s: u32 = size as u32;
    let side: u32 = 2 * s;
    proof {
        assert(3 * side * side == 12 * size * size) by (nonlinear_arith)
            requires
                side == 2 * size,
        ;
        assert(16 * side * s == 16 * (2 * size) * size) by (nonlinear_arith)
            requires
                side == 2 * size,
                s == size,
        ;
        assert(16 * s * s == 16 * size * size) by (nonlinear_arith)
            requires
                s == size,
        ;
    }
    let mut canvas = from_pixel(side, side, (255, 255, 255));
    paint(&mut canvas, &tiles[0], 0, 0);
    paint(&mut canvas, &tiles[1], s, 0);
    paint(&mut canvas, &tiles[2], 0, s);
    paint(&mut canvas, &tiles[3], s, s);
    let ghost k0 = image_bytes(&tiles@[0]);
    let ghost k1 = image_bytes(&tiles@[1]);
    let ghost k2 = image_bytes(&tiles@[2]);
    let ghost k3 = image_bytes(&tiles@[3]);
    proof {
        assert forall|x: int, y: int| 0 <= x < side && 0 <= y < side implies #[trigger] canvas.pixel(x, y)
            == mosaic_pixel(size as int, k0, k1, k2, k3, x, y) by {}
        let want = mosaic_bytes(size as int, k0, k1, k2, k3);
        assert(canvas.data@.len() == want.len());
        assert forall|i: int| 0 <= i < want.len() implies canvas.data@[i] == want[i] by {
            lemma_byte_is_channel(canvas.data@, side as int, side as int, i);
            let x = column_of(i, side as int);
            let y = row_of(i, side as int);
            assert(canvas.pixel(x, y) == mosaic_pixel(size as int, k0, k1, k2, k3, x, y));
        }
        assert(canvas.data@ =~= want);
    }
    let scaled = resize(&canvas, s, s);
    let _ = tile.set_image(scaled);
}

/// What building the tile `(x, y)` of `level` does to a store.
pub struct Built {
    /// The stored tiles afterwards.
    pub tiles: Map<Key, Seq<u8>>,
    /// The pixel bytes of the tile, `None` for an empty one, or the failure.
    pub image: Result<Option<Seq<u8>>, Error>,
    /// The number of tiles that were looked at.
    pub visited: nat,
}

/// The outcome of making a tile from its four children once all four are built.
pub open spec fn assemble(
    tiles: Map<Key, Seq<u8>>,
    writeable: bool,
    size: u64,
    k: Key,
    k0: Option<Seq<u8>>,
    k1: Option<Seq<u8>>,
    k2: Option<Seq<u8>>,
    k3: Option<Seq<u8>>,
    visited: nat,
) -> Built {
    if k0.is_none() && k1.is_none() && k2.is_none() && k3.is_none() {
        Built { tiles, image: Ok(None), visited }
    } else {
        let img = combined(size, k0, k1, k2, k3);
        if !writeable {
            Built { tiles, image: Err(Error::ReadOnly), visited }
        } else {
            match jpeg_of(img, size as u32, size as u32) {
                None => Built { tiles, image: Err(Error::Encode), visited },
                Some(bytes) => Built { tiles: tiles.insert(k, bytes), image: Ok(Some(img)), visited },
            }
        }
    }
}

/// Building the tile `(x, y)` of `level` in a pyramid of `levels` levels.
///
/// A stored tile is decoded and returned, and nothing below it is looked
/// at. A missing tile of the finest level stays missing. Any other missing
/// tile is made of its four children, built in the order upper left, upper
/// right, lower left, lower right, and stored, unless all four are empty.
/// The first failure ends the work.
pub open spec fn build(
    tiles: Map<Key, Seq<u8>>,
    writeable: bool,
    size: u64,
    levels: u64,
    x: u64,
    y: u64,
    level: u64,
) -> Built
    decreases levels - level,
{
    let k = (x, y, level);
    if tiles.contains_key(k) {
        match stored_image_check(tiles[k], size) {
            Err(e) => Built { tiles, image: Err(e), visited: 1 },
            Ok(_) => Built { tiles, image: Ok(Some(decoded_of(tiles[k]).unwrap().2)), visited: 1 },
        }
    } else if level + 1 >= levels {
        Built { tiles, image: Ok(None), visited: 1 }
    } else {
        let below = (level + 1) as u64;
        let x0 = (2 * x) as u64;
        let y0 = (2 * y) as u64;
        let x1 = (2 * x + 1) as u64;
        let y1 = (2 * y + 1) as u64;
        let a = build(tiles, writeable, size, levels, x0, y0, below);
        if a.image.is_err() {
            Built { tiles: a.tiles, image: a.image, visited: 1 + a.visited }
        } else {
            let b = build(a.tiles, writeable, size, levels, x1, y0, below);
            if b.image.is_err() {
                Built { tiles: b.tiles, image: b.image, visited: 1 + a.visited + b.visited }
            } else {
                let c = build(b.tiles, writeable, size, levels, x0, y1, below);
                if c.image.is_err() {
                    Built { tiles: c.tiles, image: c.image, visited: 1 + a.visited + b.visited + c.visited }
                } else {
                    let d = build(c.tiles, writeable, size, levels, x1, y1, below);
                    if d.image.is_err() {
                        Built {
                            tiles: d.tiles,
                            image: d.image,
                            visited: 1 + a.visited + b.visited + c.visited + d.visited,
                        }
                    } else {
                        assemble(
                            d.tiles,
                            writeable,
                            size,
                            k,
                            a.image.unwrap(),
                            b.image.unwrap(),
                            c.image.unwrap(),
                            d.image.unwrap(),
                            1 + a.visited + b.visited + c.visited + d.visited,
                        )
                    }
                }
            }
        }
    }
}

/// Builds `tile`, which comes in empty: reads it from the store or, where
/// the store does not hold it, makes it of the four tiles below it and
/// stores it. Every tile looked at is one step of `lock`.
pub fn compute_tile(db: &mut Database, tile: &mut Tile, lock: &mut LockFile) -> (r: Result<(), Error>)
    requires
        old(db).wf(),
        old(db).data.levels <= 32,
        old(tile).data.is_none(),
        old(tile).size == old(db).data.tile_size,
        tile_size_fits(old(tile).size),
        old(tile).level <= quadtree::MAX_LEVEL,
        quadtree::in_grid(old(tile).level as nat, old(tile).pos.0 as nat, old(tile).pos.1 as nat),
    ensures
        final(db).wf(),
        final(db).data == old(db).data,
        final(db).writeable == old(db).writeable,
        final(db).meta == old(db).meta,
        final(db).tiles() == build(
            old(db).tiles(),
            old(db).writeable,
            old(tile).size,
            old(db).data.levels,
            old(tile).pos.0,
            old(tile).pos.1,
            old(tile).level,
        ).tiles,
        final(tile).wf(),
        final(tile).size == old(tile).size,
        final(tile).level == old(tile).level,
        final(tile).pos == old(tile).pos,
        match r {
            Ok(_) => build(
                old(db).tiles(),
                old(db).writeable,
                old(tile).size,
                old(db).data.levels,
                old(tile).pos.0,
                old(tile).pos.1,
                old(tile).level,
            ).image == Ok::<Option<Seq<u8>>, Error>(image_bytes(final(tile))),
            Err(e) => build(
                old(db).tiles(),
                old(db).writeable,
                old(tile).size,
                old(db).data.levels,
                old(tile).pos.0,
                old(tile).pos.1,
                old(tile).level,
            ).image == Err::<Option<Seq<u8>>, Error>(e),
        },
        final(lock).current == advanced(
            old(lock).current,
            build(
                old(db).tiles(),
                old(db).writeable,
                old(tile).size,
                old(db).data.levels,
                old(tile).pos.0,
                old(tile).pos.1,
                old(tile).level,
            ).visited,
        ),
        final(lock).total == old(lock).total,
        final(lock).state == old(lock).state,
        final(lock).error == old(lock).error,
    decreases old(db).data.levels - old(tile).level,
{
    let _ = lock.inc();
    let pos = tile.pos;
    let level = tile.level;
    let size = tile.size;
    let levels = db.data.levels;
    match db.read(pos, level) {
        Err(e) => {
            return Err(e);
        },
        Ok(existing) => {
            match existing.data {
                Some(img) => {
                    let _ = tile.set_image(img);
                    return Ok(());
                },
                None => {},
            }
        },
    }
    if level + 1 >= levels {
        return Ok(());
    }
    proof {
        quadtree::lemma_side_bound(level as nat);
        quadtree::lemma_child_in_grid(level as nat, pos.0 as nat, pos.1 as nat, 0, 0);
        quadtree::lemma_child_in_grid(level as nat, pos.0 as nat, pos.1 as nat, 1, 0);
        quadtree::lemma_child_in_grid(level as nat, pos.0 as nat, pos.1 as nat, 0, 1);
        quadtree::lemma_child_in_grid(level as nat, pos.0 as nat, pos.1 as nat, 1, 1);
    }
    let below: u64 = level + 1;
    let x0: u64 = 2 * pos.0;
    let y0: u64 = 2 * pos.1;
    let x1: u64 = x0 + 1;
    let y1: u64 = y0 + 1;
    let mut t0 = Tile::new((x0, y0), below, size);
    match compute_tile(db, &mut t0, lock) {
        Err(e) => {
            return Err(e);
        },
        Ok(_) => {},
    }
    let mut t1 = Tile::new((x1, y0), below, size);
    match compute_tile(db, &mut t1, lock) {
        Err(e) => {
            return Err(e);
        },
        Ok(_) => {},
    }
    let mut t2 = Tile::new((x0, y1), below, size);
    match compute_tile(db, &mut t2, lock) {
        Err(e) => {
            return Err(e);
        },
        Ok(_) => {},
    }
    let mut t3 = Tile::new((x1, y1), below, size);
    match compute_tile(db, &mut t3, lock) {
        Err(e) => {
            return Err(e);
        },
        Ok(_) => {},
    }
    let sub_tiles = vec![t0, t1, t2, t3];
    combine_into(tile, &sub_tiles);
    db.write(tile)
}

/// The number of tiles of a full pyramid of `levels` levels.
pub fn node_count(levels: u64) -> (total: u64)
    requires
        levels <= 32,
    ensures
        total == quadtree::level_start(levels as nat),
{
    let mut total: u128 = 0;
    let mut cells: u128 = 1;
    let mut i: u64 = 0;
    proof {
        quadtree::lemma_pow4_is_square(0);
    }
    while i < levels
        invariant
            i <= levels <= 32,
            cells == quadtree::pow4(i as nat),
            total == quadtree::level_start(i as nat),
            total < cells,
            cells <= 0x1_0000_0000_0000_0000,
        decreases levels - i,
    {
        proof {
            quadtree::lemma_level_start_step(i as nat);
            quadtree::lemma_side_bound((i + 1) as nat);
            quadtree::lemma_pow4_is_square((i + 1) as nat);
        }
        total = total + cells;
        cells = cells * 4;
        i = i + 1;
    }
    total as u64
}

/// Builds every missing tile of the pyramid above the finest level, from
/// the root down, with `lock` counting the tiles looked at out of the
/// number that a full pyramid has.
pub fn downscale(db: &mut Database, lock: &mut LockFile) -> (r: Result<(), Error>)
    requires
        old(db).wf(),
        old(db).data.levels <= 32,
        tile_size_fits(old(db).data.tile_size),
    ensures
        final(db).wf(),
        final(db).data == old(db).data,
        final(db).writeable == old(db).writeable,
        final(db).meta == old(db).meta,
        final(db).tiles() == build(
            old(db).tiles(),
            old(db).writeable,
            old(db).data.tile_size,
            old(db).data.levels,
            0,
            0,
            0,
        ).tiles,
        match r {
            Ok(_) => build(
                old(db).tiles(),
                old(db).writeable,
                old(db).data.tile_size,
                old(db).data.levels,
                0,
                0,
                0,
            ).image.is_ok(),
            Err(e) => build(
                old(db).tiles(),
                old(db).writeable,
                old(db).data.tile_size,
                old(db).data.levels,
                0,
                0,
                0,
            ).image == Err::<Option<Seq<u8>>, Error>(e),
        },
        final(lock).state@ == "Downscaling"@,
        final(lock).total == quadtree::level_start(old(db).data.levels as nat),
        final(lock).error == old(lock).error,
        r.is_ok() ==> final(lock).current == final(lock).total,
        r.is_err() ==> final(lock).current == advanced(
            0,
            build(
                old(db).tiles(),
                old(db).writeable,
                old(db).data.tile_size,
                old(db).data.levels,
                0,
                0,
                0,
            ).visited,
        ),
{
    let total = node_count(db.data.levels);
    lock.state("Downscaling");
    lock.start(total);
    let mut root_tile = Tile::new((0, 0), 0, db.data.tile_size);
    match compute_tile(db, &mut root_tile, lock) {
        Err(e) => {
            return Err(e);
        },
        Ok(_) => {},
    }
    lock.finish();
    Ok(())
}

/// A tile that is built empty leaves the store as it was: nothing is
/// stored for it or below it.
pub proof fn lemma_empty_is_not_stored(
    tiles: Map<Key, Seq<u8>>,
    writeable: bool,
    size: u64,
    levels: u64,
    x: u64,
    y: u64,
    level: u64,
)
    requires
        build(tiles, writeable, size, levels, x, y, level).image == Ok::<Option<Seq<u8>>, Error>(None),
    ensures
        build(tiles, writeable, size, levels, x, y, level).tiles == tiles,
        !tiles.contains_key((x, y, level)),
    decreases levels - level,
{
    let k = (x, y, level);
    if !tiles.contains_key(k) && level + 1 < levels {
        let below = (level + 1) as u64;
        let x0 = (2 * x) as u64;
        let y0 = (2 * y) as u64;
        let x1 = (2 * x + 1) as u64;
        let y1 = (2 * y + 1) as u64;
        let a = build(tiles, writeable, size, levels, x0, y0, below);
        let b = build(a.tiles, writeable, size, levels, x1, y0, below);
        let c = build(b.tiles, writeable, size, levels, x0, y1, below);
        let d = build(c.tiles, writeable, size, levels, x1, y1, below);
        lemma_empty_is_not_stored(tiles, writeable, size, levels, x0, y0, below);
        lemma_empty_is_not_stored(a.tiles, writeable, size, levels, x1, y0, below);
        lemma_empty_is_not_stored(b.tiles, writeable, size, levels, x0, y1, below);
        lemma_empty_is_not_stored(c.tiles, writeable, size, levels, x1, y1, below);
    }
}

/// Building a second time stores nothing: where the first build succeeded,
/// a build of the same tile on the store it left leaves that store as it is.
pub proof fn lemma_build_twice(
    tiles: Map<Key, Seq<u8>>,
    writeable: bool,
    size: u64,
    levels: u64,
    x: u64,
    y: u64,
    level: u64,
)
    requires
        build(tiles, writeable, size, levels, x, y, level).image.is_ok(),
    ensures
        build(
            build(tiles, writeable, size, levels, x, y, level).tiles,
            writeable,
            size,
            levels,
            x,
            y,
            level,
        ).tiles == build(tiles, writeable, size, levels, x, y, level).tiles,
{
    let first = build(tiles, writeable, size, levels, x, y, level);
    if first.image == Ok::<Option<Seq<u8>>, Error>(None) {
        lemma_empty_is_not_stored(tiles, writeable, size, levels, x, y, level);
    } else {
        assert(first.tiles.contains_key((x, y, level)));
    }
}

/// Building only adds tiles: every stored tile stays as it is, and every
/// tile that is new lies at or below the level of the tile built and above
/// the finest level, whose tiles are never made.
pub proof fn lemma_build_only_adds(
    tiles: Map<Key, Seq<u8>>,
    writeable: bool,
    size: u64,
    levels: u64,
    x: u64,
    y: u64,
    level: u64,
)
    ensures
        forall|q: Key| #[trigger]
            tiles.contains_key(q) ==> build(tiles, writeable, size, levels, x, y, level).tiles.contains_key(q)
                && build(tiles, writeable, size, levels, x, y, level).tiles[q] == tiles[q],
        forall|q: Key| #[trigger]
            build(tiles, writeable, size, levels, x, y, level).tiles.contains_key(q) && !tiles.contains_key(q)
                ==> level <= q.2 && q.2 + 1 < levels,
    decreases levels - level,
{
    let k = (x, y, level);
    if !tiles.contains_key(k) && level + 1 < levels {
        let below = (level + 1) as u64;
        let x0 = (2 * x) as u64;
        let y0 = (2 * y) as u64;
        let x1 = (2 * x + 1) as u64;
        let y1 = (2 * y + 1) as u64;
        let a = build(tiles, writeable, size, levels, x0, y0, below);
        let b = build(a.tiles, writeable, size, levels, x1, y0, below);
        let c = build(b.tiles, writeable, size, levels, x0, y1, below);
        let d = build(c.tiles, writeable, size, levels, x1, y1, below);
        lemma_build_only_adds(tiles, writeable, size, levels, x0, y0, below);
        lemma_build_only_adds(a.tiles, writeable, size, levels, x1, y0, below);
        lemma_build_only_adds(b.tiles, writeable, size, levels, x0, y1, below);
        lemma_build_only_adds(c.tiles, writeable, size, levels, x1, y1, below);
    }
}

} // verus!
