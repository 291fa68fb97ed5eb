//! The region compositor: the pixels of a rectangle of one level, put
//! together from the tiles that cover it.

use crate::database::database::{Database, Key};
use crate::database::tiles::{are_tiles_of, in_range, some_tile_fails};
use crate::error::Error;
use crate::quadtree::{grid_side, side};
use crate::raster::{
    crop, decoded_of, from_pixel, lanczos3_of, pixel_at, replace, resize, white, Color, Raster,
};
use crate::types::patch::Patch;
use crate::types::tile::{stored_image_check, Tile};
use vstd::arithmetic::div_mod::{
    lemma_div_is_ordered, lemma_fundamental_div_mod, lemma_fundamental_div_mod_converse,
    lemma_mod_pos_bound,
};
use vstd::prelude::*;

verus! {

/// The pixel at `(px, py)` of `level`: that of the tile which covers the
/// place, or white where no tile does.
pub open spec fn region_pixel(tiles: Map<Key, Seq<u8>>, size: u64, level: u64, px: int, py: int) -> Color {
    let k: Key = ((px / (size as int)) as u64, (py / (size as int)) as u64, level);
    if tiles.contains_key(k) {
        match decoded_of(tiles[k]) {
            Some(img) => pixel_at(img.2, size as int, px % (size as int), py % (size as int)),
            None => white(),
        }
    } else {
        white()
    }
}

/// The first tile row or column that a span of pixels starting at `c` touches.
pub open spec fn first_tile(c: u64, size: u64) -> int {
    (c as int) / (size as int)
}

/// The tile row or column after the last that a span of `s` pixels
/// starting at `c` touches.
pub open spec fn end_tile(c: u64, s: u64, size: u64) -> int {
    (c + s + size - 1) / (size as int)
}

/// The number of pixels of the tiles that a span of `s` pixels starting at
/// `c` touches.
pub open spec fn canvas_side(c: u64, s: u64, size: u64) -> int {
    (end_tile(c, s, size) - first_tile(c, size)) * size
}

/// Whether the canvas of the tiles that a rectangle touches can be held in
/// an image buffer.
pub open spec fn region_fits(coords: (u64, u64), size: (u64, u64), tile_size: u64) -> bool {
    &&& end_tile(coords.0, size.0, tile_size) <= u64::MAX
    &&& end_tile(coords.1, size.1, tile_size) <= u64::MAX
    &&& canvas_side(coords.0, size.0, tile_size) <= u32::MAX
    &&& canvas_side(coords.1, size.1, tile_size) <= u32::MAX
    &&& 3 * canvas_side(coords.0, size.0, tile_size) * canvas_side(coords.1, size.1, tile_size)
        <= isize::MAX
}

/// Whether `img` holds the pixels of the rectangle of `size` pixels at
/// `coords` of `level`.
pub open spec fn is_region_image(
    img: &Raster,
    tiles: Map<Key, Seq<u8>>,
    tile_size: u64,
    level: u64,
    coords: (u64, u64),
    size: (u64, u64),
) -> bool {
    &&& img.wf()
    &&& img.width == size.0
    &&& img.height == size.1
    &&& forall|i: int, j: int|
        0 <= i < size.0 && 0 <= j < size.1 ==> #[trigger] img.pixel(i, j) == region_pixel(
            tiles,
            tile_size,
            level,
            coords.0 + i,
            coords.1 + j,
        )
}

/// What reading the rectangle of `size` pixels at `coords` of `level`
/// gives. A rectangle whose canvas cannot be held is refused. A tile under
/// it that does not decode fails the read. A rectangle that no tile
/// touches gives an empty patch, any other one its pixels.
pub open spec fn is_region_read(
    db: &Database,
    coords: (u64, u64),
    size: (u64, u64),
    level: u64,
    r: Result<Patch, Error>,
) -> bool {
    let ts = db.data.tile_size;
    let start = (first_tile(coords.0, ts) as u64, first_tile(coords.1, ts) as u64);
    let end = (end_tile(coords.0, size.0, ts) as u64, end_tile(coords.1, size.1, ts) as u64);
    if !region_fits(coords, size, ts) {
        r == Err::<Patch, Error>(Error::RegionTooLarge)
    } else {
        match r {
            Err(e) => some_tile_fails(db.tiles(), ts, start, end, level, e),
            Ok(p) => {
                &&& p.coords == coords
                &&& p.level == level
                &&& forall|x: u64, y: u64|
                    in_range(x, y, start, end) && #[trigger] db.tiles().contains_key((x, y, level))
                        ==> stored_image_check(db.tiles()[(x, y, level)], ts).is_ok()
                &&& p.data.is_none() <==> forall|x: u64, y: u64|
                    in_range(x, y, start, end) ==> !#[trigger] db.tiles().contains_key((x, y, level))
                &&& p.data.is_some() ==> is_region_image(
                    &p.data.unwrap(),
                    db.tiles(),
                    ts,
                    level,
                    coords,
                    size,
                )
            },
        }
    }
}

/// The pixel at `(u, v)` of a white canvas onto which the first `n` tiles
/// of `list` were copied in turn, the tile at `start` in the upper left corner.
pub open spec fn painted(list: Seq<Tile>, start: (u64, u64), size: int, n: nat, u: int, v: int) -> Color
    decreases n,
{
    if n == 0 {
        white()
    } else {
        let t = list[n - 1];
        let dx = (t.pos.0 - start.0) * size;
        let dy = (t.pos.1 - start.1) * size;
        if dx <= u < dx + size && dy <= v < dy + size {
            t.data.unwrap().pixel(u - dx, v - dy)
        } else {
            painted(list, start, size, (n - 1) as nat, u, v)
        }
    }
}

proof fn lemma_cell(size: int, a: int, u: int)
    requires
        size > 0,
        0 <= a,
        0 <= u,
    ensures
        (a * size <= u < a * size + size) <==> (u / size == a),
        u / size == a ==> u - a * size == u % size,
{
    lemma_fundamental_div_mod(u, size);
    lemma_mod_pos_bound(u, size);
    if a * size <= u < a * size + size {
        lemma_fundamental_div_mod_converse(u, size, a, u - a * size);
    }
    if u / size == a {
        assert(size * (u / size) == a * size) by (nonlinear_arith)
            requires
                u / size == a,
        ;
    }
}

proof fn lemma_shift(size: int, s: int, u: int)
    requires
        size > 0,
        0 <= s,
        0 <= u,
    ensures
        (s * size + u) / size == s + u / size,
        (s * size + u) % size == u % size,
{
    lemma_fundamental_div_mod(u, size);
    lemma_mod_pos_bound(u, size);
    let q = u / size;
    let r = u % size;
    assert(s * size + u == (s + q) * size + r) by (nonlinear_arith)
        requires
            u == size * q + r,
    ;
    lemma_fundamental_div_mod_converse(s * size + u, size, s + q, r);
}

/// The canvas shows, at every place, the tile of the list that covers it.
proof fn lemma_painted(list: Seq<Tile>, start: (u64, u64), size: int, n: nat, u: int, v: int)
    requires
        size > 0,
        0 <= u,
        0 <= v,
        n <= list.len(),
        forall|j: int| 0 <= j < list.len() ==> start.0 <= (#[trigger] list[j]).pos.0 && start.1 <= list[j].pos.1,
        forall|a: int, b: int|
            0 <= a < list.len() && 0 <= b < list.len() && a != b ==> (#[trigger] list[a]).pos != (
            #[trigger] list[b]).pos,
    ensures
        (forall|j: int|
            0 <= j < n ==> !((#[trigger] list[j]).pos.0 == start.0 + u / size && list[j].pos.1 == start.1 + v
                / size)) ==> painted(list, start, size, n, u, v) == white(),
        forall|j: int|
            0 <= j < n && (#[trigger] list[j]).pos.0 == start.0 + u / size && list[j].pos.1 == start.1 + v
                / size ==> painted(list, start, size, n, u, v) == list[j].data.unwrap().pixel(
                u % size,
                v % size,
            ),
    decreases n,
{
    if n > 0 {
        lemma_painted(list, start, size, (n - 1) as nat, u, v);
        let t = list[n - 1];
        lemma_cell(size, t.pos.0 - start.0, u);
        lemma_cell(size, t.pos.1 - start.1, v);
    }
}

/// Reading the rectangle of a stored tile gives the pixels that its bytes
/// decode to.
pub proof fn lemma_tile_rectangle(
    img: &Raster,
    tiles: Map<Key, Seq<u8>>,
    tile_size: u64,
    level: u64,
    x: u64,
    y: u64,
)
    requires
        tile_size > 0,
        x * tile_size + tile_size <= u64::MAX,
        y * tile_size + tile_size <= u64::MAX,
        tiles.contains_key((x, y, level)),
        decoded_of(tiles[(x, y, level)]).is_some(),
        is_region_image(
            img,
            tiles,
            tile_size,
            level,
            ((x * tile_size) as u64, (y * tile_size) as u64),
            (tile_size, tile_size),
        ),
    ensures
        img.width == tile_size,
        img.height == tile_size,
        forall|i: int, j: int|
            0 <= i < tile_size && 0 <= j < tile_size ==> #[trigger] img.pixel(i, j) == pixel_at(
                decoded_of(tiles[(x, y, level)]).unwrap().2,
                tile_size as int,
                i,
                j,
            ),
{
    let t = tile_size as int;
    assert forall|i: int, j: int| 0 <= i < tile_size && 0 <= j < tile_size implies #[trigger] img.pixel(
        i,
        j,
    ) == pixel_at(decoded_of(tiles[(x, y, level)]).unwrap().2, t, i, j) by {
        assert(0 <= x * t && 0 <= y * t) by (nonlinear_arith)
            requires
                t > 0,
                x >= 0,
                y >= 0,
        ;
        lemma_shift(t, x as int, i);
        lemma_shift(t, y as int, j);
        lemma_cell(t, 0, i);
        lemma_cell(t, 0, j);
        assert(img.pixel(i, j) == region_pixel(tiles, tile_size, level, x * t + i, y * t + j));
    }
}

/// Whether the horizontal and the vertical scale from `size` to `target`
/// differ by more than a thousandth. A rectangle without pixels has no scale.
pub open spec fn scale_mismatch(size: (u64, u64), target: (u64, u64)) -> bool {
    let a = target.0 * size.1;
    let b = target.1 * size.0;
    let diff = if a >= b {
        a - b
    } else {
        b - a
    };
    size.0 == 0 || size.1 == 0 || 1000 * diff > size.0 * size.1
}

/// Whether `k` is the number of levels above the finest at which a span of
/// `r` pixels is read to give `t` pixels: the largest for which the level
/// still has at least `t` pixels, and at most `max_level`.
pub open spec fn is_level_drop(k: nat, t: u64, r: u64, max_level: u64) -> bool {
    &&& k <= max_level
    &&& k == 0 || t * side(k) <= r
    &&& k == max_level || t * side(k + 1) > r
}

/// Whether an image of `w` by `h` pixels can be resampled to `target`.
pub open spec fn can_resample(w: u32, h: u32, target: (u64, u64)) -> bool {
    &&& target.0 <= u32::MAX
    &&& target.1 <= u32::MAX
    &&& 16 * w * target.1 <= isize::MAX
    &&& 16 * target.0 * target.1 <= isize::MAX
}

/// What resampling the patch `inner` to `target` gives, as the patch at
/// `coords`. An empty patch stays empty. An image without pixels cannot be
/// resampled to another size.
pub open spec fn is_resampled(inner: &Patch, coords: (u64, u64), target: (u64, u64), r: Result<Patch, Error>) -> bool {
    match inner.data {
        None => r.is_ok() && r.unwrap().data.is_none() && r.unwrap().coords == coords && r.unwrap().level
            == inner.level,
        Some(img) => if !can_resample(img.width, img.height, target) {
            r == Err::<Patch, Error>(Error::RegionTooLarge)
        } else if (img.width == 0 || img.height == 0) && !(target.0 == img.width && target.1 == img.height) {
            r == Err::<Patch, Error>(Error::EmptyRegion)
        } else {
            &&& r.is_ok()
            &&& r.unwrap().coords == coords
            &&& r.unwrap().level == inner.level
            &&& r.unwrap().data.is_some()
            &&& r.unwrap().data.unwrap().wf()
            &&& r.unwrap().data.unwrap().width == target.0
            &&& r.unwrap().data.unwrap().height == target.1
            &&& r.unwrap().data.unwrap().data@ == lanczos3_of(
                img.data@,
                img.width,
                img.height,
                target.0 as u32,
                target.1 as u32,
            )
            &&& target.0 == img.width && target.1 == img.height ==> r.unwrap().data.unwrap().data@
                == img.data@
        },
    }
}

/// A pixel count of the finest level, counted `k` levels above it.
pub open spec fn shrunk(c: u64, k: nat) -> u64 {
    ((c as int) / (side(k) as int)) as u64
}

/// What reading the rectangle of `size` pixels at `coords` of the finest
/// level gives when it is read `k` levels above the finest, where both
/// its corner and its size are `side(k)` times smaller, as the patch
/// `inner`, and then resampled to `target` pixels.
pub open spec fn is_scaled_step(
    db: &Database,
    coords: (u64, u64),
    size: (u64, u64),
    target: (u64, u64),
    k: nat,
    inner: Result<Patch, Error>,
    r: Result<Patch, Error>,
) -> bool {
    let max_level = (db.data.levels - 1) as u64;
    &&& is_level_drop(k, target.0, size.0, max_level)
    &&& is_region_read(
        db,
        (shrunk(coords.0, k), shrunk(coords.1, k)),
        (shrunk(size.0, k), shrunk(size.1, k)),
        (max_level - k) as u64,
        inner,
    )
    &&& match inner {
        Err(e) => r == Err::<Patch, Error>(e),
        Ok(p) => is_resampled(&p, coords, target, r),
    }
}

/// What reading the rectangle of `size` pixels at `coords` of the finest
/// level as `target` pixels gives. Scales that differ are refused. The
/// rectangle is read at the coarsest level that still has at least
/// `target` pixels for it, and then resampled.
pub open spec fn is_scaled_read(
    db: &Database,
    coords: (u64, u64),
    size: (u64, u64),
    target: (u64, u64),
    r: Result<Patch, Error>,
) -> bool {
    if scale_mismatch(size, target) {
        r == Err::<Patch, Error>(Error::ScaleMismatch)
    } else {
        exists|k: nat, inner: Result<Patch, Error>| #[trigger]
            is_scaled_step(db, coords, size, target, k, inner, r)
    }
}

/// The number of pixels that a side of `extent` pixels gets in a thumbnail
/// whose longer side, of `longer` pixels, gets `target`: in proportion,
/// rounded up.
pub open spec fn thumbnail_side(extent: u64, target: u64, longer: u64) -> int {
    if longer == 0 {
        0
    } else {
        (extent * target + longer - 1) / (longer as int)
    }
}

/// Resamples a patch to `target` pixels, as the patch at `coords`.
pub fn resample(inner: Patch, coords: (u64, u64), target: (u64, u64)) -> (r: Result<Patch, Error>)
    requires
        inner.data.is_some() ==> inner.data.unwrap().wf(),
    ensures
        is_resampled(&inner, coords, target, r),
{
    let mut result = Patch::new(coords, inner.level);
    let img = match inner.data {
        None => {
            return Ok(result);
        },
        Some(img) => img,
    };
    if target.0 > u32::MAX as u64 || target.1 > u32::MAX as u64 {
        return Err(Error::RegionTooLarge);
    }
    let limit: u128 = isize::MAX as u128;
    proof {
        let w = img.width as int;
        let a = target.0 as int;
        let b = target.1 as int;
        assert(0 <= w * b <= 0xFFFF_FFFF * 0xFFFF_FFFF && 0 <= a * b <= 0xFFFF_FFFF * 0xFFFF_FFFF)
            by (nonlinear_arith)
            requires
                0 <= w <= 0xFFFF_FFFF,
                0 <= a <= 0xFFFF_FFFF,
                0 <= b <= 0xFFFF_FFFF,
        ;
        assert(16 * w * b == 16 * (w * b) && 16 * a * b == 16 * (a * b)) by (nonlinear_arith);
    }
    let source: u128 = 16 * ((img.width as u128) * (target.1 as u128));
    let dest: u128 = 16 * ((target.0 as u128) * (target.1 as u128));
    if source > limit || dest > limit {
        return Err(Error::RegionTooLarge);
    }
    let same = target.0 == img.width as u64 && target.1 == img.height as u64;
    if (img.width == 0 || img.height == 0) && !same {
        return Err(Error::EmptyRegion);
    }
    let scaled = resize(&img, target.0 as u32, target.1 as u32);
    result.set_image(scaled);
    Ok(result)
}

/// The number of levels above the finest at which a span of `r` pixels is
/// read to give `t` pixels.
pub fn level_drop(t: u64, r: u64, max_level: u64) -> (k: u64)
    requires
        max_level <= 31,
    ensures
        is_level_drop(k as nat, t, r, max_level),
{
    let mut k: u64 = 0;
    let mut p: u128 = t as u128;
    proof {
        assert(side(0) == 1);
        assert(t * side(0) == t) by (nonlinear_arith)
            requires
                side(0) == 1,
        ;
    }
    while k < max_level && 2 * p <= r as u128
        invariant
            k <= max_level <= 31,
            p == t * side(k as nat),
            k == 0 || p <= r,
            p <= 0xFFFF_FFFF_FFFF_FFFF,
        decreases max_level - k,
    {
        proof {
            assert(t * side((k + 1) as nat) == 2 * (t * side(k as nat))) by (nonlinear_arith)
                requires
                    side((k + 1) as nat) == 2 * side(k as nat),
            ;
        }
        p = 2 * p;
        k = k + 1;
    }
    proof {
        assert(t * side((k + 1) as nat) == 2 * (t * side(k as nat))) by (nonlinear_arith)
            requires
                side((k + 1) as nat) == 2 * side(k as nat),
        ;
    }
    k
}

impl Database {
    /// Reads the rectangle of `size` pixels at `coords` of the finest level
    /// as an image of `target_size` pixels.
    pub fn read_region_scaled(&self, coords: (u64, u64), size: (u64, u64), target_size: (u64, u64)) -> (r:
        Result<Patch, Error>)
        requires
            self.wf(),
            self.data.tile_size > 0,
            1 <= self.data.levels <= 32,
        ensures
            is_scaled_read(self, coords, size, target_size, r),
    {
        let max_level = self.data.levels - 1;
        if size.0 == 0 || size.1 == 0 {
            return Err(Error::ScaleMismatch);
        }
        proof {
            assert(target_size.0 * size.1 <= 0xFFFF_FFFF_FFFF_FFFF * 0xFFFF_FFFF_FFFF_FFFF
                && target_size.1 * size.0 <= 0xFFFF_FFFF_FFFF_FFFF * 0xFFFF_FFFF_FFFF_FFFF && size.0
                * size.1 <= 0xFFFF_FFFF_FFFF_FFFF * 0xFFFF_FFFF_FFFF_FFFF && 0 <= target_size.0 * size.1
                && 0 <= target_size.1 * size.0 && 0 <= size.0 * size.1) by (nonlinear_arith)
                requires
                    0 <= target_size.0 <= 0xFFFF_FFFF_FFFF_FFFF,
                    0 <= target_size.1 <= 0xFFFF_FFFF_FFFF_FFFF,
                    0 <= size.0 <= 0xFFFF_FFFF_FFFF_FFFF,
                    0 <= size.1 <= 0xFFFF_FFFF_FFFF_FFFF,
            ;
        }
        let a: u128 = (target_size.0 as u128) * (size.1 as u128);
        let b: u128 = (target_size.1 as u128) * (size.0 as u128);
        let diff: u128 = if a >= b {
            a - b
        } else {
            b - a
        };
        let area: u128 = (size.0 as u128) * (size.1 as u128);
        if diff > area / 1000 {
            return Err(Error::ScaleMismatch);
        }
        assert(!scale_mismatch(size, target_size));
        let drop = level_drop(target_size.0, size.0, max_level);
        let level = max_level - drop;
        let scale = grid_side(drop);
        let rel_coords = (coords.0 / scale, coords.1 / scale);
        let rel_size = (size.0 / scale, size.1 / scale);
        let inner = self.read_region_level(rel_coords, rel_size, level);
        let ghost seen = inner;
        let r = match inner {
            Err(e) => Err(e),
            Ok(patch) => resample(patch, coords, target_size),
        };
        proof {
            assert(is_scaled_step(self, coords, size, target_size, drop as nat, seen, r));
        }
        r
    }

    /// Reads the whole image, scaled so that its longer side has
    /// `target_size` pixels.
    pub fn thumbnail(&self, target_size: u64) -> (r: Result<Patch, Error>)
        requires
            self.wf(),
            self.data.tile_size > 0,
            1 <= self.data.levels <= 32,
        ensures
            is_scaled_read(
                self,
                (0, 0),
                (self.data.width, self.data.height),
                (
                    thumbnail_side(self.data.width, target_size, larger_of(self.data.width, self.data.height)) as u64,
                    thumbnail_side(self.data.height, target_size, larger_of(self.data.width, self.data.height)) as u64,
                ),
                r,
            ),
    {
        let w = self.data.width;
        let h = self.data.height;
        let longer_side = if w >= h {
            w
        } else {
            h
        };
        let tx = scaled_side(w, target_size, longer_side);
        let ty = scaled_side(h, target_size, longer_side);
        self.read_region_scaled((0, 0), (w, h), (tx, ty))
    }
}

/// The larger of two numbers.
pub open spec fn larger_of(a: u64, b: u64) -> u64 {
    if a >= b {
        a
    } else {
        b
    }
}

/// The side of a thumbnail: `extent` scaled by `target` over `longer`,
/// rounded up.
pub fn scaled_side(extent: u64, target: u64, longer: u64) -> (r: u64)
    requires
        extent <= longer,
    ensures
        r == thumbnail_side(extent, target, longer),
        r <= target,
{
    if longer == 0 {
        return 0;
    }
    proof {
        assert(0 <= extent * target <= longer * target && longer * target <= 0xFFFF_FFFF_FFFF_FFFF
            * 0xFFFF_FFFF_FFFF_FFFF) by (nonlinear_arith)
            requires
                0 <= extent <= longer,
                0 <= target <= 0xFFFF_FFFF_FFFF_FFFF,
                longer <= 0xFFFF_FFFF_FFFF_FFFF,
        ;
        let num = extent * target + longer - 1;
        lemma_fundamental_div_mod(num, longer as int);
        lemma_mod_pos_bound(num, longer as int);
        assert(num / (longer as int) <= target) by (nonlinear_arith)
            requires
                num == longer * (num / (longer as int)) + num % (longer as int),
                0 <= num % (longer as int),
                num <= longer * target + longer - 1,
                longer > 0,
        ;
    }
    let num: u128 = (extent as u128) * (target as u128) + (longer as u128) - 1;
    (num / (longer as u128)) as u64
}

impl Database {
    /// Reads the rectangle of `size` pixels at `pos` of the finest level.
    pub fn read_region(&self, pos: (u64, u64), size: (u64, u64)) -> (r: Result<Patch, Error>)
        requires
            self.wf(),
            self.data.tile_size > 0,
            self.data.levels >= 1,
        ensures
            is_region_read(self, pos, size, (self.data.levels - 1) as u64, r),
    {
        self.read_region_level(pos, size, self.data.levels - 1)
    }

    /// Reads the rectangle of `size` pixels at `coords` of `level`.
    pub fn read_region_level(&self, coords: (u64, u64), size: (u64, u64), level: u64) -> (r: Result<
        Patch,
        Error,
    >)
        requires
            self.wf(),
            self.data.tile_size > 0,
        ensures
            is_region_read(self, coords, size, level, r),
    {
        let tile_size = self.data.tile_size;
        let ts: u128 = tile_size as u128;
        let start = (coords.0 / tile_size, coords.1 / tile_size);
        let end_x: u128 = (coords.0 as u128 + size.0 as u128 + ts - 1) / ts;
        let end_y: u128 = (coords.1 as u128 + size.1 as u128 + ts - 1) / ts;
        proof {
            lemma_div_is_ordered(coords.0 as int, coords.0 + size.0 + ts - 1, ts as int);
            lemma_div_is_ordered(coords.1 as int, coords.1 + size.1 + ts - 1, ts as int);
            assert(end_x == end_tile(coords.0, size.0, tile_size));
            assert(end_y == end_tile(coords.1, size.1, tile_size));
        }
        if end_x > u64::MAX as u128 || end_y > u64::MAX as u128 {
            return Err(Error::RegionTooLarge);
        }
        let count_x: u128 = end_x - start.0 as u128;
        let count_y: u128 = end_y - start.1 as u128;
        proof {
            assert(count_x * ts <= 0xFFFF_FFFF_FFFF_FFFF * 0xFFFF_FFFF_FFFF_FFFF) by (nonlinear_arith)
                requires
                    0 <= count_x <= 0xFFFF_FFFF_FFFF_FFFF,
                    0 <= ts <= 0xFFFF_FFFF_FFFF_FFFF,
            ;
            assert(count_y * ts <= 0xFFFF_FFFF_FFFF_FFFF * 0xFFFF_FFFF_FFFF_FFFF) by (nonlinear_arith)
                requires
                    0 <= count_y <= 0xFFFF_FFFF_FFFF_FFFF,
                    0 <= ts <= 0xFFFF_FFFF_FFFF_FFFF,
            ;
        }
        let wide: u128 = count_x * ts;
        let high: u128 = count_y * ts;
        if wide > u32::MAX as u128 || high > u32::MAX as u128 {
            return Err(Error::RegionTooLarge);
        }
        proof {
            assert(wide * high <= 0xFFFF_FFFF * 0xFFFF_FFFF) by (nonlinear_arith)
                requires
                    0 <= wide <= 0xFFFF_FFFF,
                    0 <= high <= 0xFFFF_FFFF,
            ;
            assert(3 * wide * high == 3 * (wide * high)) by (nonlinear_arith);
        }
        let bytes: u128 = 3 * (wide * high);
        if bytes > isize::MAX as u128 {
            return Err(Error::RegionTooLarge);
        }
        assert(region_fits(coords, size, tile_size));
        let end = (end_x as u64, end_y as u64);
        let width: u32 = wide as u32;
        let height: u32 = high as u32;
        let mut read_buffer = from_pixel(width, height, (255, 255, 255));
        let mut patch = Patch::new(coords, level);
        let tiles = match self.read_many(start, end, level) {
            Ok(t) => t,
            Err(e) => {
                return Err(e);
            },
        };
        proof {
            assert forall|x: u64, y: u64|
                in_range(x, y, start, end) && #[trigger] self.tiles().contains_key((x, y, level))
                    implies stored_image_check(self.tiles()[(x, y, level)], tile_size).is_ok() by {
                let j = choose|j: int| 0 <= j < tiles@.len() && (#[trigger] tiles@[j]).pos == (x, y);
                assert(tiles@[j].pos.0 == x && tiles@[j].pos.1 == y);
            }
        }
        if tiles.len() == 0 {
            proof {
                assert forall|x: u64, y: u64| in_range(x, y, start, end) implies !#[trigger] self.tiles().contains_key(
                    (x, y, level),
                ) by {
                    if self.tiles().contains_key((x, y, level)) {
                        let j = choose|j: int| 0 <= j < tiles@.len() && (#[trigger] tiles@[j]).pos == (x, y);
                    }
                }
            }
            return Ok(patch);
        }
        let mut n: usize = 0;
        while n < tiles.len()
            invariant
                n <= tiles@.len(),
                tile_size > 0,
                tile_size == self.data.tile_size,
                read_buffer.wf(),
                read_buffer.width == width,
                read_buffer.height == height,
                width == (end.0 - start.0) * tile_size,
                height == (end.1 - start.1) * tile_size,
                are_tiles_of(tiles@, self.tiles(), tile_size, start, end, level),
                forall|u: int, v: int|
                    0 <= u < width && 0 <= v < height ==> #[trigger] read_buffer.pixel(u, v) == painted(
                        tiles@,
                        start,
                        tile_size as int,
                        n as nat,
                        u,
                        v,
                    ),
            decreases tiles@.len() - n,
        {
            let tile = &tiles[n];
            let (x, y) = tile.pos;
            proof {
                assert(in_range(tile.pos.0, tile.pos.1, start, end));
                assert((x - start.0) * tile_size < (end.0 - start.0) * tile_size) by (nonlinear_arith)
                    requires
                        x - start.0 < end.0 - start.0,
                        tile_size > 0,
                ;
                assert((y - start.1) * tile_size < (end.1 - start.1) * tile_size) by (nonlinear_arith)
                    requires
                        y - start.1 < end.1 - start.1,
                        tile_size > 0,
                ;
                assert(0 <= (x - start.0) * tile_size && 0 <= (y - start.1) * tile_size)
                    by (nonlinear_arith)
                    requires
                        x - start.0 >= 0,
                        y - start.1 >= 0,
                        tile_size > 0,
                ;
            }
            let dx: u32 = ((x - start.0) * tile_size) as u32;
            let dy: u32 = ((y - start.1) * tile_size) as u32;
            match &tile.data {
                Some(img) => {
                    replace(&mut read_buffer, img, dx, dy);
                },
                None => {},
            }
            n += 1;
        }
        let crop_x: u64 = coords.0 % tile_size;
        let crop_y: u64 = coords.1 % tile_size;
        proof {
            let t = tile_size as int;
            lemma_fundamental_div_mod(coords.0 as int, t);
            lemma_fundamental_div_mod(coords.1 as int, t);
            lemma_fundamental_div_mod(coords.0 + size.0 + t - 1, t);
            lemma_fundamental_div_mod(coords.1 + size.1 + t - 1, t);
            lemma_mod_pos_bound(coords.0 + size.0 + t - 1, t);
            lemma_mod_pos_bound(coords.1 + size.1 + t - 1, t);
            assert(crop_x + size.0 <= width) by (nonlinear_arith)
                requires
                    width == (end.0 - start.0) * t,
                    coords.0 == t * (start.0 as int) + crop_x,
                    coords.0 + size.0 + t - 1 == t * (end.0 as int) + (coords.0 + size.0 + t - 1) % t,
                    0 <= (coords.0 + size.0 + t - 1) % t < t,
            ;
            assert(crop_y + size.1 <= height) by (nonlinear_arith)
                requires
                    height == (end.1 - start.1) * t,
                    coords.1 == t * (start.1 as int) + crop_y,
                    coords.1 + size.1 + t - 1 == t * (end.1 as int) + (coords.1 + size.1 + t - 1) % t,
                    0 <= (coords.1 + size.1 + t - 1) % t < t,
            ;
        }
        let ghost canvas = read_buffer;
        let cropped = crop(read_buffer, crop_x as u32, crop_y as u32, size.0 as u32, size.1 as u32);
        proof {
            let t = tile_size as int;
            let all = self.tiles();
            assert forall|i: int, j: int| 0 <= i < size.0 && 0 <= j < size.1 implies #[trigger] cropped.pixel(
                i,
                j,
            ) == region_pixel(all, tile_size, level, coords.0 + i, coords.1 + j) by {
                let u = crop_x + i;
                let v = crop_y + j;
                assert(cropped.pixel(i, j) == canvas.pixel(u, v));
                assert(canvas.pixel(u, v) == painted(tiles@, start, t, tiles@.len(), u, v));
                lemma_painted(tiles@, start, t, tiles@.len(), u, v);
                lemma_fundamental_div_mod(coords.0 as int, t);
                lemma_fundamental_div_mod(coords.1 as int, t);
                assert(start.0 * t + u == coords.0 + i) by (nonlinear_arith)
                    requires
                        coords.0 == t * (start.0 as int) + crop_x,
                        u == crop_x + i,
                ;
                assert(start.1 * t + v == coords.1 + j) by (nonlinear_arith)
                    requires
                        coords.1 == t * (start.1 as int) + crop_y,
                        v == crop_y + j,
                ;
                lemma_shift(t, start.0 as int, u);
                lemma_shift(t, start.1 as int, v);
                lemma_cell(t, u / t, u);
                lemma_cell(t, v / t, v);
                let kx = start.0 + u / t;
                let ky = start.1 + v / t;
                assert(u / t < end.0 - start.0) by (nonlinear_arith)
                    requires
                        (u / t) * t <= u,
                        u < (end.0 - start.0) * t,
                        t > 0,
                ;
                assert(v / t < end.1 - start.1) by (nonlinear_arith)
                    requires
                        (v / t) * t <= v,
                        v < (end.1 - start.1) * t,
                        t > 0,
                ;
                assert(0 <= u / t && 0 <= v / t);
                let k: Key = (kx as u64, ky as u64, level);
                assert(in_range(k.0, k.1, start, end));
                if all.contains_key(k) {
                    let q = choose|q: int| 0 <= q < tiles@.len() && (#[trigger] tiles@[q]).pos == (k.0, k.1);
                    assert(tiles@[q].pos.0 == kx && tiles@[q].pos.1 == ky);
                } else {
                    assert forall|q: int| 0 <= q < tiles@.len() implies !((#[trigger] tiles@[q]).pos.0 == kx
                        && tiles@[q].pos.1 == ky) by {
                        if tiles@[q].pos.0 == kx && tiles@[q].pos.1 == ky {
                            assert(all.contains_key((tiles@[q].pos.0, tiles@[q].pos.1, level)));
                        }
                    }
                }
            }
            assert(in_range(tiles@[0].pos.0, tiles@[0].pos.1, start, end));
            assert(all.contains_key((tiles@[0].pos.0, tiles@[0].pos.1, level)));
        }
        patch.set_image(cropped);
        Ok(patch)
    }
}

} // verus!
