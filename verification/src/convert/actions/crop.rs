//! The cropper: the finest level is moved so that its occupied part starts
//! at the origin, and the pyramid is given the depth that part needs.

use crate::convert::actions::remove_islands::{
    bounds, finest, is_bounding_box, lists_level, Node,
};
use crate::database::database::{
    distinct_keys, has_row, lemma_row_is_entry, tiles_of, Database, Key, TileRow,
};
use crate::database::meta::{decimal_of, entries_of, meta_set, write_u64};
use crate::error::Error;
use crate::quadtree::side;
use vstd::prelude::*;

verus! {

/// Whether `k` is the smallest depth whose grid is at least `n` tiles wide:
/// the logarithm of `n` to the base two, rounded up.
pub open spec fn is_ceil_log2(k: nat, n: nat) -> bool {
    side(k) >= n && (k == 0 || side((k - 1) as nat) < n)
}

proof fn lemma_side_exceeds(k: nat)
    ensures
        side(k) >= 2 * k,
        side(k) >= 1,
    decreases k,
{
    if k > 0 {
        lemma_side_exceeds((k - 1) as nat);
        if k == 1 {
            assert(side(1) == 2 * side(0));
        }
    }
}

/// The logarithm of `n` to the base two, rounded up.
pub fn ceil_log2(n: u128) -> (k: u64)
    requires
        1 <= n <= 0x1_0000_0000_0000_0000,
    ensures
        is_ceil_log2(k as nat, n as nat),
        k < u64::MAX,
{
    let mut k: u64 = 0;
    let mut p: u128 = 1;
    while p < n
        invariant
            1 <= n <= 0x1_0000_0000_0000_0000,
            p == side(k as nat),
            k == 0 || side((k - 1) as nat) < n,
            p >= 1,
            k <= 0x8000_0000_0000_0000,
            p <= 0x2_0000_0000_0000_0000,
        decreases 0x2_0000_0000_0000_0000 - p,
    {
        proof {
            lemma_side_exceeds(k as nat);
        }
        p = p * 2;
        k = k + 1;
    }
    proof {
        if k > 0 {
            lemma_side_exceeds((k - 1) as nat);
        }
    }
    k
}

/// The key under which a row is kept when the tiles of `level` move by
/// `(dx, dy)` to `new_level`; a tile that was at `new_level` before is
/// not kept.
pub open spec fn moved_key(k: Key, level: u64, dx: u64, dy: u64, new_level: u64) -> Option<Key> {
    if k.2 == level {
        Some(((k.0 - dx) as u64, (k.1 - dy) as u64, new_level))
    } else if k.2 == new_level {
        None
    } else {
        Some(k)
    }
}

/// The stored tiles after the tiles of `level` have moved by `(dx, dy)` to
/// `new_level`. Tiles of other levels stay, but for those that were at
/// `new_level` before: they give way.
pub open spec fn moved(tiles: Map<Key, Seq<u8>>, level: u64, dx: u64, dy: u64, new_level: u64) -> Map<
    Key,
    Seq<u8>,
> {
    Map::new(
        |k: Key|
            if k.2 == new_level {
                k.0 + dx <= u64::MAX && k.1 + dy <= u64::MAX && tiles.contains_key(
                    ((k.0 + dx) as u64, (k.1 + dy) as u64, level),
                )
            } else {
                k.2 != level && tiles.contains_key(k)
            },
        |k: Key|
            if k.2 == new_level {
                tiles[((k.0 + dx) as u64, (k.1 + dy) as u64, level)]
            } else {
                tiles[k]
            },
    )
}

/// Whether `lo` and `hi` are the corners of the bounding box of the
/// positions of `level` that hold a tile.
pub open spec fn is_extent(tiles: Map<Key, Seq<u8>>, level: u64, lo: Node, hi: Node) -> bool {
    exists|graph: Seq<Node>| lists_level(graph, tiles, level) && #[trigger] is_bounding_box(graph, lo, hi)
}

/// The smallest and the largest column and row of the finest level that
/// hold a tile, as `(min_x, max_x, min_y, max_y)`; a level without tiles
/// has none.
pub fn edges(db: &Database) -> (r: Result<(u64, u64, u64, u64), Error>)
    requires
        db.wf(),
        db.data.levels >= 1,
    ensures
        match r {
            Ok(e) => is_extent(db.tiles(), finest(db.data.levels), (e.0, e.2), (e.1, e.3)),
            Err(e) => e == Error::NoTiles && forall|x: u64, y: u64|
                !db.tiles().contains_key((x, y, finest(db.data.levels))),
        },
{
    let level = db.data.levels - 1;
    let positions = db.list_tiles(level);
    if positions.len() == 0 {
        proof {
            assert forall|x: u64, y: u64| !db.tiles().contains_key((x, y, level)) by {
                if db.tiles().contains_key((x, y, level)) {
                    assert(positions@.contains((x, y)));
                }
            }
        }
        return Err(Error::NoTiles);
    }
    let (lo, hi) = bounds(&positions);
    let e = (lo.0, hi.0, lo.1, hi.1);
    proof {
        assert(lists_level(positions@, db.tiles(), finest(db.data.levels)));
        assert((e.0, e.2) == lo && (e.1, e.3) == hi);
        assert(is_bounding_box(positions@, (e.0, e.2), (e.1, e.3)));
    }
    Ok(e)
}

/// Moves every tile of the finest level by `(dx, dy)` towards the origin
/// and to `new_level`.
fn move_tiles(db: &mut Database, dx: u64, dy: u64, new_level: u64)
    requires
        old(db).wf(),
        old(db).data.levels >= 1,
        forall|x: u64, y: u64|
            old(db).tiles().contains_key((x, y, finest(old(db).data.levels))) ==> dx <= x && dy <= y,
    ensures
        final(db).wf(),
        final(db).data == old(db).data,
        final(db).writeable == old(db).writeable,
        final(db).meta == old(db).meta,
        final(db).tiles() == moved(old(db).tiles(), finest(old(db).data.levels), dx, dy, new_level),
{
    let level = db.data.levels - 1;
    let ghost rows0 = db.rows@;
    proof {
        assert(level == finest(db.data.levels));
        assert forall|i: int| 0 <= i < rows0.len() && rows0[i].level == level implies dx <= (
        #[trigger] rows0[i]).x && dy <= rows0[i].y by {
            lemma_row_is_entry(rows0, i);
            assert(rows0[i].key() == (rows0[i].x, rows0[i].y, finest(db.data.levels)));
            assert(db.tiles().contains_key((rows0[i].x, rows0[i].y, finest(db.data.levels))));
        }
    }
    let mut src: Vec<TileRow> = Vec::new();
    std::mem::swap(&mut src, &mut db.rows);
    let mut out: Vec<TileRow> = Vec::new();
    let ghost origin: Seq<int> = Seq::empty();
    let ghost place: Map<int, int> = Map::empty();
    while src.len() > 0
        invariant
            src@.len() <= rows0.len(),
            src@ == rows0.subrange(0, src@.len() as int),
            distinct_keys(rows0),
            origin.len() == out@.len(),
            forall|i: int|
                0 <= i < rows0.len() && rows0[i].level == level ==> dx <= (#[trigger] rows0[i]).x && dy
                    <= rows0[i].y,
            forall|j: int|
                0 <= j < out@.len() ==> src@.len() <= (#[trigger] origin[j]) < rows0.len()
                    && place.contains_key(origin[j]) && place[origin[j]] == j,
            forall|j: int|
                0 <= j < out@.len() ==> moved_key(rows0[origin[j]].key(), level, dx, dy, new_level) == Some(
                    (#[trigger] out@[j]).key(),
                ) && out@[j].jpeg@ == rows0[origin[j]].jpeg@,
            forall|i: int|
                src@.len() <= i < rows0.len() && moved_key(
                    (#[trigger] rows0[i]).key(),
                    level,
                    dx,
                    dy,
                    new_level,
                ).is_some() ==> place.contains_key(i) && 0 <= place[i] < out@.len() && origin[place[i]] == i,
        decreases src@.len(),
    {
        let ghost n = (src@.len() - 1) as int;
        let ghost last = out@.len() as int;
        let row = src.pop().unwrap();
        assert(row == rows0[n]);
        if row.level == level {
            let shifted = TileRow { x: row.x - dx, y: row.y - dy, level: new_level, jpeg: row.jpeg };
            out.push(shifted);
            proof {
                origin = origin.push(n);
                place = place.insert(n, last);
            }
        } else if row.level != new_level {
            out.push(row);
            proof {
                origin = origin.push(n);
                place = place.insert(n, last);
            }
        }
        proof {
            assert(src@ =~= rows0.subrange(0, n));
        }
    }
    db.rows = out;
    proof {
        lemma_moved(rows0, db.rows@, origin, place, level, dx, dy, new_level);
    }
}

/// Rows that are the moved rows of `rows0`, each once, hold the moved tiles.
proof fn lemma_moved(
    rows0: Seq<TileRow>,
    after: Seq<TileRow>,
    origin: Seq<int>,
    place: Map<int, int>,
    level: u64,
    dx: u64,
    dy: u64,
    new_level: u64,
)
    requires
        distinct_keys(rows0),
        origin.len() == after.len(),
        forall|i: int|
            0 <= i < rows0.len() && rows0[i].level == level ==> dx <= (#[trigger] rows0[i]).x && dy
                <= rows0[i].y,
        forall|j: int|
            0 <= j < after.len() ==> 0 <= (#[trigger] origin[j]) < rows0.len() && place.contains_key(
                origin[j],
            ) && place[origin[j]] == j,
        forall|j: int|
            0 <= j < after.len() ==> moved_key(rows0[origin[j]].key(), level, dx, dy, new_level) == Some(
                (#[trigger] after[j]).key(),
            ) && after[j].jpeg@ == rows0[origin[j]].jpeg@,
        forall|i: int|
            0 <= i < rows0.len() && moved_key((#[trigger] rows0[i]).key(), level, dx, dy, new_level).is_some()
                ==> place.contains_key(i) && 0 <= place[i] < after.len() && origin[place[i]] == i,
    ensures
        distinct_keys(after),
        tiles_of(after) == moved(tiles_of(rows0), level, dx, dy, new_level),
{
    assert forall|a: int, b: int| 0 <= a < after.len() && 0 <= b < after.len() && a != b implies (
    #[trigger] after[a]).key() != (#[trigger] after[b]).key() by {
        let ia = origin[a];
        let ib = origin[b];
        assert(ia != ib);
        assert(rows0[ia].key() != rows0[ib].key());
    }
    let want = moved(tiles_of(rows0), level, dx, dy, new_level);
    assert forall|k: Key| #[trigger] tiles_of(after).contains_key(k) implies want.contains_key(k)
        && tiles_of(after)[k] == want[k] by {
        let j = choose|j: int| 0 <= j < after.len() && (#[trigger] after[j]).key() == k;
        lemma_row_is_entry(after, j);
        let i = origin[j];
        lemma_row_is_entry(rows0, i);
    }
    assert forall|k: Key| #[trigger] want.contains_key(k) implies tiles_of(after).contains_key(k) by {
        let from: Key = if k.2 == new_level {
            ((k.0 + dx) as u64, (k.1 + dy) as u64, level)
        } else {
            k
        };
        assert(has_row(rows0, from));
        let i = choose|i: int| 0 <= i < rows0.len() && (#[trigger] rows0[i]).key() == from;
        assert(moved_key(rows0[i].key(), level, dx, dy, new_level) == Some(k));
        let j = place[i];
        assert(after[j].key() == k);
    }
    assert(tiles_of(after) =~= want);
}

/// The number of tiles from `lo` to `hi`, both counted.
pub open spec fn count(lo: u64, hi: u64) -> int {
    hi - lo + 1
}

/// The larger of two numbers.
pub open spec fn larger(a: int, b: int) -> int {
    if a >= b {
        a
    } else {
        b
    }
}

/// What cropping does to a store whose finest level holds tiles in the
/// bounding box from `lo` to `hi`. The pyramid gets the depth `new_level +
/// 1` that the longer side of the box needs, the size of the box in pixels,
/// and the tiles of the finest level moved to the origin of `new_level`.
/// A size that does not fit, or a read-only store, is an error that changes
/// nothing.
pub open spec fn crop_result(
    before: &Database,
    after: &Database,
    r: Result<(), Error>,
    lo: Node,
    hi: Node,
    new_level: u64,
) -> bool {
    let level = finest(before.data.levels);
    let size = before.data.tile_size;
    let width = count(lo.0, hi.0) * size;
    let height = count(lo.1, hi.1) * size;
    &&& is_extent(before.tiles(), level, lo, hi)
    &&& is_ceil_log2(new_level as nat, larger(count(lo.0, hi.0), count(lo.1, hi.1)) as nat)
    &&& if width > u64::MAX || height > u64::MAX {
        r == Err::<(), Error>(Error::RegionTooLarge) && after.tiles() == before.tiles() && after.data
            == before.data && after.meta == before.meta
    } else if !before.writeable {
        r == Err::<(), Error>(Error::ReadOnly) && after.tiles() == before.tiles() && after.data
            == before.data && after.meta == before.meta
    } else {
        &&& r == Ok::<(), Error>(())
        &&& after.tiles() == moved(before.tiles(), level, lo.0, lo.1, new_level)
        &&& after.data.levels == new_level + 1
        &&& after.data.width == width
        &&& after.data.height == height
        &&& after.data.tile_size == before.data.tile_size
        &&& after.data.x_ppm == before.data.x_ppm
        &&& after.data.y_ppm == before.data.y_ppm
        &&& entries_of(after.meta@) == meta_set(
            meta_set(
                meta_set(entries_of(before.meta@), "levels"@, decimal_of((new_level + 1) as u64)),
                "width"@,
                decimal_of(width as u64),
            ),
            "height"@,
            decimal_of(height as u64),
        )
    }
}

/// What cropping does to a store: nothing where the finest level holds no
/// tile, and otherwise what `crop_result` says for the bounding box of its
/// tiles.
pub open spec fn cropped(before: &Database, after: &Database, r: Result<(), Error>) -> bool {
    if forall|x: u64, y: u64| !before.tiles().contains_key((x, y, finest(before.data.levels))) {
        r == Ok::<(), Error>(()) && after.tiles() == before.tiles() && after.data == before.data
            && after.meta == before.meta
    } else {
        exists|lo: Node, hi: Node, new_level: u64| #[trigger]
            crop_result(before, after, r, lo, hi, new_level)
    }
}

/// Shrinks the pyramid to the part of the finest level that holds tiles.
pub fn crop(db: &mut Database) -> (r: Result<(), Error>)
    requires
        old(db).wf(),
        old(db).data.levels >= 1,
    ensures
        final(db).wf(),
        final(db).writeable == old(db).writeable,
        cropped(old(db), final(db), r),
{
    let tile_size = db.data.tile_size;
    let (min_x, max_x, min_y, max_y) = match edges(db) {
        Ok(e) => e,
        Err(_) => {
            return Ok(());
        },
    };
    let ghost lo: Node = (min_x, min_y);
    let ghost hi: Node = (max_x, max_y);
    let ghost level = finest(db.data.levels);
    let ghost graph = choose|graph: Seq<Node>|
        lists_level(graph, db.tiles(), level) && #[trigger] is_bounding_box(graph, lo, hi);
    proof {
        assert(is_extent(db.tiles(), level, lo, hi));
        let i = choose|i: int| 0 <= i < graph.len() && (#[trigger] graph[i]).0 == lo.0;
        assert(graph.contains(graph[i]));
        assert(db.tiles().contains_key((graph[i].0, graph[i].1, level)));
        assert forall|x: u64, y: u64| db.tiles().contains_key((x, y, level)) implies min_x <= x && min_y
            <= y by {
            assert(graph.contains((x, y)));
            let j = choose|j: int| 0 <= j < graph.len() && graph[j] == (x, y);
            assert(lo.0 <= graph[j].0);
        }
    }
    let count_x: u128 = (max_x - min_x) as u128 + 1;
    let count_y: u128 = (max_y - min_y) as u128 + 1;
    let tree_size: u128 = if count_x >= count_y {
        count_x
    } else {
        count_y
    };
    let new_level = ceil_log2(tree_size);
    proof {
        assert(count_x * (tile_size as u128) <= 0x1_0000_0000_0000_0000 * 0xFFFF_FFFF_FFFF_FFFF)
            by (nonlinear_arith)
            requires
                count_x <= 0x1_0000_0000_0000_0000,
                tile_size <= 0xFFFF_FFFF_FFFF_FFFF,
        ;
        assert(count_y * (tile_size as u128) <= 0x1_0000_0000_0000_0000 * 0xFFFF_FFFF_FFFF_FFFF)
            by (nonlinear_arith)
            requires
                count_y <= 0x1_0000_0000_0000_0000,
                tile_size <= 0xFFFF_FFFF_FFFF_FFFF,
        ;
    }
    let width: u128 = count_x * (tile_size as u128);
    let height: u128 = count_y * (tile_size as u128);
    if width > u64::MAX as u128 || height > u64::MAX as u128 {
        proof {
            assert(crop_result(old(db), db, Err::<(), Error>(Error::RegionTooLarge), lo, hi, new_level));
        }
        return Err(Error::RegionTooLarge);
    }
    if !db.writeable {
        proof {
            assert(crop_result(old(db), db, Err::<(), Error>(Error::ReadOnly), lo, hi, new_level));
        }
        return Err(Error::ReadOnly);
    }
    move_tiles(db, min_x, min_y, new_level);
    db.data.levels = new_level + 1;
    db.data.width = width as u64;
    db.data.height = height as u64;
    write_u64(&mut db.meta, "levels", new_level + 1);
    write_u64(&mut db.meta, "width", width as u64);
    write_u64(&mut db.meta, "height", height as u64);
    proof {
        assert(crop_result(old(db), db, Ok::<(), Error>(()), lo, hi, new_level));
    }
    Ok(())
}

/// After a crop the occupied part of the finest level starts at the
/// origin: some tile lies in column 0, some tile lies in row 0, and every
/// tile lies inside the grid of the new finest level.
pub proof fn lemma_crop_origin(tiles: Map<Key, Seq<u8>>, level: u64, lo: Node, hi: Node, new_level: u64)
    requires
        is_extent(tiles, level, lo, hi),
        is_ceil_log2(new_level as nat, larger(count(lo.0, hi.0), count(lo.1, hi.1)) as nat),
    ensures
        exists|y: u64| #[trigger] moved(tiles, level, lo.0, lo.1, new_level).contains_key((0, y, new_level)),
        exists|x: u64| #[trigger] moved(tiles, level, lo.0, lo.1, new_level).contains_key((x, 0, new_level)),
        forall|x: u64, y: u64| #[trigger]
            moved(tiles, level, lo.0, lo.1, new_level).contains_key((x, y, new_level)) ==> x < side(
                new_level as nat,
            ) && y < side(new_level as nat),
{
    let m = moved(tiles, level, lo.0, lo.1, new_level);
    let graph = choose|graph: Seq<Node>| lists_level(graph, tiles, level) && #[trigger] is_bounding_box(graph, lo, hi);
    let a = choose|i: int| 0 <= i < graph.len() && (#[trigger] graph[i]).0 == lo.0;
    let c = choose|i: int| 0 <= i < graph.len() && (#[trigger] graph[i]).1 == lo.1;
    assert(graph.contains(graph[a]) && graph.contains(graph[c]));
    assert(tiles.contains_key((graph[a].0, graph[a].1, level)));
    assert(tiles.contains_key((graph[c].0, graph[c].1, level)));
    let ya = (graph[a].1 - lo.1) as u64;
    let xc = (graph[c].0 - lo.0) as u64;
    assert(m.contains_key((0, ya, new_level)));
    assert(m.contains_key((xc, 0, new_level)));
    assert forall|x: u64, y: u64| #[trigger] m.contains_key((x, y, new_level)) implies x < side(
        new_level as nat,
    ) && y < side(new_level as nat) by {
        let from: Node = ((x + lo.0) as u64, (y + lo.1) as u64);
        assert(tiles.contains_key((from.0, from.1, level)));
        assert(graph.contains(from));
        let j = choose|j: int| 0 <= j < graph.len() && graph[j] == from;
        assert(graph[j].0 <= hi.0 && graph[j].1 <= hi.1);
    }
}

} // verus!
