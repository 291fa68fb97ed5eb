//! Reading, writing, deleting and listing the tiles of a store.

use crate::database::database::{has_row, lemma_row_is_entry, tiles_of, Database, Key, TileRow};
use crate::error::Error;
use crate::raster::decoded_of;
use crate::types::tile::{stored_image_check, Tile};
use vstd::prelude::*;

verus! {

/// Whether `t` is the tile at `k` with the image that `bytes` decode to.
pub open spec fn is_decoded_tile(t: Tile, k: Key, size: u64, bytes: Seq<u8>) -> bool {
    &&& t.pos == (k.0, k.1)
    &&& t.level == k.2
    &&& t.size == size
    &&& t.wf()
    &&& t.data.is_some()
    &&& decoded_of(bytes) == Some((t.data.unwrap().width, t.data.unwrap().height, t.data.unwrap().data@))
}

/// Whether `(x, y)` lies in the rectangle from `start` up to, and without, `end`.
pub open spec fn in_range(x: u64, y: u64, start: (u64, u64), end: (u64, u64)) -> bool {
    start.0 <= x < end.0 && start.1 <= y < end.1
}

impl Database {
    /// Reads the tile at `pos` of `level`. A position that holds nothing
    /// gives an empty tile; stored bytes that do not decode to an image of
    /// the tile size are an error.
    pub fn read(&self, pos: (u64, u64), level: u64) -> (r: Result<Tile, Error>)
        requires
            self.wf(),
        ensures
            !self.tiles().contains_key((pos.0, pos.1, level)) ==> r.is_ok() && r.unwrap().data.is_none()
                && r.unwrap().pos == pos && r.unwrap().level == level && r.unwrap().size
                == self.data.tile_size,
            self.tiles().contains_key((pos.0, pos.1, level)) ==> match r {
                Ok(t) => stored_image_check(self.tiles()[(pos.0, pos.1, level)], self.data.tile_size).is_ok()
                    && is_decoded_tile(
                    t,
                    (pos.0, pos.1, level),
                    self.data.tile_size,
                    self.tiles()[(pos.0, pos.1, level)],
                ),
                Err(e) => stored_image_check(self.tiles()[(pos.0, pos.1, level)], self.data.tile_size)
                    == Err::<(), Error>(e),
            },
    {
        let mut tile = Tile::new(pos, level, self.data.tile_size);
        match self.find(pos, level) {
            None => Ok(tile),
            Some(i) => {
                proof {
                    lemma_row_is_entry(self.rows@, i as int);
                }
                let bytes = self.rows[i].jpeg.clone();
                match tile.set_data(bytes) {
                    Ok(()) => Ok(tile),
                    Err(e) => Err(e),
                }
            },
        }
    }

    /// Stores a tile under its position and level, in place of what was
    /// there. An empty tile is not stored.
    pub fn write(&mut self, tile: &Tile) -> (r: Result<(), Error>)
        requires
            old(self).wf(),
            tile.wf(),
        ensures
            final(self).wf(),
            final(self).data == old(self).data,
            final(self).writeable == old(self).writeable,
            final(self).meta == old(self).meta,
            r == write_result(tile, old(self).writeable),
            final(self).tiles() == written(old(self).tiles(), tile, old(self).writeable),
    {
        if tile.is_empty() {
            return Ok(());
        }
        if !self.writeable {
            return Err(Error::ReadOnly);
        }
        let bytes = match tile.data() {
            Ok(b) => b,
            Err(_) => {
                return Err(Error::Encode);
            },
        };
        let ghost before = self.rows@;
        let ghost k: Key = (tile.pos.0, tile.pos.1, tile.level);
        let row = TileRow { x: tile.pos.0, y: tile.pos.1, level: tile.level, jpeg: bytes };
        match self.find(tile.pos, tile.level) {
            Some(i) => {
                self.rows.set(i, row);
                proof {
                    let after = self.rows@;
                    assert forall|a: int, b: int|
                        0 <= a < after.len() && 0 <= b < after.len() && a != b implies (
                    #[trigger] after[a]).key() != (#[trigger] after[b]).key() by {
                        assert(before[a].key() == after[a].key());
                        assert(before[b].key() == after[b].key());
                    }
                    assert forall|q: Key| #[trigger]
                        tiles_of(after).contains_key(q) == tiles_of(before).insert(
                            k,
                            bytes@,
                        ).contains_key(q) by {
                        if has_row(after, q) {
                            let a = choose|a: int| 0 <= a < after.len() && (#[trigger] after[a]).key() == q;
                            assert(before[a].key() == q);
                        }
                        if has_row(before, q) {
                            let a = choose|a: int|
                                0 <= a < before.len() && (#[trigger] before[a]).key() == q;
                            assert(after[a].key() == q);
                        }
                        if q == k {
                            assert(after[i as int].key() == q);
                        }
                    }
                    assert forall|q: Key| #[trigger] tiles_of(after).contains_key(q) implies tiles_of(
                        after,
                    )[q] == tiles_of(before).insert(k, bytes@)[q] by {
                        let a = choose|a: int| 0 <= a < after.len() && (#[trigger] after[a]).key() == q;
                        lemma_row_is_entry(after, a);
                        if a != i {
                            assert(before[a].key() == q);
                            lemma_row_is_entry(before, a);
                        }
                    }
                    assert(tiles_of(after) =~= tiles_of(before).insert(k, bytes@));
                }
            },
            None => {
                self.rows.push(row);
                proof {
                    let after = self.rows@;
                    let n = before.len() as int;
                    assert forall|a: int, b: int|
                        0 <= a < after.len() && 0 <= b < after.len() && a != b implies (
                    #[trigger] after[a]).key() != (#[trigger] after[b]).key() by {
                        if a < n {
                            assert(before[a].key() == after[a].key());
                        }
                        if b < n {
                            assert(before[b].key() == after[b].key());
                        }
                    }
                    assert forall|q: Key| #[trigger]
                        tiles_of(after).contains_key(q) == tiles_of(before).insert(
                            k,
                            bytes@,
                        ).contains_key(q) by {
                        if has_row(after, q) {
                            let a = choose|a: int| 0 <= a < after.len() && (#[trigger] after[a]).key() == q;
                            if a < n {
                                assert(before[a].key() == q);
                            }
                        }
                        if has_row(before, q) {
                            let a = choose|a: int|
                                0 <= a < before.len() && (#[trigger] before[a]).key() == q;
                            assert(after[a].key() == q);
                        }
                        if q == k {
                            assert(after[n].key() == q);
                        }
                    }
                    assert forall|q: Key| #[trigger] tiles_of(after).contains_key(q) implies tiles_of(
                        after,
                    )[q] == tiles_of(before).insert(k, bytes@)[q] by {
                        let a = choose|a: int| 0 <= a < after.len() && (#[trigger] after[a]).key() == q;
                        lemma_row_is_entry(after, a);
                        if a < n {
                            assert(before[a].key() == q);
                            lemma_row_is_entry(before, a);
                        }
                    }
                    assert(tiles_of(after) =~= tiles_of(before).insert(k, bytes@));
                }
            },
        }
        Ok(())
    }

    /// Removes the tile at `pos` of `level`, if there is one.
    pub fn delete(&mut self, pos: (u64, u64), level: u64) -> (r: Result<(), Error>)
        requires
            old(self).wf(),
        ensures
            final(self).wf(),
            final(self).data == old(self).data,
            final(self).writeable == old(self).writeable,
            final(self).meta == old(self).meta,
            old(self).writeable ==> r == Ok::<(), Error>(()) && final(self).tiles() == old(self).tiles().remove((pos.0, pos.1, level)),
            !old(self).writeable ==> r == Err::<(), Error>(Error::ReadOnly) && final(self).tiles()
                == old(self).tiles(),
    {
        if !self.writeable {
            return Err(Error::ReadOnly);
        }
        let ghost before = self.rows@;
        let ghost k: Key = (pos.0, pos.1, level);
        match self.find(pos, level) {
            Some(i) => {
                self.rows.remove(i);
                proof {
                    let after = self.rows@;
                    let shift = |a: int| if a < i { a } else { a + 1 };
                    assert forall|a: int| 0 <= a < after.len() implies #[trigger] after[a] == before[shift(
                        a,
                    )] by {}
                    assert forall|a: int, b: int|
                        0 <= a < after.len() && 0 <= b < after.len() && a != b implies (
                    #[trigger] after[a]).key() != (#[trigger] after[b]).key() by {
                        assert(after[a] == before[shift(a)]);
                        assert(after[b] == before[shift(b)]);
                    }
                    assert forall|q: Key| #[trigger]
                        tiles_of(after).contains_key(q) == tiles_of(before).remove(k).contains_key(
                            q,
                        ) by {
                        if has_row(after, q) {
                            let a = choose|a: int| 0 <= a < after.len() && (#[trigger] after[a]).key() == q;
                            assert(after[a] == before[shift(a)]);
                            assert(before[shift(a)].key() == q);
                            assert(before[i as int].key() == k);
                        }
                        if has_row(before, q) && q != k {
                            let a = choose|a: int|
                                0 <= a < before.len() && (#[trigger] before[a]).key() == q;
                            let b = if a < i { a } else { a - 1 };
                            assert(after[b] == before[shift(b)]);
                            assert(after[b].key() == q);
                        }
                    }
                    assert forall|q: Key| #[trigger] tiles_of(after).contains_key(q) implies tiles_of(
                        after,
                    )[q] == tiles_of(before).remove(k)[q] by {
                        let a = choose|a: int| 0 <= a < after.len() && (#[trigger] after[a]).key() == q;
                        lemma_row_is_entry(after, a);
                        assert(after[a] == before[shift(a)]);
                        lemma_row_is_entry(before, shift(a));
                    }
                    assert(tiles_of(after) =~= tiles_of(before).remove(k));
                }
            },
            None => {
                proof {
                    assert(tiles_of(before) =~= tiles_of(before).remove(k));
                }
            },
        }
        Ok(())
    }

    /// The positions of `level` that hold a tile, each once.
    pub fn list_tiles(&self, level: u64) -> (r: Vec<(u64, u64)>)
        requires
            self.wf(),
        ensures
            r@.no_duplicates(),
            forall|x: u64, y: u64| r@.contains((x, y)) <==> self.tiles().contains_key((x, y, level)),
    {
        let mut out: Vec<(u64, u64)> = Vec::new();
        let mut i: usize = 0;
        while i < self.rows.len()
            invariant
                i <= self.rows@.len(),
                self.wf(),
                out@.no_duplicates(),
                forall|x: u64, y: u64|
                    out@.contains((x, y)) <==> exists|j: int|
                        0 <= j < i && (#[trigger] self.rows@[j]).key() == (x, y, level),
            decreases self.rows@.len() - i,
        {
            let row = &self.rows[i];
            let ghost prev = out@;
            if row.level == level {
                proof {
                    if prev.contains((row.x, row.y)) {
                        let j = choose|j: int|
                            0 <= j < i && (#[trigger] self.rows@[j]).key() == (row.x, row.y, level);
                        assert(self.rows@[i as int].key() == (row.x, row.y, level));
                        assert(false);
                    }
                }
                out.push((row.x, row.y));
                proof {
                    assert forall|x: u64, y: u64| out@.contains((x, y)) <==> exists|j: int|
                        0 <= j < i + 1 && (#[trigger] self.rows@[j]).key() == (x, y, level) by {
                        if out@.contains((x, y)) {
                            let a = choose|a: int| 0 <= a < out@.len() && out@[a] == (x, y);
                            if a < prev.len() {
                                assert(prev[a] == (x, y));
                                assert(prev.contains((x, y)));
                                let j = choose|j: int|
                                    0 <= j < i && (#[trigger] self.rows@[j]).key() == (x, y, level);
                                assert(0 <= j < i + 1);
                            } else {
                                assert(self.rows@[i as int].key() == (x, y, level));
                            }
                        }
                        if exists|j: int|
                            0 <= j < i + 1 && (#[trigger] self.rows@[j]).key() == (x, y, level) {
                            let j = choose|j: int|
                                0 <= j < i + 1 && (#[trigger] self.rows@[j]).key() == (x, y, level);
                            if j < i {
                                assert(prev.contains((x, y)));
                                let a = choose|a: int| 0 <= a < prev.len() && prev[a] == (x, y);
                                assert(out@[a] == (x, y));
                            } else {
                                assert(out@[prev.len() as int] == (x, y));
                            }
                        }
                    }
                }
            } else {
                proof {
                    assert forall|x: u64, y: u64| out@.contains((x, y)) <==> exists|j: int|
                        0 <= j < i + 1 && (#[trigger] self.rows@[j]).key() == (x, y, level) by {
                        if exists|j: int|
                            0 <= j < i + 1 && (#[trigger] self.rows@[j]).key() == (x, y, level) {
                            let j = choose|j: int|
                                0 <= j < i + 1 && (#[trigger] self.rows@[j]).key() == (x, y, level);
                            assert(j < i);
                        }
                        if out@.contains((x, y)) {
                            let j = choose|j: int|
                                0 <= j < i && (#[trigger] self.rows@[j]).key() == (x, y, level);
                            assert(0 <= j < i + 1);
                        }
                    }
                }
            }
            i += 1;
        }
        out
    }
}

/// The result of writing `tile`: an empty tile is passed over, a read-only
/// store refuses, and an image that cannot be encoded is an error.
pub open spec fn write_result(tile: &Tile, writeable: bool) -> Result<(), Error> {
    if tile.data.is_none() {
        Ok(())
    } else if !writeable {
        Err(Error::ReadOnly)
    } else if tile.encoding().is_none() {
        Err(Error::Encode)
    } else {
        Ok(())
    }
}

/// The stored tiles after writing `tile`.
pub open spec fn written(tiles: Map<Key, Seq<u8>>, tile: &Tile, writeable: bool) -> Map<Key, Seq<u8>> {
    if tile.data.is_some() && writeable && tile.encoding().is_some() {
        tiles.insert((tile.pos.0, tile.pos.1, tile.level), tile.encoding().unwrap())
    } else {
        tiles
    }
}

/// Whether `list` holds, decoded and each once, the tiles of `level` in the
/// rectangle from `start` up to, and without, `end`.
pub open spec fn are_tiles_of(
    list: Seq<Tile>,
    tiles: Map<Key, Seq<u8>>,
    size: u64,
    start: (u64, u64),
    end: (u64, u64),
    level: u64,
) -> bool {
    &&& forall|j: int|
        0 <= j < list.len() ==> in_range((#[trigger] list[j]).pos.0, list[j].pos.1, start, end)
            && tiles.contains_key((list[j].pos.0, list[j].pos.1, level)) && is_decoded_tile(
            list[j],
            (list[j].pos.0, list[j].pos.1, level),
            size,
            tiles[(list[j].pos.0, list[j].pos.1, level)],
        )
    &&& forall|x: u64, y: u64|
        in_range(x, y, start, end) && #[trigger] tiles.contains_key((x, y, level)) ==> exists|j: int|
            0 <= j < list.len() && (#[trigger] list[j]).pos == (x, y)
    &&& forall|a: int, b: int|
        0 <= a < list.len() && 0 <= b < list.len() && a != b ==> (#[trigger] list[a]).pos != (
        #[trigger] list[b]).pos
}

/// Whether a tile of `level` in the rectangle fails to decode with `e`.
pub open spec fn some_tile_fails(
    tiles: Map<Key, Seq<u8>>,
    size: u64,
    start: (u64, u64),
    end: (u64, u64),
    level: u64,
    e: Error,
) -> bool {
    exists|x: u64, y: u64|
        in_range(x, y, start, end) && #[trigger] tiles.contains_key((x, y, level)) && stored_image_check(
            tiles[(x, y, level)],
            size,
        ) == Err::<(), Error>(e)
}

impl Database {
    /// Reads the tiles of `level` whose position lies in the rectangle from
    /// `start` up to, and without, `end`. The first stored tile that does
    /// not decode to an image of the tile size ends the read with its error.
    pub fn read_many(&self, start: (u64, u64), end: (u64, u64), level: u64) -> (r: Result<Vec<Tile>, Error>)
        requires
            self.wf(),
        ensures
            match r {
                Ok(list) => are_tiles_of(list@, self.tiles(), self.data.tile_size, start, end, level),
                Err(e) => some_tile_fails(self.tiles(), self.data.tile_size, start, end, level, e),
            },
    {
        let mut out: Vec<Tile> = Vec::new();
        let ghost origin: Seq<int> = Seq::empty();
        let mut i: usize = 0;
        while i < self.rows.len()
            invariant
                i <= self.rows@.len(),
                self.wf(),
                origin.len() == out@.len(),
                forall|j: int| 0 <= j < out@.len() ==> 0 <= (#[trigger] origin[j]) < i,
                forall|a: int, b: int| 0 <= a < b < out@.len() ==> origin[a] < origin[b],
                forall|j: int|
                    0 <= j < out@.len() ==> self.rows@[origin[j]].key() == ((#[trigger] out@[j]).pos.0, out@[j].pos.1, level)
                        && in_range(out@[j].pos.0, out@[j].pos.1, start, end) && is_decoded_tile(
                        out@[j],
                        (out@[j].pos.0, out@[j].pos.1, level),
                        self.data.tile_size,
                        self.rows@[origin[j]].jpeg@,
                    ),
                forall|n: int|
                    0 <= n < i && (#[trigger] self.rows@[n]).level == level && in_range(
                        self.rows@[n].x,
                        self.rows@[n].y,
                        start,
                        end,
                    ) ==> exists|j: int|
                        0 <= j < out@.len() && (#[trigger] out@[j]).pos == (self.rows@[n].x, self.rows@[n].y),
            decreases self.rows@.len() - i,
        {
            let row = &self.rows[i];
            if row.level == level && start.0 <= row.x && row.x < end.0 && start.1 <= row.y && row.y < end.1 {
                let mut tile = Tile::new((row.x, row.y), level, self.data.tile_size);
                let bytes = row.jpeg.clone();
                match tile.set_data(bytes) {
                    Ok(_) => {},
                    Err(e) => {
                        proof {
                            lemma_row_is_entry(self.rows@, i as int);
                            assert(self.tiles().contains_key((row.x, row.y, level)));
                        }
                        return Err(e);
                    },
                }
                let ghost before = out@;
                out.push(tile);
                proof {
                    origin = origin.push(i as int);
                    assert forall|n: int|
                        0 <= n < i + 1 && (#[trigger] self.rows@[n]).level == level && in_range(
                            self.rows@[n].x,
                            self.rows@[n].y,
                            start,
                            end,
                        ) implies exists|j: int|
                        0 <= j < out@.len() && (#[trigger] out@[j]).pos == (self.rows@[n].x, self.rows@[n].y) by {
                        if n < i {
                            let j = choose|j: int|
                                0 <= j < before.len() && (#[trigger] before[j]).pos == (
                                    self.rows@[n].x,
                                    self.rows@[n].y,
                                );
                            assert(out@[j] == before[j]);
                        } else {
                            assert(out@[before.len() as int].pos == (self.rows@[n].x, self.rows@[n].y));
                        }
                    }
                }
            }
            i += 1;
        }
        proof {
            let list = out@;
            let tiles = self.tiles();
            assert forall|j: int| 0 <= j < list.len() implies in_range(
                (#[trigger] list[j]).pos.0,
                list[j].pos.1,
                start,
                end,
            ) && tiles.contains_key((list[j].pos.0, list[j].pos.1, level)) && is_decoded_tile(
                list[j],
                (list[j].pos.0, list[j].pos.1, level),
                self.data.tile_size,
                tiles[(list[j].pos.0, list[j].pos.1, level)],
            ) by {
                lemma_row_is_entry(self.rows@, origin[j]);
            }
            assert forall|x: u64, y: u64|
                in_range(x, y, start, end) && #[trigger] tiles.contains_key((x, y, level)) implies exists|
                j: int,
            | 0 <= j < list.len() && (#[trigger] list[j]).pos == (x, y) by {
                let n = choose|n: int| 0 <= n < self.rows@.len() && (#[trigger] self.rows@[n]).key() == (x, y, level);
                assert(self.rows@[n].level == level);
            }
            assert forall|a: int, b: int|
                0 <= a < list.len() && 0 <= b < list.len() && a != b implies (#[trigger] list[a]).pos != (
            #[trigger] list[b]).pos by {
                if a < b {
                    assert(origin[a] < origin[b]);
                } else {
                    assert(origin[b] < origin[a]);
                }
                assert(self.rows@[origin[a]].key() != self.rows@[origin[b]].key());
            }
        }
        Ok(out)
    }
}

} // verus!
