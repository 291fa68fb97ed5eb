//! The tile store: encoded tiles by position and level, and the description
//! of the pyramid they belong to.

use crate::database::meta::{described, entries_of, SlideData};
use crate::error::Error;
use vstd::prelude::*;

verus! {

/// Column, row and level of a tile.
pub type Key = (u64, u64, u64);

/// One stored tile: its position, its level and its image as a JPEG file.
#[derive(Debug)]
pub struct TileRow {
    pub x: u64,
    pub y: u64,
    pub level: u64,
    pub jpeg: Vec<u8>,
}

impl TileRow {
    pub open spec fn key(&self) -> Key {
        (self.x, self.y, self.level)
    }
}

/// A store of tiles. A position of a level holds at most one tile; a
/// position without one is empty.
#[derive(Debug)]
pub struct Database {
    pub rows: Vec<TileRow>,
    pub meta: Vec<(String, String)>,
    pub data: SlideData,
    pub writeable: bool,
}

/// Whether no two rows share a position and level.
pub open spec fn distinct_keys(rows: Seq<TileRow>) -> bool {
    forall|i: int, j: int|
        0 <= i < rows.len() && 0 <= j < rows.len() && i != j ==> (#[trigger] rows[i]).key() != (
        #[trigger] rows[j]).key()
}

/// Whether some row holds the tile `k`.
pub open spec fn has_row(rows: Seq<TileRow>, k: Key) -> bool {
    exists|i: int| 0 <= i < rows.len() && (#[trigger] rows[i]).key() == k
}

/// The stored tiles as a map from position and level to encoded image.
pub open spec fn tiles_of(rows: Seq<TileRow>) -> Map<Key, Seq<u8>> {
    Map::new(
        |k: Key| has_row(rows, k),
        |k: Key| rows[choose|i: int| 0 <= i < rows.len() && (#[trigger] rows[i]).key() == k].jpeg@,
    )
}

/// With distinct keys, every row is the entry of its key.
pub proof fn lemma_row_is_entry(rows: Seq<TileRow>, i: int)
    requires
        distinct_keys(rows),
        0 <= i < rows.len(),
    ensures
        tiles_of(rows).contains_key(rows[i].key()),
        tiles_of(rows)[rows[i].key()] == rows[i].jpeg@,
{
    let k = rows[i].key();
    let j = choose|j: int| 0 <= j < rows.len() && (#[trigger] rows[j]).key() == k;
    assert(j == i);
}

/// What opening a store gives: the metadata table must hold the
/// description of the pyramid, and no two rows may share a position and level.
pub open spec fn is_opened(
    rows: Seq<TileRow>,
    meta: Seq<(String, String)>,
    writeable: bool,
    r: Result<Database, Error>,
) -> bool {
    match described(entries_of(meta)) {
        Err(e) => r == Err::<Database, Error>(e),
        Ok(data) => if !distinct_keys(rows) {
            r == Err::<Database, Error>(Error::DuplicateTile)
        } else {
            &&& r.is_ok()
            &&& r.unwrap().rows@ == rows
            &&& r.unwrap().meta@ == meta
            &&& r.unwrap().data == data
            &&& r.unwrap().writeable == writeable
            &&& r.unwrap().wf()
        },
    }
}

/// Whether no two rows share a position and level.
pub fn all_distinct(rows: &Vec<TileRow>) -> (b: bool)
    ensures
        b == distinct_keys(rows@),
{
    let mut i: usize = 0;
    while i < rows.len()
        invariant
            i <= rows@.len(),
            forall|a: int, c: int|
                0 <= a < i && 0 <= c < rows@.len() && a != c ==> (#[trigger] rows@[a]).key() != (
                #[trigger] rows@[c]).key(),
        decreases rows@.len() - i,
    {
        let mut j: usize = i + 1;
        while j < rows.len()
            invariant
                i < j <= rows@.len(),
                forall|c: int| i < c < j ==> (#[trigger] rows@[c]).key() != rows@[i as int].key(),
            decreases rows@.len() - j,
        {
            if rows[i].x == rows[j].x && rows[i].y == rows[j].y && rows[i].level == rows[j].level {
                return false;
            }
            j += 1;
        }
        i += 1;
    }
    true
}

impl Database {
    /// No two rows share a position and level.
    pub open spec fn wf(&self) -> bool {
        distinct_keys(self.rows@)
    }

    /// The stored tiles.
    pub open spec fn tiles(&self) -> Map<Key, Seq<u8>> {
        tiles_of(self.rows@)
    }

    /// An empty, writeable store for the pyramid that `data` describes,
    /// with the description written to its metadata table.
    pub fn create(data: SlideData) -> (db: Database)
        ensures
            db.wf(),
            db.tiles() == Map::<Key, Seq<u8>>::empty(),
            db.data == data,
            db.writeable,
            entries_of(db.meta@) == data.written_to(Seq::empty()),
    {
        let mut meta: Vec<(String, String)> = Vec::new();
        proof {
            assert(entries_of(meta@) =~= Seq::empty());
        }
        data.write_to(&mut meta);
        let db = Database { rows: Vec::new(), meta, data, writeable: true };
        proof {
            assert(db.tiles() =~= Map::<Key, Seq<u8>>::empty());
        }
        db
    }

    /// Opens a store read-only.
    pub fn open(rows: Vec<TileRow>, meta: Vec<(String, String)>) -> (r: Result<Database, Error>)
        ensures
            is_opened(rows@, meta@, false, r),
    {
        Database::open_readonly(rows, meta)
    }

    /// Opens a store over its tile rows and its metadata table, for
    /// reading and writing.
    pub fn open_readwrite(rows: Vec<TileRow>, meta: Vec<(String, String)>) -> (r: Result<Database, Error>)
        ensures
            is_opened(rows@, meta@, true, r),
    {
        let data = match SlideData::from(&meta) {
            Ok(d) => d,
            Err(e) => {
                return Err(e);
            },
        };
        if !all_distinct(&rows) {
            return Err(Error::DuplicateTile);
        }
        Ok(Database { rows, meta, data, writeable: true })
    }

    /// Opens a store over its tile rows and its metadata table, for reading.
    pub fn open_readonly(rows: Vec<TileRow>, meta: Vec<(String, String)>) -> (r: Result<Database, Error>)
        ensures
            is_opened(rows@, meta@, false, r),
    {
        let data = match SlideData::from(&meta) {
            Ok(d) => d,
            Err(e) => {
                return Err(e);
            },
        };
        if !all_distinct(&rows) {
            return Err(Error::DuplicateTile);
        }
        Ok(Database { rows, meta, data, writeable: false })
    }

    pub fn is_writeable(&self) -> (b: bool)
        ensures
            b == self.writeable,
    {
        self.writeable
    }

    /// Refuses a store that was opened read-only.
    pub fn check_writeable(&self) -> (r: Result<(), Error>)
        ensures
            self.writeable ==> r == Ok::<(), Error>(()),
            !self.writeable ==> r == Err::<(), Error>(Error::ReadOnly),
    {
        if !self.writeable {
            return Err(Error::ReadOnly);
        }
        Ok(())
    }

    pub fn tile_size(&self) -> (v: u64)
        ensures
            v == self.data.tile_size,
    {
        self.data.tile_size
    }

    pub fn levels(&self) -> (v: u64)
        ensures
            v == self.data.levels,
    {
        self.data.levels
    }

    pub fn width(&self) -> (v: u64)
        ensures
            v == self.data.width,
    {
        self.data.width
    }

    pub fn height(&self) -> (v: u64)
        ensures
            v == self.data.height,
    {
        self.data.height
    }

    /// The row that holds the tile at `pos` of `level`, if there is one.
    pub fn find(&self, pos: (u64, u64), level: u64) -> (r: Option<usize>)
        ensures
            match r {
                Some(i) => i < self.rows@.len() && self.rows@[i as int].key() == (pos.0, pos.1, level),
                None => !has_row(self.rows@, (pos.0, pos.1, level)),
            },
    {
        let mut i: usize = 0;
        while i < self.rows.len()
            invariant
                i <= self.rows@.len(),
                forall|j: int| 0 <= j < i ==> (#[trigger] self.rows@[j]).key() != (pos.0, pos.1, level),
            decreases self.rows@.len() - i,
        {
            let row = &self.rows[i];
            if row.x == pos.0 && row.y == pos.1 && row.level == level {
                return Some(i);
            }
            i += 1;
        }
        None
    }
}

} // verus!
