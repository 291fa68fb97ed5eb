//! The description of a pyramid that its store keeps.

use crate::database::database::Database;
use crate::error::Error;
use vstd::prelude::*;

verus! {

#[derive(Debug, Clone, Copy, PartialEq, Eq, Structural)]
pub struct SlideData {
    /// Side length of every tile, in pixels.
    pub tile_size: u64,
    /// Number of levels; the finest is `levels - 1`.
    pub levels: u64,
    /// Width of the image at the finest level, in pixels.
    pub width: u64,
    /// Height of the image at the finest level, in pixels.
    pub height: u64,
    /// Horizontal resolution, in pixels per metre.
    pub x_ppm: u64,
    /// Vertical resolution, in pixels per metre.
    pub y_ppm: u64,
}

impl SlideData {
    pub fn new(tile_size: u64, levels: u64, width: u64, height: u64, x_ppm: u64, y_ppm: u64) -> (r:
        SlideData)
        ensures
            r == (SlideData { tile_size, levels, width, height, x_ppm, y_ppm }),
    {
        SlideData { tile_size, levels, width, height, x_ppm, y_ppm }
    }
}

/// One entry of the metadata table: key and value.
pub type Entry = (Seq<char>, Seq<char>);

/// The number that a text spells in decimal digits, as the standard
/// library reads it, where it is one.
pub uninterp spec fn parsed_u64(text: Seq<char>) -> Option<u64>;

/// The decimal digits of a number, as the standard library writes them.
pub uninterp spec fn decimal_of(n: u64) -> Seq<char>;

/// `str::parse::<u64>`: the number that `text` spells, where it spells one.
#[verifier::external_body]
fn parse_u64(text: &str) -> (r: Option<u64>)
    ensures
        r == parsed_u64(text@),
{
    text.parse::<u64>().ok()
}

/// `u64::to_string`: the decimal digits of `n`.
#[verifier::external_body]
fn u64_to_string(n: u64) -> (r: String)
    ensures
        r@ == decimal_of(n),
{
    n.to_string()
}

/// The entries of a metadata table as plain text.
pub open spec fn entries_of(meta: Seq<(String, String)>) -> Seq<Entry> {
    Seq::new(meta.len(), |i: int| (meta[i].0@, meta[i].1@))
}

/// The value of the first entry with the key, if there is one.
pub open spec fn meta_get(entries: Seq<Entry>, key: Seq<char>) -> Option<Seq<char>>
    decreases entries.len(),
{
    if entries.len() == 0 {
        None
    } else if entries[0].0 == key {
        Some(entries[0].1)
    } else {
        meta_get(entries.subrange(1, entries.len() as int), key)
    }
}

/// The table after `key` has been set to `value`: the first entry with the
/// key gets the value, and without one a new entry is added at the end.
pub open spec fn meta_set(entries: Seq<Entry>, key: Seq<char>, value: Seq<char>) -> Seq<Entry>
    decreases entries.len(),
{
    if entries.len() == 0 {
        seq![(key, value)]
    } else if entries[0].0 == key {
        seq![(key, value)] + entries.subrange(1, entries.len() as int)
    } else {
        seq![entries[0]] + meta_set(entries.subrange(1, entries.len() as int), key, value)
    }
}

/// A key that was set has the value it was set to, and every other key
/// has the value it had.
pub proof fn lemma_meta_set(entries: Seq<Entry>, key: Seq<char>, value: Seq<char>, other: Seq<char>)
    ensures
        meta_get(meta_set(entries, key, value), key) == Some(value),
        other != key ==> meta_get(meta_set(entries, key, value), other) == meta_get(entries, other),
    decreases entries.len(),
{
    let after = meta_set(entries, key, value);
    if entries.len() == 0 {
        let none = Seq::<Entry>::empty();
        assert(after[0] == (key, value));
        assert(after.subrange(1, after.len() as int) =~= none);
        assert(meta_get(none, other).is_none());
        assert(meta_get(after, other) == if other == key {
            Some(value)
        } else {
            meta_get(none, other)
        });
    } else {
        let rest = entries.subrange(1, entries.len() as int);
        if entries[0].0 == key {
            assert(after[0] == (key, value));
            assert(after.subrange(1, after.len() as int) =~= rest);
        } else {
            lemma_meta_set(rest, key, value, other);
            assert(after[0] == entries[0]);
            assert(after.subrange(1, after.len() as int) =~= meta_set(rest, key, value));
        }
    }
}

/// Looks a key up in a metadata table.
pub fn get_entry<'a>(meta: &'a Vec<(String, String)>, key: &str) -> (r: Option<&'a String>)
    ensures
        match r {
            Some(v) => meta_get(entries_of(meta@), key@) == Some(v@),
            None => meta_get(entries_of(meta@), key@).is_none(),
        },
{
    let wanted = String::from_str(key);
    let ghost all = entries_of(meta@);
    let mut i: usize = 0;
    proof {
        assert(all.subrange(0, all.len() as int) =~= all);
    }
    while i < meta.len()
        invariant
            i <= meta@.len(),
            wanted@ == key@,
            all == entries_of(meta@),
            meta_get(all, key@) == meta_get(all.subrange(i as int, all.len() as int), key@),
        decreases meta@.len() - i,
    {
        let ghost tail = all.subrange(i as int, all.len() as int);
        proof {
            assert(tail[0] == all[i as int]);
            assert(tail.subrange(1, tail.len() as int) =~= all.subrange(i + 1, all.len() as int));
        }
        if meta[i].0 == wanted {
            return Some(&meta[i].1);
        }
        i += 1;
    }
    proof {
        assert(all.subrange(i as int, all.len() as int).len() == 0);
    }
    None
}

/// Sets a key of a metadata table.
pub fn set_entry(meta: &mut Vec<(String, String)>, key: &str, value: &str)
    ensures
        entries_of(final(meta)@) == meta_set(entries_of(old(meta)@), key@, value@),
{
    let wanted = String::from_str(key);
    let ghost all = entries_of(meta@);
    let mut i: usize = 0;
    proof {
        assert(all.subrange(0, 0) + meta_set(all.subrange(0, all.len() as int), key@, value@) =~= meta_set(
            all,
            key@,
            value@,
        )) by {
            assert(all.subrange(0, all.len() as int) =~= all);
        }
    }
    while i < meta.len()
        invariant
            i <= meta@.len(),
            meta@ == old(meta)@,
            wanted@ == key@,
            all == entries_of(meta@),
            meta_set(all, key@, value@) == all.subrange(0, i as int) + meta_set(
                all.subrange(i as int, all.len() as int),
                key@,
                value@,
            ),
        decreases meta@.len() - i,
    {
        let ghost tail = all.subrange(i as int, all.len() as int);
        proof {
            assert(tail[0] == all[i as int]);
            assert(tail.subrange(1, tail.len() as int) =~= all.subrange(i + 1, all.len() as int));
        }
        if meta[i].0 == wanted {
            meta.set(i, (wanted, String::from_str(value)));
            proof {
                let want = all.subrange(0, i as int) + (seq![(key@, value@)] + all.subrange(
                    i + 1,
                    all.len() as int,
                ));
                assert(entries_of(meta@) =~= want);
            }
            return ;
        }
        proof {
            assert(all.subrange(0, i as int) + (seq![all[i as int]] + meta_set(
                all.subrange(i + 1, all.len() as int),
                key@,
                value@,
            )) =~= all.subrange(0, i + 1) + meta_set(all.subrange(i + 1, all.len() as int), key@, value@));
        }
        i += 1;
    }
    meta.push((wanted, String::from_str(value)));
    proof {
        assert(all.subrange(0, all.len() as int) =~= all);
        assert(all.subrange(all.len() as int, all.len() as int) =~= Seq::<Entry>::empty());
        assert(entries_of(meta@) =~= all + seq![(key@, value@)]);
    }
}

/// The number stored under `key`: the key must be there, and its value
/// must spell a number.
pub open spec fn number_at(entries: Seq<Entry>, key: Seq<char>) -> Result<u64, Error> {
    match meta_get(entries, key) {
        None => Err(Error::MissingKey),
        Some(text) => match parsed_u64(text) {
            None => Err(Error::InvalidNumber),
            Some(n) => Ok(n),
        },
    }
}

/// Reads the number stored under `key`.
pub fn read_u64(meta: &Vec<(String, String)>, key: &str) -> (r: Result<u64, Error>)
    ensures
        r == number_at(entries_of(meta@), key@),
{
    match get_entry(meta, key) {
        None => Err(Error::MissingKey),
        Some(text) => match parse_u64(text.as_str()) {
            None => Err(Error::InvalidNumber),
            Some(n) => Ok(n),
        },
    }
}

/// Stores a number under `key`, in decimal digits.
pub fn write_u64(meta: &mut Vec<(String, String)>, key: &str, value: u64)
    ensures
        entries_of(final(meta)@) == meta_set(entries_of(old(meta)@), key@, decimal_of(value)),
{
    let text = u64_to_string(value);
    set_entry(meta, key, text.as_str());
}

/// The description that a metadata table holds: the first of its six keys
/// that is missing, or does not spell a number, is the error.
pub open spec fn described(entries: Seq<Entry>) -> Result<SlideData, Error> {
    let tile_size = number_at(entries, "tile_size"@);
    let levels = number_at(entries, "levels"@);
    let width = number_at(entries, "width"@);
    let height = number_at(entries, "height"@);
    let x_ppm = number_at(entries, "x_ppm"@);
    let y_ppm = number_at(entries, "y_ppm"@);
    if tile_size is Err {
        Err(tile_size->Err_0)
    } else if levels is Err {
        Err(levels->Err_0)
    } else if width is Err {
        Err(width->Err_0)
    } else if height is Err {
        Err(height->Err_0)
    } else if x_ppm is Err {
        Err(x_ppm->Err_0)
    } else if y_ppm is Err {
        Err(y_ppm->Err_0)
    } else {
        Ok(
            SlideData {
                tile_size: tile_size->Ok_0,
                levels: levels->Ok_0,
                width: width->Ok_0,
                height: height->Ok_0,
                x_ppm: x_ppm->Ok_0,
                y_ppm: y_ppm->Ok_0,
            },
        )
    }
}

impl SlideData {
    /// Reads the description of a pyramid from a metadata table.
    pub fn from(meta: &Vec<(String, String)>) -> (r: Result<SlideData, Error>)
        ensures
            r == described(entries_of(meta@)),
    {
        let tile_size = match read_u64(meta, "tile_size") {
            Ok(n) => n,
            Err(e) => {
                return Err(e);
            },
        };
        let levels = match read_u64(meta, "levels") {
            Ok(n) => n,
            Err(e) => {
                return Err(e);
            },
        };
        let width = match read_u64(meta, "width") {
            Ok(n) => n,
            Err(e) => {
                return Err(e);
            },
        };
        let height = match read_u64(meta, "height") {
            Ok(n) => n,
            Err(e) => {
                return Err(e);
            },
        };
        let x_ppm = match read_u64(meta, "x_ppm") {
            Ok(n) => n,
            Err(e) => {
                return Err(e);
            },
        };
        let y_ppm = match read_u64(meta, "y_ppm") {
            Ok(n) => n,
            Err(e) => {
                return Err(e);
            },
        };
        Ok(SlideData { tile_size, levels, width, height, x_ppm, y_ppm })
    }

    /// The table after a description has been written to it.
    pub open spec fn written_to(self, entries: Seq<Entry>) -> Seq<Entry> {
        meta_set(
            meta_set(
                meta_set(
                    meta_set(
                        meta_set(
                            meta_set(entries, "tile_size"@, decimal_of(self.tile_size)),
                            "levels"@,
                            decimal_of(self.levels),
                        ),
                        "width"@,
                        decimal_of(self.width),
                    ),
                    "height"@,
                    decimal_of(self.height),
                ),
                "x_ppm"@,
                decimal_of(self.x_ppm),
            ),
            "y_ppm"@,
            decimal_of(self.y_ppm),
        )
    }

    /// Writes the description into a metadata table, each field under its key.
    pub fn write_to(&self, meta: &mut Vec<(String, String)>)
        ensures
            entries_of(final(meta)@) == self.written_to(entries_of(old(meta)@)),
    {
        write_u64(meta, "tile_size", self.tile_size);
        write_u64(meta, "levels", self.levels);
        write_u64(meta, "width", self.width);
        write_u64(meta, "height", self.height);
        write_u64(meta, "x_ppm", self.x_ppm);
        write_u64(meta, "y_ppm", self.y_ppm);
    }
}

/// The table after every entry of `changes` has been set in turn.
pub open spec fn meta_set_all(entries: Seq<Entry>, changes: Seq<Entry>) -> Seq<Entry>
    decreases changes.len(),
{
    if changes.len() == 0 {
        entries
    } else {
        meta_set(meta_set_all(entries, changes.drop_last()), changes.last().0, changes.last().1)
    }
}

impl Database {
    /// Sets a key of the metadata table.
    pub fn set_meta(&mut self, key: &str, value: &str) -> (r: Result<(), Error>)
        ensures
            final(self).rows == old(self).rows,
            final(self).data == old(self).data,
            final(self).writeable == old(self).writeable,
            old(self).writeable ==> r == Ok::<(), Error>(()) && entries_of(final(self).meta@) == meta_set(
                entries_of(old(self).meta@),
                key@,
                value@,
            ),
            !old(self).writeable ==> r == Err::<(), Error>(Error::ReadOnly) && final(self).meta == old(self).meta,
    {
        if !self.writeable {
            return Err(Error::ReadOnly);
        }
        set_entry(&mut self.meta, key, value);
        Ok(())
    }

    /// The entries of the metadata table.
    pub fn read_metadata(&self) -> (r: Vec<(String, String)>)
        ensures
            entries_of(r@) == entries_of(self.meta@),
    {
        let mut out: Vec<(String, String)> = Vec::new();
        let mut i: usize = 0;
        while i < self.meta.len()
            invariant
                i <= self.meta@.len(),
                out@.len() == i,
                forall|j: int| 0 <= j < i ==> (#[trigger] out@[j]).0@ == self.meta@[j].0@ && out@[j].1@
                    == self.meta@[j].1@,
            decreases self.meta@.len() - i,
        {
            out.push((self.meta[i].0.clone(), self.meta[i].1.clone()));
            i += 1;
        }
        proof {
            assert(entries_of(out@) =~= entries_of(self.meta@));
        }
        out
    }

    /// Sets every entry of `meta` in the metadata table, in turn. A
    /// read-only store refuses the first.
    pub fn write_metadata(&mut self, meta: &Vec<(String, String)>) -> (r: Result<(), Error>)
        ensures
            final(self).rows == old(self).rows,
            final(self).data == old(self).data,
            final(self).writeable == old(self).writeable,
            old(self).writeable || meta@.len() == 0 ==> r == Ok::<(), Error>(()) && entries_of(
                final(self).meta@,
            ) == meta_set_all(entries_of(old(self).meta@), entries_of(meta@)),
            !old(self).writeable && meta@.len() > 0 ==> r == Err::<(), Error>(Error::ReadOnly) && final(self).meta == old(self).meta,
    {
        let ghost changes = entries_of(meta@);
        let mut i: usize = 0;
        proof {
            assert(changes.subrange(0, 0) =~= Seq::<Entry>::empty());
        }
        while i < meta.len()
            invariant
                i <= meta@.len(),
                changes == entries_of(meta@),
                self.rows == old(self).rows,
                self.data == old(self).data,
                self.writeable == old(self).writeable,
                !self.writeable ==> i == 0 && self.meta == old(self).meta,
                entries_of(self.meta@) == meta_set_all(entries_of(old(self).meta@), changes.subrange(0, i as int)),
            decreases meta@.len() - i,
        {
            match self.set_meta(meta[i].0.as_str(), meta[i].1.as_str()) {
                Err(e) => {
                    return Err(e);
                },
                Ok(_) => {},
            }
            proof {
                let next = changes.subrange(0, i + 1);
                assert(next.drop_last() =~= changes.subrange(0, i as int));
                assert(next.last() == changes[i as int]);
            }
            i += 1;
        }
        proof {
            assert(changes.subrange(0, i as int) =~= changes);
        }
        Ok(())
    }
}

} // verus!
