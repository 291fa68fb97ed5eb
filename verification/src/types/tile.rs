//! A tile: a square image at a position of one level of the pyramid.

use crate::error::Error;
use crate::quadtree;
use crate::raster::{decode, decoded_of, encode_jpeg, jpeg_of, Raster};
use vstd::prelude::*;

verus! {

/// A tile of `size` by `size` pixels at `pos` of `level`. Without an image
/// the tile is empty.
#[derive(Debug)]
pub struct Tile {
    pub data: Option<Raster>,
    pub size: u64,
    pub level: u64,
    pub pos: (u64, u64),
}

impl Tile {
    /// An image, where there is one, has the size of the tile.
    pub open spec fn wf(&self) -> bool {
        self.data.is_some() ==> self.data.unwrap().wf() && self.data.unwrap().width == self.size
            && self.data.unwrap().height == self.size
    }

    /// An empty tile.
    pub fn new(pos: (u64, u64), level: u64, size: u64) -> (t: Tile)
        ensures
            t.data.is_none(),
            t.pos == pos,
            t.level == level,
            t.size == size,
            t.wf(),
    {
        Tile { data: None, level, size, pos }
    }

    /// Gives the tile an image, which must have the tile's size.
    pub fn set_image(&mut self, img: Raster) -> (r: Result<(), Error>)
        requires
            img.wf(),
        ensures
            final(self).size == old(self).size,
            final(self).level == old(self).level,
            final(self).pos == old(self).pos,
            img.width == old(self).size && img.height == old(self).size ==> r == Ok::<(), Error>(())
                && final(self).data == Some(img),
            !(img.width == old(self).size && img.height == old(self).size) ==> r == Err::<
                (),
                Error,
            >(Error::InvalidImageSize) && final(self).data == old(self).data,
            old(self).wf() ==> final(self).wf(),
    {
        if img.width as u64 != self.size || img.height as u64 != self.size {
            return Err(Error::InvalidImageSize);
        }
        self.data = Some(img);
        Ok(())
    }

    /// Gives the tile the image that an encoded file holds.
    pub fn set_data(&mut self, data: Vec<u8>) -> (r: Result<(), Error>)
        ensures
            final(self).size == old(self).size,
            final(self).level == old(self).level,
            final(self).pos == old(self).pos,
            old(self).wf() ==> final(self).wf(),
            r == stored_image_check(data@, old(self).size),
            r.is_ok() ==> final(self).data.is_some() && decoded_of(data@) == Some(
                (
                    final(self).data.unwrap().width,
                    final(self).data.unwrap().height,
                    final(self).data.unwrap().data@,
                ),
            ),
            r.is_err() ==> final(self).data == old(self).data,
    {
        match decode(&data) {
            Ok(img) => self.set_image(img),
            Err(_) => Err(Error::Decode),
        }
    }

    pub fn is_empty(&self) -> (b: bool)
        ensures
            b == self.data.is_none(),
    {
        self.data.is_none()
    }

    /// The image of the tile; an empty tile has none.
    pub fn image(&self) -> (r: Result<&Raster, Error>)
        ensures
            match r {
                Ok(img) => self.data == Some(*img),
                Err(e) => e == Error::EmptyTile && self.data.is_none(),
            },
    {
        match &self.data {
            Some(d) => Ok(d),
            None => Err(Error::EmptyTile),
        }
    }

    /// The image of the tile as a JPEG file.
    pub fn data(&self) -> (r: Result<Vec<u8>, Error>)
        requires
            self.wf(),
        ensures
            match r {
                Ok(bytes) => self.data.is_some() && Some(bytes@) == self.encoding(),
                Err(e) => if self.data.is_none() {
                    e == Error::EmptyTile
                } else {
                    e == Error::Encode && self.encoding().is_none()
                },
            },
    {
        match &self.data {
            None => Err(Error::EmptyTile),
            Some(img) => match encode_jpeg(img) {
                Ok(bytes) => Ok(bytes),
                Err(_) => Err(Error::Encode),
            },
        }
    }

    /// The JPEG file of the tile's image, where it has one that can be encoded.
    pub open spec fn encoding(&self) -> Option<Seq<u8>> {
        match self.data {
            Some(img) => jpeg_of(img.data@, img.width, img.height),
            None => None,
        }
    }

    pub fn size(&self) -> (s: u64)
        ensures
            s == self.size,
    {
        self.size
    }

    pub fn level(&self) -> (l: u64)
        ensures
            l == self.level,
    {
        self.level
    }

    pub fn pos(&self) -> (p: (u64, u64))
        ensures
            p == self.pos,
    {
        self.pos
    }

    /// The identity of the tile in the quadtree.
    pub fn index(&self) -> (id: u64)
        requires
            self.level <= quadtree::MAX_LEVEL,
            quadtree::in_grid(self.level as nat, self.pos.0 as nat, self.pos.1 as nat),
        ensures
            id == quadtree::identity_of(self.level as nat, self.pos.0 as nat, self.pos.1 as nat),
    {
        quadtree::identity(self.level, self.pos.0, self.pos.1)
    }

    /// The pixel position of the tile's upper left corner on its level.
    pub fn coords(&self) -> (c: (u64, u64))
        requires
            self.pos.0 * self.size <= u64::MAX,
            self.pos.1 * self.size <= u64::MAX,
        ensures
            c.0 == self.pos.0 * self.size,
            c.1 == self.pos.1 * self.size,
    {
        let (x, y) = self.pos;
        (x * self.size, y * self.size)
    }
}

/// What reading stored bytes as the image of a tile of `size` pixels a side
/// gives: they must decode, and to an image of that size.
pub open spec fn stored_image_check(bytes: Seq<u8>, size: u64) -> Result<(), Error> {
    match decoded_of(bytes) {
        None => Err(Error::Decode),
        Some(img) => if img.0 == size && img.1 == size {
            Ok(())
        } else {
            Err(Error::InvalidImageSize)
        },
    }
}

} // verus!
