//! A patch: the pixels of a rectangle of one level of the pyramid.

use crate::error::Error;
use crate::raster::Raster;
use vstd::prelude::*;

verus! {

/// The pixels read at `coords` of `level`. Without an image the patch is empty.
#[derive(Debug)]
pub struct Patch {
    pub data: Option<Raster>,
    pub level: u64,
    pub coords: (u64, u64),
}

impl Patch {
    /// An empty patch.
    pub fn new(coords: (u64, u64), level: u64) -> (p: Patch)
        ensures
            p.data.is_none(),
            p.coords == coords,
            p.level == level,
    {
        Patch { data: None, level, coords }
    }

    pub fn set_image(&mut self, image: Raster)
        ensures
            final(self).data == Some(image),
            final(self).level == old(self).level,
            final(self).coords == old(self).coords,
    {
        self.data = Some(image);
    }

    pub fn is_empty(&self) -> (b: bool)
        ensures
            b == self.data.is_none(),
    {
        self.data.is_none()
    }

    /// The image of the patch; an empty patch has none.
    pub fn image(&self) -> (r: Result<&Raster, Error>)
        ensures
            match r {
                Ok(img) => self.data == Some(*img),
                Err(e) => e == Error::EmptyPatch && self.data.is_none(),
            },
    {
        match &self.data {
            Some(d) => Ok(d),
            None => Err(Error::EmptyPatch),
        }
    }

    /// Width and height of the patch; an empty patch has none.
    pub fn size(&self) -> (r: Result<(u64, u64), Error>)
        ensures
            match r {
                Ok(s) => self.data.is_some() && s.0 == self.data.unwrap().width && s.1
                    == self.data.unwrap().height,
                Err(e) => e == Error::EmptyPatch && self.data.is_none(),
            },
    {
        match &self.data {
            Some(d) => Ok((d.width as u64, d.height as u64)),
            None => Err(Error::EmptyPatch),
        }
    }

    pub fn level(&self) -> (l: u64)
        ensures
            l == self.level,
    {
        self.level
    }

    pub fn coords(&self) -> (c: (u64, u64))
        ensures
            c == self.coords,
    {
        self.coords
    }
}

} // verus!
