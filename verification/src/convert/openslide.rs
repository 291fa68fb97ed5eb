//! What a slide source hands over, made ready for the pyramid: the depth
//! that a slide needs, and its pixels without their alpha channel.

use crate::convert::actions::crop::{ceil_log2, is_ceil_log2};
use crate::raster::{Color, Raster};
use vstd::arithmetic::div_mod::{lemma_fundamental_div_mod, lemma_mod_pos_bound};
use vstd::prelude::*;

verus! {

/// The number of tiles of `tile_size` pixels that `extent` pixels need.
pub open spec fn tiles_across(extent: u64, tile_size: u64) -> int {
    (extent + tile_size - 1) / (tile_size as int)
}

proof fn lemma_tiles_across(extent: u64, tile_size: u64)
    requires
        tile_size > 0,
    ensures
        0 <= tiles_across(extent, tile_size) <= extent,
{
    let t = tile_size as int;
    let x = extent + t - 1;
    lemma_fundamental_div_mod(x, t);
    lemma_mod_pos_bound(x, t);
    let q = x / t;
    let r = x % t;
    assert(0 <= q <= extent) by (nonlinear_arith)
        requires
            x == t * q + r,
            0 <= r < t,
            x == extent + t - 1,
            extent >= 0,
            t >= 1,
    ;
}

/// The longer side of a slide in tiles, and at least one.
pub open spec fn tree_size(width: u64, height: u64, tile_size: u64) -> int {
    let x = tiles_across(width, tile_size);
    let y = tiles_across(height, tile_size);
    if x >= y && x >= 1 {
        x
    } else if y >= 1 {
        y
    } else {
        1
    }
}

/// The number of levels of the pyramid of a slide: one more than the
/// logarithm to the base two, rounded up, of its longer side in tiles.
pub fn levels_for(width: u64, height: u64, tile_size: u64) -> (levels: u64)
    requires
        tile_size > 0,
    ensures
        levels >= 1,
        is_ceil_log2((levels - 1) as nat, tree_size(width, height, tile_size) as nat),
{
    let ts: u128 = tile_size as u128;
    proof {
        lemma_tiles_across(width, tile_size);
        lemma_tiles_across(height, tile_size);
    }
    let tiles_x: u128 = (width as u128 + ts - 1) / ts;
    let tiles_y: u128 = (height as u128 + ts - 1) / ts;
    let longer: u128 = if tiles_x >= tiles_y && tiles_x >= 1 {
        tiles_x
    } else if tiles_y >= 1 {
        tiles_y
    } else {
        1
    };
    1 + ceil_log2(longer)
}

/// The colour of a pixel that comes as alpha, red, green and blue, eight
/// bits each from the highest down, with the colours multiplied by alpha.
/// A transparent pixel is white, an opaque one has its colours, and any
/// other has each colour times 255 over alpha, at most 255.
pub open spec fn rgb_of(value: u32) -> Color {
    let a = (value >> 24) & 0xff;
    let r = (value >> 16) & 0xff;
    let g = (value >> 8) & 0xff;
    let b = value & 0xff;
    if a == 0 {
        (255u8, 255u8, 255u8)
    } else if a == 255 {
        (r as u8, g as u8, b as u8)
    } else {
        (scaled_up(r, a), scaled_up(g, a), scaled_up(b, a))
    }
}

/// `c` times 255 over `a`, at most 255.
pub open spec fn scaled_up(c: u32, a: u32) -> u8 {
    if a == 0 || 255 * c / (a as int) > 255 {
        255u8
    } else {
        (255 * c / (a as int)) as u8
    }
}

fn scale_up(c: u32, a: u32) -> (r: u8)
    requires
        c <= 255,
        0 < a,
    ensures
        r == scaled_up(c, a),
{
    let q: u32 = 255 * c / a;
    if q > 255 {
        255
    } else {
        q as u8
    }
}

/// The colour of one pixel of a slide.
pub fn rgb_of_argb(value: u32) -> (c: Color)
    ensures
        c == rgb_of(value),
{
    let a: u32 = (value >> 24) & 0xff;
    let r: u32 = (value >> 16) & 0xff;
    let g: u32 = (value >> 8) & 0xff;
    let b: u32 = value & 0xff;
    assert(a <= 255 && r <= 255 && g <= 255 && b <= 255) by (bit_vector)
        requires
            a == (value >> 24) & 0xff,
            r == (value >> 16) & 0xff,
            g == (value >> 8) & 0xff,
            b == value & 0xff,
    ;
    if a == 0 {
        (255, 255, 255)
    } else if a == 255 {
        (r as u8, g as u8, b as u8)
    } else {
        (scale_up(r, a), scale_up(g, a), scale_up(b, a))
    }
}

/// The image of `width` by `height` pixels that a slide hands over pixel
/// by pixel; a count of pixels that is not that of the image gives none.
pub fn rgb_image(data: &Vec<u32>, width: u32, height: u32) -> (r: Option<Raster>)
    ensures
        r.is_some() == (data@.len() == width * height),
        r.is_some() ==> r.unwrap().wf() && r.unwrap().width == width && r.unwrap().height == height
            && r.unwrap().data@.len() == 3 * data@.len() && forall|i: int|
            0 <= i < data@.len() ==> (
                r.unwrap().data@[3 * i],
                r.unwrap().data@[3 * i + 1],
                r.unwrap().data@[3 * i + 2],
            ) == rgb_of(#[trigger] data@[i]),
{
    assert(width * height <= 0xFFFF_FFFF * 0xFFFF_FFFF) by (nonlinear_arith)
        requires
            0 <= width <= 0xFFFF_FFFF,
            0 <= height <= 0xFFFF_FFFF,
    ;
    let pixels: u64 = (width as u64) * (height as u64);
    if data.len() as u128 != pixels as u128 {
        return None;
    }
    let mut rgb: Vec<u8> = Vec::new();
    let mut i: usize = 0;
    while i < data.len()
        invariant
            i <= data@.len(),
            rgb@.len() == 3 * i,
            forall|j: int|
                0 <= j < i ==> (rgb@[3 * j], rgb@[3 * j + 1], rgb@[3 * j + 2]) == rgb_of(
                    #[trigger] data@[j],
                ),
        decreases data@.len() - i,
    {
        let c = rgb_of_argb(data[i]);
        rgb.push(c.0);
        rgb.push(c.1);
        rgb.push(c.2);
        i += 1;
    }
    assert(3 * width * height == 3 * (width * height)) by (nonlinear_arith);
    Raster::from_raw(width, height, rgb)
}

} // verus!
