//! Images of three colour channels with eight bits each, and the image
//! operations that the pyramid is built from.

use image::imageops;
use image::DynamicImage;
use image::ImageBuffer;
use image::ImageError;
use image::ImageOutputFormat;
use image::Rgb;
use image::RgbImage;
use vstd::prelude::*;

verus! {

#[verifier::external_type_specification]
#[verifier::external_body]
pub struct ExImageError(ImageError);

/// An image stored row by row, three bytes (red, green, blue) to the pixel.
#[derive(Debug)]
pub struct Raster {
    pub width: u32,
    pub height: u32,
    pub data: Vec<u8>,
}

/// One pixel: red, green, blue.
pub type Color = (u8, u8, u8);

/// The colour of places that no tile covers.
pub open spec fn white() -> Color {
    (255u8, 255u8, 255u8)
}

/// The bytes that resampling an image of `width` by `height` pixels to
/// `nwidth` by `nheight` pixels with the Lanczos filter of window three gives.
pub uninterp spec fn lanczos3_of(data: Seq<u8>, width: u32, height: u32, nwidth: u32, nheight: u32) -> Seq<u8>;

/// The JPEG file at quality 90 of an image, where it can be encoded.
pub uninterp spec fn jpeg_of(data: Seq<u8>, width: u32, height: u32) -> Option<Seq<u8>>;

/// Width, height and pixel bytes of the image that an encoded file holds,
/// where it can be decoded.
pub uninterp spec fn decoded_of(bytes: Seq<u8>) -> Option<(u32, u32, Seq<u8>)>;

/// The pixel in column `x` of row `y` of an image of `width` pixels a row.
pub open spec fn pixel_at(data: Seq<u8>, width: int, x: int, y: int) -> Color {
    let at = 3 * (y * width + x);
    (data[at], data[at + 1], data[at + 2])
}

/// One channel of a colour: 0 is red, 1 is green, 2 is blue.
pub open spec fn channel(c: Color, k: int) -> u8 {
    if k == 0 {
        c.0
    } else if k == 1 {
        c.1
    } else {
        c.2
    }
}

/// Column and row of the pixel that byte `i` of an image belongs to.
pub open spec fn column_of(i: int, width: int) -> int {
    (i / 3) % width
}

pub open spec fn row_of(i: int, width: int) -> int {
    (i / 3) / width
}

/// Every byte of an image is one channel of the pixel it belongs to.
pub proof fn lemma_byte_is_channel(data: Seq<u8>, width: int, height: int, i: int)
    requires
        data.len() == 3 * width * height,
        0 <= i < data.len(),
        0 <= width,
        0 <= height,
    ensures
        0 <= column_of(i, width) < width,
        0 <= row_of(i, width) < height,
        data[i] == channel(pixel_at(data, width, column_of(i, width), row_of(i, width)), i % 3),
{
    let p = i / 3;
    let c = i % 3;
    assert(3 * width * height == 3 * (width * height)) by (nonlinear_arith);
    assert(0 <= p < width * height);
    assert(width > 0) by (nonlinear_arith)
        requires
            0 <= p < width * height,
            0 <= width,
    ;
    let x = p % width;
    let y = p / width;
    assert(p == y * width + x && 0 <= x < width && 0 <= y) by (nonlinear_arith)
        requires
            x == p % width,
            y == p / width,
            width > 0,
            p >= 0,
    ;
    assert(y < height) by (nonlinear_arith)
        requires
            p == y * width + x,
            0 <= x,
            p < width * height,
            width > 0,
    ;
}

impl Raster {
    /// The buffer holds exactly the pixels of the image.
    pub open spec fn wf(&self) -> bool {
        self.data@.len() == 3 * self.width * self.height
    }

    /// The pixel in column `x` of row `y`.
    pub open spec fn pixel(&self, x: int, y: int) -> Color {
        pixel_at(self.data@, self.width as int, x, y)
    }

    /// Whether every pixel has the colour `c`.
    pub open spec fn is_solid(&self, c: Color) -> bool {
        forall|x: int, y: int|
            0 <= x < self.width && 0 <= y < self.height ==> #[trigger] self.pixel(x, y) == c
    }

    /// An image over the given bytes, if they are exactly its pixels.
    pub fn from_raw(width: u32, height: u32, data: Vec<u8>) -> (r: Option<Raster>)
        ensures
            r.is_some() == (data@.len() == 3 * width * height),
            r.is_some() ==> r.unwrap().wf() && r.unwrap().width == width && r.unwrap().height
                == height && r.unwrap().data@ == data@,
    {
        assert(width * height <= 0xFFFF_FFFF * 0xFFFF_FFFF) by (nonlinear_arith)
            requires
                0 <= width <= 0xFFFF_FFFF,
                0 <= height <= 0xFFFF_FFFF,
        ;
        let pixels: u64 = (width as u64) * (height as u64);
        let bytes: u128 = 3 * (pixels as u128);
        assert(bytes == 3 * width * height) by (nonlinear_arith)
            requires
                bytes == 3 * pixels,
                pixels == width * height,
        ;
        if data.len() as u128 == bytes {
            Some(Raster { width, height, data })
        } else {
            None
        }
    }

    pub fn width(&self) -> (w: u32)
        ensures
            w == self.width,
    {
        self.width
    }

    pub fn height(&self) -> (h: u32)
        ensures
            h == self.height,
    {
        self.height
    }

    /// Reads one pixel.
    pub fn get(&self, x: u32, y: u32) -> (c: Color)
        requires
            self.wf(),
            x < self.width,
            y < self.height,
        ensures
            c == self.pixel(x as int, y as int),
    {
        let len: usize = self.data.len();
        proof {
            let wi = self.width as int;
            let hi = self.height as int;
            let xi = x as int;
            let yi = y as int;
            assert(0 <= yi * wi && yi * wi + xi < wi * hi) by (nonlinear_arith)
                requires
                    0 <= xi < wi,
                    0 <= yi < hi,
            ;
            assert(3 * wi * hi == 3 * (wi * hi)) by (nonlinear_arith);
        }
        let w: usize = self.width as usize;
        let row: usize = (y as usize) * w;
        let cell: usize = row + (x as usize);
        let at: usize = 3 * cell;
        (self.data[at], self.data[at + 1], self.data[at + 2])
    }

    /// An image of one colour.
    pub fn solid(width: u32, height: u32, c: Color) -> (r: Raster)
        requires
            3 * width * height <= isize::MAX,
        ensures
            r.wf(),
            r.width == width,
            r.height == height,
            r.is_solid(c),
    {
        from_pixel(width, height, c)
    }
}

/// `ImageBuffer::from_pixel`: an image of the given size of which every
/// pixel is `c`. A buffer too large to allocate is left out.
#[verifier::external_body]
pub(crate) fn from_pixel(width: u32, height: u32, c: Color) -> (r: Raster)
    requires
        3 * width * height <= isize::MAX,
    ensures
        r.wf(),
        r.width == width,
        r.height == height,
        r.is_solid(c),
{
    let img: RgbImage = ImageBuffer::from_pixel(width, height, Rgb([c.0, c.1, c.2]));
    Raster { width, height, data: img.into_raw() }
}

/// `imageops::replace`: copies `top` onto `bottom` with its upper left
/// corner at `(x, y)`. The part of `top` that falls outside `bottom` is
/// dropped; every other pixel of `bottom` stays.
#[verifier::external_body]
pub(crate) fn replace(bottom: &mut Raster, top: &Raster, x: u32, y: u32)
    requires
        old(bottom).wf(),
        top.wf(),
    ensures
        final(bottom).wf(),
        final(bottom).width == old(bottom).width,
        final(bottom).height == old(bottom).height,
        forall|i: int, j: int|
            0 <= i < old(bottom).width && 0 <= j < old(bottom).height ==> #[trigger] final(bottom).pixel(i, j) == (if x <= i < x + top.width && y <= j < y + top.height {
                top.pixel(i - x, j - y)
            } else {
                old(bottom).pixel(i, j)
            }),
{
    let data = std::mem::take(&mut bottom.data);
    let mut canvas = RgbImage::from_raw(bottom.width, bottom.height, data).unwrap();
    let over = ImageBuffer::<Rgb<u8>, &[u8]>::from_raw(top.width, top.height, &top.data[..]).unwrap();
    imageops::replace(&mut canvas, &over, i64::from(x), i64::from(y));
    bottom.data = canvas.into_raw();
}

/// `imageops::crop` and `SubImage::to_image`: the rectangle of `width` by
/// `height` pixels of `src` whose upper left corner is `(x, y)`, for a
/// rectangle that lies inside `src`.
#[verifier::external_body]
pub(crate) fn crop(src: Raster, x: u32, y: u32, width: u32, height: u32) -> (out: Raster)
    requires
        src.wf(),
        x + width <= src.width,
        y + height <= src.height,
    ensures
        out.wf(),
        out.width == width,
        out.height == height,
        forall|i: int, j: int|
            0 <= i < width && 0 <= j < height ==> #[trigger] out.pixel(i, j) == src.pixel(
                x + i,
                y + j,
            ),
{
    let mut img = RgbImage::from_raw(src.width, src.height, src.data).unwrap();
    let cut = imageops::crop(&mut img, x, y, width, height).to_image();
    Raster { width: cut.width(), height: cut.height(), data: cut.into_raw() }
}

/// `imageops::resize` with `FilterType::Lanczos3`: `src` resampled to
/// `nwidth` by `nheight` pixels. The pixels are named, not spelled out; an
/// image that already has the size asked for is copied.
#[verifier::external_body]
pub(crate) fn resize(src: &Raster, nwidth: u32, nheight: u32) -> (out: Raster)
    requires
        src.wf(),
        (src.width > 0 && src.height > 0) || (nwidth == src.width && nheight == src.height),
        16 * src.width * nheight <= isize::MAX,
        16 * nwidth * nheight <= isize::MAX,
    ensures
        out.wf(),
        out.width == nwidth,
        out.height == nheight,
        out.data@ == lanczos3_of(src.data@, src.width, src.height, nwidth, nheight),
        nwidth == src.width && nheight == src.height ==> out.data@ == src.data@,
{
    let view = ImageBuffer::<Rgb<u8>, &[u8]>::from_raw(src.width, src.height, &src.data[..]).unwrap();
    let scaled = imageops::resize(&view, nwidth, nheight, imageops::FilterType::Lanczos3);
    Raster { width: nwidth, height: nheight, data: scaled.into_raw() }
}

/// `DynamicImage::write_to` with `ImageOutputFormat::Jpeg(90)`: the image as
/// a JPEG file. The bytes are named, not spelled out, and so is whether the
/// encoder accepts the image.
#[verifier::external_body]
pub(crate) fn encode_jpeg(src: &Raster) -> (r: Result<Vec<u8>, ImageError>)
    requires
        src.wf(),
    ensures
        match r {
            Ok(bytes) => jpeg_of(src.data@, src.width, src.height) == Some(bytes@),
            Err(_) => jpeg_of(src.data@, src.width, src.height).is_none(),
        },
{
    let rgb = RgbImage::from_raw(src.width, src.height, src.data.clone()).unwrap();
    let mut bytes = std::io::Cursor::new(Vec::new());
    DynamicImage::ImageRgb8(rgb).write_to(&mut bytes, ImageOutputFormat::Jpeg(90))?;
    Ok(bytes.into_inner())
}

/// `image::load_from_memory` and `DynamicImage::to_rgb8`: the image that an
/// encoded file holds. Its size and pixels are named, not spelled out, and
/// so is whether the bytes can be decoded.
#[verifier::external_body]
pub(crate) fn decode(bytes: &Vec<u8>) -> (r: Result<Raster, ImageError>)
    ensures
        match r {
            Ok(img) => img.wf() && decoded_of(bytes@) == Some((img.width, img.height, img.data@)),
            Err(_) => decoded_of(bytes@).is_none(),
        },
{
    let rgb = image::load_from_memory(bytes)?.to_rgb8();
    Ok(Raster { width: rgb.width(), height: rgb.height(), data: rgb.into_raw() })
}

} // verus!
