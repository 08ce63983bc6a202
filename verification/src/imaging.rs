//! Raster images as plain values, and the calls into the image crates that
//! convert and binarise them.

use vstd::prelude::*;

verus! {

/// A grayscale raster as a mathematical value: width, height and the pixels row by row.
pub type Raster = (u32, u32, Seq<u8>);

/// The pixel buffer of a raster holds exactly one byte per pixel.
pub open spec fn raster_wf(img: Raster) -> bool {
    img.2.len() == img.0 * img.1
}

/// The intensity of pixel `(x, y)` of a raster.
pub open spec fn raster_at(img: Raster, x: int, y: int) -> u8 {
    img.2[y * img.0 + x]
}

/// A grayscale raster, row by row: pixel `(x, y)` is `pixels[y * width + x]`.
pub struct GrayGrid {
    pub width: u32,
    pub height: u32,
    pub pixels: Vec<u8>,
}

/// `y * w + x` lies inside a `w * h` raster when `x < w` and `y < h`.
pub proof fn lemma_raster_index(x: int, y: int, w: int, h: int)
    requires
        0 <= x < w,
        0 <= y < h,
    ensures
        0 <= y * w + x < w * h,
{
    assert(y * w + x < w * h) by (nonlinear_arith)
        requires
            0 <= x < w,
            0 <= y < h,
    ;
    assert(0 <= y * w) by (nonlinear_arith)
        requires
            0 <= y,
            0 <= w,
    ;
}

impl View for GrayGrid {
    type V = Raster;

    open spec fn view(&self) -> Raster {
        (self.width, self.height, self.pixels@)
    }
}

impl GrayGrid {
    /// The pixel buffer holds exactly one byte per pixel.
    pub open spec fn wf(&self) -> bool {
        self.pixels@.len() == self.width * self.height
    }

    /// Reads pixel `(x, y)`.
    pub fn get(&self, x: u32, y: u32) -> (p: u8)
        requires
            self.wf(),
            x < self.width,
            y < self.height,
        ensures
            p == raster_at(self@, x as int, y as int),
    {
        let n = self.pixels.len();
        proof {
            lemma_raster_index(x as int, y as int, self.width as int, self.height as int);
            assert(y * self.width <= y * self.width + x < n);
        }
        let idx = y as usize * self.width as usize + x as usize;
        self.pixels[idx]
    }
}


/// A colour raster with four bytes per pixel (red, green, blue, alpha), row by row.
pub struct RgbaGrid {
    pub width: u32,
    pub height: u32,
    pub pixels: Vec<u8>,
}

/// A colour raster as a mathematical value: width, height and the channel bytes.
pub type RgbaRaster = (u32, u32, Seq<u8>);

impl View for RgbaGrid {
    type V = RgbaRaster;

    open spec fn view(&self) -> RgbaRaster {
        (self.width, self.height, self.pixels@)
    }
}

/// The channel buffer of a colour raster holds exactly four bytes per pixel.
pub open spec fn rgba_wf(img: RgbaRaster) -> bool {
    img.2.len() == 4 * img.0 * img.1
}

/// The red channel of pixel `(x, y)` of a colour raster.
pub open spec fn rgba_red(img: RgbaRaster, x: int, y: int) -> u8 {
    img.2[4 * (y * img.0 + x)]
}

impl RgbaGrid {
    /// Reads the red channel of pixel `(x, y)`.
    pub fn red(&self, x: u32, y: u32) -> (p: u8)
        requires
            rgba_wf(self@),
            x < self.width,
            y < self.height,
        ensures
            p == rgba_red(self@, x as int, y as int),
    {
        let n = self.pixels.len();
        proof {
            lemma_raster_index(x as int, y as int, self.width as int, self.height as int);
            assert(4 * (y * self.width + x) < 4 * (self.width * self.height));
            assert(4 * (self.width * self.height) == 4 * self.width * self.height) by (nonlinear_arith);
        }
        let idx = 4 * (y as usize * self.width as usize + x as usize);
        self.pixels[idx]
    }
}

/// The luma plane that the `image` crate computes from a colour raster
/// (`DynamicImage::to_luma8` on an RGBA image).
pub uninterp spec fn luma8_of(width: u32, height: u32, rgba: Seq<u8>) -> Seq<u8>;

/// The threshold that `imageproc::contrast::otsu_level` picks for a grayscale raster.
pub uninterp spec fn otsu_level_of(width: u32, height: u32, pixels: Seq<u8>) -> u8;

/// The raster with every pixel above `level` set to 255 and every other pixel to 0.
pub open spec fn binarized(img: Raster, level: u8) -> Raster {
    (img.0, img.1, Seq::new(img.2.len(), |i: int| if img.2[i] > level { 255u8 } else { 0u8 }))
}

/// Calls `image::DynamicImage::to_luma8` on the colour raster. Trusted: the
/// result has the same dimensions and one byte per pixel, as the `image` crate's
/// buffers always do; its values are named by `luma8_of`, a function of the
/// input alone (the conversion depends on nothing else).
#[verifier::external_body]
pub(crate) fn to_luma(img: &RgbaGrid) -> (gray: GrayGrid)
    requires
        rgba_wf(img@),
    ensures
        gray.width == img.width,
        gray.height == img.height,
        gray.wf(),
        gray.pixels@ == luma8_of(img.width, img.height, img.pixels@),
{
    let buffer = image::RgbaImage::from_raw(img.width, img.height, img.pixels.clone()).unwrap();
    let luma = image::DynamicImage::ImageRgba8(buffer).to_luma8();
    GrayGrid { width: luma.width(), height: luma.height(), pixels: luma.into_raw() }
}

/// Calls `imageproc::contrast::otsu_level`. Trusted: the level is named by
/// `otsu_level_of`, a function of the raster alone. The function multiplies
/// pixel counts by intensities in `u32`, hence the bound on the pixel count.
#[verifier::external_body]
pub(crate) fn otsu_level(img: &GrayGrid) -> (level: u8)
    requires
        img.wf(),
        255 * img.width * img.height <= u32::MAX,
    ensures
        level == otsu_level_of(img.width, img.height, img.pixels@),
{
    let buffer = image::GrayImage::from_raw(img.width, img.height, img.pixels.clone()).unwrap();
    imageproc::contrast::otsu_level(&buffer)
}

/// Calls `imageproc::contrast::threshold` with `ThresholdType::Binary`. Trusted:
/// as its source shows, each pixel above `level` becomes 255 and every other
/// pixel 0; the dimensions are kept.
#[verifier::external_body]
pub(crate) fn threshold(img: &GrayGrid, level: u8) -> (out: GrayGrid)
    requires
        img.wf(),
    ensures
        out@ == binarized(img@, level),
        out.wf(),
{
    let buffer = image::GrayImage::from_raw(img.width, img.height, img.pixels.clone()).unwrap();
    let out = imageproc::contrast::threshold(&buffer, level, imageproc::contrast::ThresholdType::Binary);
    GrayGrid { width: out.width(), height: out.height(), pixels: out.into_raw() }
}

/// The borders that `imageproc::contours::find_contours` traces in a
/// grayscale raster, each as its list of `(x, y)` points.
pub uninterp spec fn contours_of(width: u32, height: u32, pixels: Seq<u8>) -> Seq<Seq<(i32, i32)>>;

/// Calls `imageproc::contours::find_contours` (every non-zero pixel is
/// foreground) and keeps the points of each border. Trusted: the borders are
/// named by `contours_of`, a function of the raster alone (the border following
/// depends on nothing else). The crate converts each border coordinate to
/// `i32` and panics where one does not fit, hence the bound on the sides.
#[verifier::external_body]
pub(crate) fn find_contours(img: &GrayGrid) -> (borders: Vec<Vec<(i32, i32)>>)
    requires
        img.wf(),
        img.width <= i32::MAX,
        img.height <= i32::MAX,
    ensures
        borders.deep_view() == contours_of(img.width, img.height, img.pixels@),
{
    let buffer = image::GrayImage::from_raw(img.width, img.height, img.pixels.clone()).unwrap();
    let contours = imageproc::contours::find_contours::<i32>(&buffer);
    contours.into_iter().map(|c| c.points.into_iter().map(|p| (p.x, p.y)).collect()).collect()
}

} // verus!
