//! RGBA rasters held as rows of pixels, and pasting one raster into another.
use vstd::prelude::*;

verus! {

/// One pixel: red, green, blue and alpha, eight bits each.
pub type Rgba = [u8; 4];

/// The fully transparent pixel that a fresh canvas holds.
pub open spec fn transparent() -> Rgba {
    [0u8, 0u8, 0u8, 0u8]
}

/// A raster of `width` by `height` RGBA pixels, stored row after row.
#[derive(Debug)]
pub struct Raster {
    pub width: u32,
    pub height: u32,
    pub pixels: Vec<Rgba>,
}

impl Raster {
    /// One pixel per position, and the raster's bytes can be counted in a `usize`.
    pub open spec fn wf(&self) -> bool {
        &&& self.pixels@.len() == self.width as int * self.height as int
        &&& self.width as int * self.height as int * 4 <= usize::MAX
    }

    /// The pixel in column `x` of row `y`.
    pub open spec fn pixel_at(&self, x: int, y: int) -> Rgba {
        self.pixels@[y * self.width as int + x]
    }

    /// Builds a raster from its pixels, row after row; `None` where their
    /// number is not `width * height`, or the raster's bytes would not fit a `usize`.
    pub fn from_pixels(width: u32, height: u32, pixels: Vec<Rgba>) -> (r: Option<Raster>)
        ensures
            r.is_some() <==> (pixels@.len() == width as int * height as int
                && width as int * height as int * 4 <= usize::MAX),
            r.is_some() ==> r->0.wf() && r->0.width == width && r->0.height == height
                && r->0.pixels@ == pixels@,
    {
        proof {
            assert(0 <= width as int * height as int <= u64::MAX) by (nonlinear_arith)
                requires width <= u32::MAX, height <= u32::MAX;
        }
        let area: u128 = (width as u64 * height as u64) as u128;
        if area * 4 <= usize::MAX as u128 && pixels.len() as u128 == area {
            Some(Raster { width, height, pixels })
        } else {
            None
        }
    }

    /// A fully transparent raster of `width` by `height` pixels.
    pub fn blank(width: u32, height: u32) -> (r: Raster)
        requires
            width as int * height as int * 4 <= usize::MAX,
        ensures
            r.wf(),
            r.width == width,
            r.height == height,
            forall|i: int| 0 <= i < r.pixels@.len() ==> r.pixels@[i] == transparent(),
    {
        let n: usize = width as usize * height as usize;
        let mut pixels: Vec<Rgba> = Vec::with_capacity(n);
        while pixels.len() < n
            invariant
                n == width as int * height as int,
                pixels@.len() <= n,
                forall|i: int| 0 <= i < pixels@.len() ==> pixels@[i] == transparent(),
            decreases n - pixels@.len(),
        {
            pixels.push([0u8, 0u8, 0u8, 0u8]);
        }
        Raster { width, height, pixels }
    }

    /// The pixel in column `x` of row `y`.
    pub fn pixel(&self, x: u32, y: u32) -> (r: Rgba)
        requires
            self.wf(),
            x < self.width,
            y < self.height,
        ensures
            r == self.pixel_at(x as int, y as int),
    {
        proof {
            lemma_index_in_bounds(self.width as int, self.height as int, x as int, y as int);
        }
        self.pixels[y as usize * self.width as usize + x as usize]
    }
}

/// The position of column `x` of row `y` lies inside a `width` by `height` raster.
pub proof fn lemma_index_in_bounds(width: int, height: int, x: int, y: int)
    requires
        0 <= x < width,
        0 <= y < height,
    ensures
        0 <= y * width + x < width * height,
{
    assert(0 <= y * width + x < width * height) by (nonlinear_arith)
        requires 0 <= x < width, 0 <= y < height;
}

/// Every position of a `width`-wide raster is column `p % width` of row `p / width`.
pub proof fn lemma_index_split(width: int, height: int, p: int)
    requires
        width > 0,
        0 <= p < width * height,
    ensures
        0 <= p % width < width,
        0 <= p / width < height,
        p == (p / width) * width + p % width,
{
    vstd::arithmetic::div_mod::lemma_fundamental_div_mod(p, width);
    vstd::arithmetic::div_mod::lemma_mod_bound(p, width);
    let q = p / width;
    let m = p % width;
    assert(0 <= q < height) by (nonlinear_arith)
        requires p == width * q + m, 0 <= m < width, 0 <= p < width * height;
    assert(p == q * width + m) by (nonlinear_arith)
        requires p == width * q + m;
}

/// `(x, y)` lies in the `w` by `h` block whose top left corner is `(left, top)`.
pub open spec fn in_block(x: int, y: int, left: int, top: int, w: int, h: int) -> bool {
    left <= x < left + w && top <= y < top + h
}

/// Relies on image::imageops::replace (with ImageBuffer::from_raw and
/// into_raw): copies every pixel of `top` into `bottom`, its top left corner
/// at (`x`, `y`), and leaves the rest of `bottom` as it was.
#[verifier::external_body]
pub(crate) fn replace(bottom: &mut Raster, top: &Raster, x: u32, y: u32)
    requires
        old(bottom).wf(),
        top.wf(),
        x as int + top.width as int <= old(bottom).width as int,
        y as int + top.height as int <= old(bottom).height as int,
    ensures
        final(bottom).width == old(bottom).width,
        final(bottom).height == old(bottom).height,
        final(bottom).pixels@.len() == old(bottom).pixels@.len(),
        forall|px: int, py: int|
            0 <= px < old(bottom).width && 0 <= py < old(bottom).height ==> #[trigger] final(bottom).pixel_at(px, py)
                == if in_block(px, py, x as int, y as int, top.width as int, top.height as int) {
                top.pixel_at(px - x, py - y)
            } else {
                old(bottom).pixel_at(px, py)
            },
{
    let mut canvas: image::RgbaImage = image::ImageBuffer::from_raw(
        bottom.width, bottom.height, bottom.pixels.iter().flatten().copied().collect()).unwrap();
    let tile: image::RgbaImage = image::ImageBuffer::from_raw(
        top.width, top.height, top.pixels.iter().flatten().copied().collect()).unwrap();
    image::imageops::replace(&mut canvas, &tile, x as i64, y as i64);
    bottom.pixels = canvas.pixels().map(|p| p.0).collect();
}

} // verus!
