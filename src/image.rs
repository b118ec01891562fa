//! Pixel images: decoding egui's image payloads, and patching a sub-rectangle
//! of an image with new pixels.
use vstd::prelude::*;
use vstd::arithmetic::div_mod::lemma_fundamental_div_mod_converse;

verus! {

/// An image of premultiplied sRGBA pixels (r, g, b, a), row by row.
#[derive(Clone, Debug)]
pub struct ColorImage {
    /// Width and height in pixels.
    pub size: [usize; 2],
    pub pixels: Vec<[u8; 4]>,
}

/// A glyph atlas: one coverage value per pixel, used as the alpha of a white
/// foreground.
#[derive(Clone, Debug)]
pub struct FontImage {
    /// Width and height in pixels.
    pub size: [usize; 2],
    pub alpha: Vec<u8>,
}

/// The pixel payload of a texture update.
#[derive(Clone, Debug)]
pub enum ImageData {
    Color(ColorImage),
    Font(FontImage),
}

/// A decoded image: `width * height` premultiplied sRGBA pixels, row by row.
#[derive(Clone, Debug)]
pub struct RgbaImage {
    pub width: usize,
    pub height: usize,
    pub pixels: Vec<[u8; 4]>,
}

/// White at coverage `a`, premultiplied.
pub open spec fn white_with_alpha(a: u8) -> [u8; 4] {
    [a, a, a, a]
}

impl ImageData {
    pub open spec fn spec_width(&self) -> nat {
        match self {
            ImageData::Color(c) => c.size[0] as nat,
            ImageData::Font(f) => f.size[0] as nat,
        }
    }

    pub open spec fn spec_height(&self) -> nat {
        match self {
            ImageData::Color(c) => c.size[1] as nat,
            ImageData::Font(f) => f.size[1] as nat,
        }
    }

    /// The number of pixels that the payload holds.
    pub open spec fn payload_len(&self) -> nat {
        match self {
            ImageData::Color(c) => c.pixels.len() as nat,
            ImageData::Font(f) => f.alpha.len() as nat,
        }
    }

    /// The payload holds exactly one value per pixel of the declared size.
    pub open spec fn payload_matches(&self) -> bool {
        self.payload_len() == self.spec_width() * self.spec_height()
    }

    /// The payload as sRGBA pixels: colour pixels as they are, glyph coverage
    /// as white with that alpha.
    pub open spec fn decoded(&self) -> Seq<[u8; 4]> {
        match self {
            ImageData::Color(c) => c.pixels@,
            ImageData::Font(f) => f.alpha@.map_values(|a: u8| white_with_alpha(a)),
        }
    }

    pub fn width(&self) -> (r: usize)
        ensures
            r == self.spec_width(),
    {
        match self {
            ImageData::Color(c) => c.size[0],
            ImageData::Font(f) => f.size[0],
        }
    }

    pub fn height(&self) -> (r: usize)
        ensures
            r == self.spec_height(),
    {
        match self {
            ImageData::Color(c) => c.size[1],
            ImageData::Font(f) => f.size[1],
        }
    }

    /// Decodes the payload into sRGBA pixels; `None` when the payload's length
    /// is not the declared width times height.
    pub fn decode(&self) -> (r: Option<RgbaImage>)
        ensures
            r is Some <==> self.payload_matches(),
            r matches Some(img) ==> {
                &&& img.wf()
                &&& img.width == self.spec_width()
                &&& img.height == self.spec_height()
                &&& img.pixels@ == self.decoded()
            },
    {
        let w = self.width();
        let h = self.height();
        let n = match w.checked_mul(h) {
            Some(n) => n,
            None => {
                proof {
                    assert(self.payload_len() <= usize::MAX);
                }
                return None;
            },
        };
        match self {
            ImageData::Color(c) => {
                if c.pixels.len() != n {
                    return None;
                }
                Some(RgbaImage { width: w, height: h, pixels: copy_pixels(&c.pixels) })
            },
            ImageData::Font(f) => {
                if f.alpha.len() != n {
                    return None;
                }
                let mut pixels: Vec<[u8; 4]> = Vec::with_capacity(n);
                let mut i: usize = 0;
                while i < n
                    invariant
                        n == f.alpha.len(),
                        i <= n,
                        pixels@ == f.alpha@.take(i as int).map_values(|a: u8| white_with_alpha(a)),
                    decreases n - i,
                {
                    let a = f.alpha[i];
                    pixels.push([a, a, a, a]);
                    i += 1;
                    proof {
                        assert(f.alpha@.take(i as int) == f.alpha@.take(i - 1).push(a));
                    }
                }
                proof {
                    assert(f.alpha@.take(n as int) == f.alpha@);
                }
                Some(RgbaImage { width: w, height: h, pixels })
            },
        }
    }
}

/// A copy of `pixels`.
pub fn copy_pixels(pixels: &Vec<[u8; 4]>) -> (r: Vec<[u8; 4]>)
    ensures
        r@ == pixels@,
{
    let mut out: Vec<[u8; 4]> = Vec::with_capacity(pixels.len());
    let mut i: usize = 0;
    while i < pixels.len()
        invariant
            i <= pixels.len(),
            out@ == pixels@.take(i as int),
        decreases pixels.len() - i,
    {
        out.push(pixels[i]);
        proof {
            assert(pixels@.take(i + 1) == pixels@.take(i as int).push(pixels@[i as int]));
        }
        i += 1;
    }
    proof {
        assert(pixels@.take(pixels.len() as int) == pixels@);
    }
    out
}

/// Pixel (x, y) lies in the `w`-by-`h` rectangle whose top-left corner is
/// (x0, y0).
pub open spec fn in_rect(x: int, y: int, x0: int, y0: int, w: int, h: int) -> bool {
    x0 <= x < x0 + w && y0 <= y < y0 + h
}

/// The pixels of a `width`-wide image `old` after the `pw`-by-`ph` image
/// `patch` is written over it with its top-left corner at (x0, y0): inside
/// that rectangle the patch's pixels, alpha included; elsewhere the old ones.
pub open spec fn patched_pixels(
    old: Seq<[u8; 4]>,
    width: int,
    patch: Seq<[u8; 4]>,
    pw: int,
    ph: int,
    x0: int,
    y0: int,
) -> Seq<[u8; 4]> {
    Seq::new(
        old.len(),
        |i: int|
            {
                let x = i % width;
                let y = i / width;
                if in_rect(x, y, x0, y0, pw, ph) {
                    patch[(y - y0) * pw + (x - x0)]
                } else {
                    old[i]
                }
            },
    )
}

proof fn lemma_row_major(i: int, w: int, h: int)
    requires
        0 <= i < w * h,
        0 < w,
    ensures
        0 <= i % w < w,
        0 <= i / w < h,
        i == (i / w) * w + i % w,
{
    assert(0 <= i % w < w) by (nonlinear_arith)
        requires
            0 <= i,
            0 < w,
    ;
    assert(i == (i / w) * w + i % w) by (nonlinear_arith)
        requires
            0 < w,
    ;
    assert(0 <= i / w < h) by (nonlinear_arith)
        requires
            0 <= i < w * h,
            0 < w,
            i == (i / w) * w + i % w,
            0 <= i % w < w,
    ;
}

proof fn lemma_index_in_patch(dx: int, dy: int, pw: int, ph: int)
    requires
        0 <= dx < pw,
        0 <= dy < ph,
    ensures
        0 <= dy * pw + dx < pw * ph,
{
    assert(0 <= dy * pw + dx < pw * ph) by (nonlinear_arith)
        requires
            0 <= dx < pw,
            0 <= dy < ph,
    ;
}

impl RgbaImage {
    /// The pixel buffer holds exactly `width * height` pixels.
    pub open spec fn wf(&self) -> bool {
        self.pixels.len() == self.width * self.height
    }

    /// The pixel at column `x` of row `y`.
    pub open spec fn pixel_at(&self, x: int, y: int) -> [u8; 4] {
        self.pixels@[y * self.width + x]
    }

    /// A `patch` placed at (x0, y0) lies inside this image.
    pub open spec fn fits(&self, patch: &RgbaImage, x0: int, y0: int) -> bool {
        0 <= x0 && 0 <= y0 && x0 + patch.width <= self.width && y0 + patch.height <= self.height
    }

    /// This image with the rectangle at (x0, y0) overwritten by `patch`.
    pub fn with_patch(&self, patch: &RgbaImage, x0: usize, y0: usize) -> (r: RgbaImage)
        requires
            self.wf(),
            patch.wf(),
            self.fits(patch, x0 as int, y0 as int),
        ensures
            r.wf(),
            r.width == self.width,
            r.height == self.height,
            r.pixels@ == patched_pixels(
                self.pixels@,
                self.width as int,
                patch.pixels@,
                patch.width as int,
                patch.height as int,
                x0 as int,
                y0 as int,
            ),
    {
        let n = self.pixels.len();
        let w = self.width;
        let pw = patch.width;
        let ph = patch.height;
        let ghost target = patched_pixels(self.pixels@, w as int, patch.pixels@, pw as int, ph as int, x0 as int, y0 as int);
        let mut out: Vec<[u8; 4]> = Vec::with_capacity(n);
        let mut i: usize = 0;
        while i < n
            invariant
                self.wf(),
                patch.wf(),
                self.fits(patch, x0 as int, y0 as int),
                n == self.pixels.len(),
                w == self.width,
                pw == patch.width,
                ph == patch.height,
                target == patched_pixels(self.pixels@, w as int, patch.pixels@, pw as int, ph as int, x0 as int, y0 as int),
                i <= n,
                out@ == target.take(i as int),
            decreases n - i,
        {
            proof {
                if w == 0 {
                    assert(w * self.height == 0);
                }
                lemma_row_major(i as int, w as int, self.height as int);
            }
            let x = i % w;
            let y = i / w;
            let px = if x0 <= x && x < x0 + pw && y0 <= y && y < y0 + ph {
                proof {
                    lemma_index_in_patch((x - x0) as int, (y - y0) as int, pw as int, ph as int);
                }
                patch.pixels[(y - y0) * pw + (x - x0)]
            } else {
                self.pixels[i]
            };
            out.push(px);
            proof {
                assert(target.take(i + 1) == target.take(i as int).push(px));
            }
            i += 1;
        }
        proof {
            assert(target.take(n as int) == target);
        }
        RgbaImage { width: w, height: self.height, pixels: out }
    }
}

/// Writing a patch over an image leaves every pixel outside the patch's
/// rectangle as it was, and gives every pixel inside it the patch's pixel,
/// alpha included, with no blending.
pub proof fn lemma_patch_locality(old: RgbaImage, patch: RgbaImage, x0: int, y0: int)
    requires
        old.wf(),
        patch.wf(),
        old.fits(&patch, x0, y0),
    ensures
        ({
            let new = patched_pixels(old.pixels@, old.width as int, patch.pixels@, patch.width as int, patch.height as int, x0, y0);
            &&& new.len() == old.pixels.len()
            &&& forall|x: int, y: int|
                0 <= x < old.width && 0 <= y < old.height ==> #[trigger] new[y * old.width + x] == if in_rect(x, y, x0, y0, patch.width as int, patch.height as int) {
                    patch.pixel_at(x - x0, y - y0)
                } else {
                    old.pixel_at(x, y)
                }
        }),
{
    assert forall|x: int, y: int| 0 <= x < old.width && 0 <= y < old.height implies #[trigger] patched_pixels(old.pixels@, old.width as int, patch.pixels@, patch.width as int, patch.height as int, x0, y0)[y * old.width + x] == if in_rect(x, y, x0, y0, patch.width as int, patch.height as int) {
        patch.pixel_at(x - x0, y - y0)
    } else {
        old.pixel_at(x, y)
    } by {
        lemma_patched_pixel(old.pixels@, old.width as int, old.height as int, patch.pixels@, patch.width as int, patch.height as int, x0, y0, x, y);
    }
}

/// Pixel (x, y) of a patched `width`-by-`height` image: the patch's pixel
/// inside the patch's rectangle, the old one elsewhere.
pub proof fn lemma_patched_pixel(
    old: Seq<[u8; 4]>,
    width: int,
    height: int,
    patch: Seq<[u8; 4]>,
    pw: int,
    ph: int,
    x0: int,
    y0: int,
    x: int,
    y: int,
)
    requires
        old.len() == width * height,
        0 <= x < width,
        0 <= y < height,
    ensures
        patched_pixels(old, width, patch, pw, ph, x0, y0)[y * width + x] == if in_rect(x, y, x0, y0, pw, ph) {
            patch[(y - y0) * pw + (x - x0)]
        } else {
            old[y * width + x]
        },
{
    let i = y * width + x;
    lemma_fundamental_div_mod_converse(i, width, y, x);
    assert(0 <= i < width * height) by (nonlinear_arith)
        requires
            0 <= x < width,
            0 <= y < height,
            i == y * width + x,
    ;
}

} // verus!
