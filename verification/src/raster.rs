//! Eight-bit RGB rasters held as interleaved samples in row-major order.

use vstd::prelude::*;
use vstd::slice::slice_subrange;

verus! {

/// One pixel: red, green and blue samples.
#[derive(Clone, Copy, Debug, PartialEq, Eq, Structural)]
pub struct Rgb {
    pub r: u8,
    pub g: u8,
    pub b: u8,
}

/// An RGB image: `3 * width * height` samples, rows from top to bottom,
/// pixels from left to right, each pixel as red, green, blue.
#[derive(Debug)]
pub struct Raster {
    pub(crate) width: u32,
    pub(crate) height: u32,
    pub(crate) data: Vec<u8>,
}

/// What a raster holds, as mathematical values.
pub struct RasterView {
    pub width: nat,
    pub height: nat,
    pub samples: Seq<u8>,
}

/// Position of the red sample of pixel `(x, y)` in a raster of width `width`.
pub open spec fn sample_index(width: nat, x: int, y: int) -> int {
    3 * (y * width + x)
}

impl RasterView {
    /// The sample count matches the dimensions, which fit the machine's
    /// coordinate type, and the samples of one row can be counted on the
    /// machine even where there is no row.
    pub open spec fn wf(self) -> bool {
        &&& self.width <= u32::MAX
        &&& self.height <= u32::MAX
        &&& 3 * self.width <= usize::MAX
        &&& self.samples.len() == 3 * self.width * self.height
    }

    /// The pixel at column `x`, row `y`.
    pub open spec fn pixel(self, x: int, y: int) -> Rgb {
        let i = sample_index(self.width, x, y);
        Rgb { r: self.samples[i], g: self.samples[i + 1], b: self.samples[i + 2] }
    }

    /// This raster with the pixel at column `x`, row `y` replaced.
    pub open spec fn with_pixel(self, x: int, y: int, colour: Rgb) -> RasterView {
        let i = sample_index(self.width, x, y);
        RasterView {
            width: self.width,
            height: self.height,
            samples: self.samples.update(i, colour.r).update(i + 1, colour.g).update(
                i + 2,
                colour.b,
            ),
        }
    }

    /// The rectangle that a crop at `(x, y)` of `width` by `height` pixels
    /// keeps: its corner moved into the raster, its extent cut to what is
    /// left of the raster from there.
    pub open spec fn crop_rect(self, x: nat, y: nat, width: nat, height: nat) -> (
        nat,
        nat,
        nat,
        nat,
    ) {
        let cx = if x <= self.width {
            x
        } else {
            self.width
        };
        let cy = if y <= self.height {
            y
        } else {
            self.height
        };
        let cw = if width <= self.width - cx {
            width
        } else {
            (self.width - cx) as nat
        };
        let ch = if height <= self.height - cy {
            height
        } else {
            (self.height - cy) as nat
        };
        (cx, cy, cw, ch)
    }

    /// The cut-out of this raster at `(x, y)` of `width` by `height` pixels,
    /// cut to the raster's bounds.
    pub open spec fn crop(self, x: nat, y: nat, width: nat, height: nat) -> RasterView {
        let (cx, cy, cw, ch) = self.crop_rect(x, y, width, height);
        RasterView {
            width: cw,
            height: ch,
            samples: Seq::new(
                3 * cw * ch,
                |k: int|
                    self.samples[sample_index(self.width, cx + (k / 3) % (cw as int), cy + (k / 3)
                        / (cw as int)) + k % 3],
            ),
        }
    }

    /// A raster of the given dimensions whose samples are all zero.
    pub open spec fn blank(width: nat, height: nat) -> RasterView {
        RasterView { width, height, samples: Seq::new(3 * width * height, |k: int| 0u8) }
    }
}

/// The samples of pixel `(x, y)` lie inside a raster that holds the pixel.
pub proof fn lemma_sample_index_in_bounds(width: nat, height: nat, x: int, y: int)
    requires
        0 <= x < width,
        0 <= y < height,
    ensures
        0 <= sample_index(width, x, y),
        sample_index(width, x, y) + 3 <= 3 * width * height,
        sample_index(width, x, y) == 3 * (y * width) + 3 * x,
{
    assert(0 <= y * width && y * width + width <= height * width) by (nonlinear_arith)
        requires
            0 <= y < height,
            width >= 0,
    ;
    assert(3 * width * height == 3 * (height * width)) by (nonlinear_arith);
}

/// Pixels at different positions have disjoint samples.
pub proof fn lemma_sample_index_distinct(width: nat, x1: int, y1: int, x2: int, y2: int)
    requires
        0 <= x1 < width,
        0 <= x2 < width,
        0 <= y1,
        0 <= y2,
        (x1, y1) != (x2, y2),
    ensures
        sample_index(width, x1, y1) + 3 <= sample_index(width, x2, y2) || sample_index(
            width,
            x2,
            y2,
        ) + 3 <= sample_index(width, x1, y1),
{
    if y1 < y2 {
        assert(y1 * width + width <= y2 * width) by (nonlinear_arith)
            requires
                y1 + 1 <= y2,
                width >= 0,
        ;
    } else if y2 < y1 {
        assert(y2 * width + width <= y1 * width) by (nonlinear_arith)
            requires
                y2 + 1 <= y1,
                width >= 0,
        ;
    }
}

/// Replacing a pixel changes that pixel and no other.
pub proof fn lemma_with_pixel(view: RasterView, x: int, y: int, colour: Rgb, px: int, py: int)
    requires
        view.wf(),
        0 <= x < view.width,
        0 <= y < view.height,
        0 <= px < view.width,
        0 <= py < view.height,
    ensures
        view.with_pixel(x, y, colour).wf(),
        view.with_pixel(x, y, colour).pixel(px, py) == (if (px, py) == (x, y) {
            colour
        } else {
            view.pixel(px, py)
        }),
{
    lemma_sample_index_in_bounds(view.width, view.height, x, y);
    lemma_sample_index_in_bounds(view.width, view.height, px, py);
    if (px, py) != (x, y) {
        lemma_sample_index_distinct(view.width, x, y, px, py);
    }
}

/// Each pixel of a cut-out is the pixel of the source at the same offset
/// from the cut-out's corner.
pub proof fn lemma_crop_pixel(
    view: RasterView,
    x: nat,
    y: nat,
    width: nat,
    height: nat,
    i: int,
    j: int,
)
    requires
        view.wf(),
        0 <= i < view.crop(x, y, width, height).width,
        0 <= j < view.crop(x, y, width, height).height,
    ensures
        view.crop(x, y, width, height).wf(),
        view.crop(x, y, width, height).pixel(i, j) == view.pixel(
            view.crop_rect(x, y, width, height).0 + i,
            view.crop_rect(x, y, width, height).1 + j,
        ),
{
    let (cx, cy, cw, ch) = view.crop_rect(x, y, width, height);
    let cropped = view.crop(x, y, width, height);
    lemma_sample_index_in_bounds(cw, ch, i, j);
    let base = sample_index(cw, i, j);
    assert forall|c: int| 0 <= c < 3 implies (#[trigger] cropped.samples[base + c])
        == view.samples[sample_index(view.width, cx + i, cy + j) + c] by {
        let k = base + c;
        assert(k / 3 == j * cw + i && k % 3 == c);
        let q = j * cw + i;
        assert(q / (cw as int) == j && q % (cw as int) == i) by (nonlinear_arith)
            requires
                q == j * cw + i,
                0 <= i < cw,
                0 <= j,
        ;
    }
    assert(cropped.samples[base + 0] == view.samples[sample_index(view.width, cx + i, cy + j)
        + 0]);
    assert(cropped.samples[base + 1] == view.samples[sample_index(view.width, cx + i, cy + j)
        + 1]);
    assert(cropped.samples[base + 2] == view.samples[sample_index(view.width, cx + i, cy + j)
        + 2]);
}

impl View for Raster {
    type V = RasterView;

    open(crate) spec fn view(&self) -> RasterView {
        RasterView { width: self.width as nat, height: self.height as nat, samples: self.data@ }
    }
}

impl Raster {
    /// A black raster of the given dimensions, which must not take more
    /// memory than can be allocated.
    pub fn new(width: u32, height: u32) -> (raster: Raster)
        requires
            3 * width <= usize::MAX,
            3 * width * height <= isize::MAX,
        ensures
            raster@.wf(),
            raster@ == RasterView::blank(width as nat, height as nat),
    {
        assert(3 * width <= 3 * width * height || height == 0) by (nonlinear_arith)
            requires
                width >= 0,
                height >= 0,
        ;
        assert(height == 0 ==> 3 * width * height == 0) by (nonlinear_arith);
        let count: usize = if height == 0 {
            0
        } else {
            3 * (width as usize) * (height as usize)
        };
        let data: Vec<u8> = vec![0u8; count];
        let raster = Raster { width, height, data };
        assert(raster@.samples =~= RasterView::blank(width as nat, height as nat).samples);
        raster
    }

    /// The raster over `data`, if `data` holds exactly the samples of a
    /// `width` by `height` image and the samples of one row can be counted
    /// on the machine.
    pub fn from_raw(width: u32, height: u32, data: Vec<u8>) -> (raster: Option<Raster>)
        ensures
            raster is Some <==> data@.len() == 3 * width * height && 3 * width <= usize::MAX,
            raster matches Some(r) ==> r@.wf() && r@ == (RasterView {
                width: width as nat,
                height: height as nat,
                samples: data@,
            }),
    {
        assert(0 <= width * height <= 0xffff_ffff * 0xffff_ffff) by (nonlinear_arith)
            requires
                0 <= width <= 0xffff_ffff,
                0 <= height <= 0xffff_ffff,
        ;
        let pixels: u64 = (width as u64) * (height as u64);
        assert(3 * width * height == 3 * (width * height)) by (nonlinear_arith);
        let wanted: u128 = 3 * (pixels as u128);
        if data.len() as u128 == wanted && 3 * (width as u64) <= usize::MAX as u64 {
            Some(Raster { width, height, data })
        } else {
            None
        }
    }

    /// The samples of the raster.
    pub fn into_raw(self) -> (data: Vec<u8>)
        ensures
            data@ == self@.samples,
    {
        self.data
    }

    /// The samples of the raster.
    pub fn as_raw(&self) -> (data: &Vec<u8>)
        ensures
            data@ == self@.samples,
    {
        &self.data
    }

    /// Number of pixel columns.
    pub fn width(&self) -> (width: u32)
        ensures
            width == self@.width,
    {
        self.width
    }

    /// Number of pixel rows.
    pub fn height(&self) -> (height: u32)
        ensures
            height == self@.height,
    {
        self.height
    }

    /// The pixel at column `x`, row `y`.
    pub fn get_pixel(&self, x: u32, y: u32) -> (colour: Rgb)
        requires
            self@.wf(),
            x < self@.width,
            y < self@.height,
        ensures
            colour == self@.pixel(x as int, y as int),
    {
        let count: usize = self.data.len();
        proof {
            lemma_sample_index_in_bounds(self@.width, self@.height, x as int, y as int);
            assert(0 <= y * self.width <= 3 * (y * self.width)) by (nonlinear_arith)
                requires
                    0 <= y,
                    0 <= self.width,
            ;
        }
        let i: usize = 3 * ((y as usize) * (self.width as usize) + (x as usize));
        Rgb { r: self.data[i], g: self.data[i + 1], b: self.data[i + 2] }
    }

    /// Replaces the pixel at column `x`, row `y`.
    pub fn put_pixel(&mut self, x: u32, y: u32, colour: Rgb)
        requires
            old(self)@.wf(),
            x < old(self)@.width,
            y < old(self)@.height,
        ensures
            final(self)@ == old(self)@.with_pixel(x as int, y as int, colour),
            final(self)@.wf(),
    {
        let count: usize = self.data.len();
        proof {
            lemma_sample_index_in_bounds(self@.width, self@.height, x as int, y as int);
            assert(0 <= y * self.width <= 3 * (y * self.width)) by (nonlinear_arith)
                requires
                    0 <= y,
                    0 <= self.width,
            ;
        }
        let i: usize = 3 * ((y as usize) * (self.width as usize) + (x as usize));
        self.data.set(i, colour.r);
        self.data.set(i + 1, colour.g);
        self.data.set(i + 2, colour.b);
    }

    /// The cut-out at `(x, y)` of `width` by `height` pixels, cut to the
    /// raster's bounds.
    pub fn crop(&self, x: u32, y: u32, width: u32, height: u32) -> (cropped: Raster)
        requires
            self@.wf(),
        ensures
            cropped@.wf(),
            cropped@ == self@.crop(x as nat, y as nat, width as nat, height as nat),
    {
        let cx: u32 = if x <= self.width {
            x
        } else {
            self.width
        };
        let cy: u32 = if y <= self.height {
            y
        } else {
            self.height
        };
        let cw: u32 = if width <= self.width - cx {
            width
        } else {
            self.width - cx
        };
        let ch: u32 = if height <= self.height - cy {
            height
        } else {
            self.height - cy
        };
        let ghost target = self@.crop(x as nat, y as nat, width as nat, height as nat);
        let count: usize = self.data.len();
        let mut data: Vec<u8> = Vec::new();
        let mut j: u32 = 0;
        assert(3 * cw * 0 == 0) by (nonlinear_arith);
        while cw > 0 && j < ch
            invariant
                self@.wf(),
                count == self.data@.len(),
                j <= ch,
                cx + cw <= self.width,
                cy + ch <= self.height,
                target == self@.crop(x as nat, y as nat, width as nat, height as nat),
                self@.crop_rect(x as nat, y as nat, width as nat, height as nat) == (
                    cx as nat,
                    cy as nat,
                    cw as nat,
                    ch as nat,
                ),
                target.width == cw,
                target.height == ch,
                data@.len() == 3 * cw * j,
                data@.len() <= target.samples.len(),
                forall|k: int| 0 <= k < data@.len() ==> data@[k] == target.samples[k],
            decreases ch - j,
        {
            proof {
                lemma_sample_index_in_bounds(
                    self@.width,
                    self@.height,
                    cx as int,
                    (cy + j) as int,
                );
                assert(0 <= (cy + j) * self.width <= 3 * ((cy + j) * self.width))
                    by (nonlinear_arith)
                    requires
                        0 <= cy + j,
                        0 <= self.width,
                ;
                lemma_sample_index_in_bounds(
                    self@.width,
                    self@.height,
                    (cx + cw - 1) as int,
                    (cy + j) as int,
                );
            }
            let from: usize = 3 * (((cy + j) as usize) * (self.width as usize) + (cx as usize));
            let to: usize = from + 3 * (cw as usize);
            let row = slice_subrange(self.data.as_slice(), from, to);
            let ghost before = data@;
            data.extend_from_slice(row);
            proof {
                assert(3 * cw * (j + 1) == 3 * cw * j + 3 * cw) by (nonlinear_arith);
                assert(3 * cw * (j + 1) <= 3 * cw * ch) by (nonlinear_arith)
                    requires
                        j + 1 <= ch,
                        cw >= 0,
                ;
                assert forall|k: int| 0 <= k < data@.len() implies data@[k]
                    == target.samples[k] by {
                    if k >= before.len() {
                        let c = k - before.len();
                        assert(cloned::<u8>(row@[c], data@[k]));
                        assert(data@[k] == row@[c]);
                        assert(row@[c] == self.data@[from + c]);
                        assert(0 <= c < 3 * cw);
                        let q = k / 3;
                        assert(q == cw * j + c / 3 && k % 3 == c % 3) by {
                            assert(3 * cw * j == 3 * (cw * j)) by (nonlinear_arith);
                        }
                        assert(q / (cw as int) == j && q % (cw as int) == c / 3)
                            by (nonlinear_arith)
                            requires
                                q == cw * j + c / 3,
                                0 <= c / 3 < cw,
                                0 <= j,
                        ;
                        assert(target.samples[k] == self@.samples[sample_index(
                            self@.width,
                            cx + c / 3,
                            cy + j,
                        ) + c % 3]);
                        assert(sample_index(self@.width, cx + c / 3, cy + j) + c % 3 == from + c)
                            by {
                            assert((cy + j) * self.width + (cx + c / 3) == ((cy + j) * self.width
                                + cx) + c / 3);
                        }
                    } else {
                        assert(data@[k] == before[k]);
                    }
                }
            }
            j = j + 1;
        }
        assert(data@.len() == target.samples.len()) by {
            if cw == 0 {
                assert(3 * cw * ch == 0 && 3 * cw * j == 0) by (nonlinear_arith)
                    requires
                        cw == 0,
                ;
            }
        }
        let cropped = Raster { width: cw, height: ch, data };
        assert(cropped@.samples =~= target.samples);
        cropped
    }
}

} // verus!
