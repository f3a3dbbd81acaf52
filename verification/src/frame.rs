//! Captured frames and their reduction to a binary image.

use crate::mask::Mask;
use crate::region::{rectangular, width_of, Image};
use vstd::prelude::*;

verus! {

/// How the bytes of a frame make up its pixels.
#[derive(Clone, Copy, Debug, PartialEq, Eq, Structural)]
pub enum ColorLayout {
    /// One byte per pixel: its luminance.
    Gray,
    /// Three bytes per pixel: blue, green, red.
    Bgr,
}

/// A captured image: `height` rows of `width` pixels, row after row in
/// `data`, each pixel as `layout` says.
#[derive(Debug, PartialEq, Eq)]
pub struct Frame {
    pub width: usize,
    pub height: usize,
    pub layout: ColorLayout,
    pub data: Vec<u8>,
}

/// The number of bytes that a pixel takes.
pub open spec fn channels(layout: ColorLayout) -> nat {
    match layout {
        ColorLayout::Gray => 1,
        ColorLayout::Bgr => 3,
    }
}

/// The luminance of a colour: 0.114 blue + 0.587 green + 0.299 red, in fixed
/// point with fifteen fractional bits, rounded to the nearest integer.
pub open spec fn luma(blue: u8, green: u8, red: u8) -> int {
    (3735 * blue + 19235 * green + 9798 * red + 16384) / 32768
}

impl Frame {
    /// True when `data` holds exactly the bytes of `width` times `height`
    /// pixels.
    pub open spec fn well_formed(&self) -> bool {
        self.data@.len() == self.width * self.height * channels(self.layout)
    }

    /// True when the frame holds no pixel.
    pub open spec fn blank(&self) -> bool {
        self.width == 0 || self.height == 0 || self.data@.len() == 0
    }

    /// The luminance of the pixel in column `x` of row `y`.
    pub open spec fn luminance_at(&self, x: int, y: int) -> int {
        let at = (y * self.width + x) * channels(self.layout);
        match self.layout {
            ColorLayout::Gray => self.data@[at] as int,
            ColorLayout::Bgr => luma(self.data@[at], self.data@[at + 1], self.data@[at + 2]),
        }
    }

    /// The binary image of the frame: a cell is bright where the pixel's
    /// luminance is at least `threshold`.
    pub open spec fn binary(&self, threshold: u8) -> Image {
        Seq::new(
            self.height as nat,
            |y: int| Seq::new(self.width as nat, |x: int| self.luminance_at(x, y) >= threshold),
        )
    }
}

/// The luminance of a colour.
pub fn luminance(blue: u8, green: u8, red: u8) -> (gray: u8)
    ensures
        gray == luma(blue, green, red),
{
    let sum: u32 = 3735 * (blue as u32) + 19235 * (green as u32) + 9798 * (red as u32) + 16384;
    (sum / 32768) as u8
}

/// The number of bytes that a pixel takes.
pub fn bytes_per_pixel(layout: ColorLayout) -> (n: usize)
    ensures
        n == channels(layout),
{
    match layout {
        ColorLayout::Gray => 1,
        ColorLayout::Bgr => 3,
    }
}

proof fn lemma_pixel_in_data(x: int, y: int, width: int, height: int, step: int)
    requires
        0 <= x < width,
        0 <= y < height,
        step >= 1,
    ensures
        0 <= (y * width + x) * step,
        (y * width + x) * step + step <= width * height * step,
        (y * width + x + 1) * step == (y * width + x) * step + step,
        (y + 1) * width + 0 == y * width + width,
{
    assert((y + 1) * width == y * width + width) by (nonlinear_arith);
    assert((y + 1) * width <= height * width) by (nonlinear_arith)
        requires
            y + 1 <= height,
            0 <= width,
    ;
    assert(height * width == width * height) by (nonlinear_arith);
    assert(0 <= y * width) by (nonlinear_arith)
        requires
            0 <= y,
            0 <= width,
    ;
    let at = y * width + x;
    assert(0 <= at * step) by (nonlinear_arith)
        requires
            0 <= at,
            1 <= step,
    ;
    assert((at + 1) * step == at * step + step) by (nonlinear_arith);
    assert((at + 1) * step <= (width * height) * step) by (nonlinear_arith)
        requires
            at + 1 <= width * height,
            1 <= step,
    ;
}

impl Frame {
    /// Whether the frame holds no pixel.
    pub fn is_empty(&self) -> (empty: bool)
        ensures
            empty == self.blank(),
    {
        self.width == 0 || self.height == 0 || self.data.len() == 0
    }

    /// Whether `data` holds exactly the bytes of `width` times `height`
    /// pixels.
    pub fn is_well_formed(&self) -> (ok: bool)
        ensures
            ok == self.well_formed(),
    {
        let step = bytes_per_pixel(self.layout);
        let have = self.data.len();
        assert(self.width * self.height * step >= self.width * self.height) by (nonlinear_arith)
            requires
                step >= 1,
        ;
        match self.width.checked_mul(self.height) {
            Some(pixels) => match pixels.checked_mul(step) {
                Some(bytes) => bytes == have,
                None => false,
            },
            None => false,
        }
    }

    /// The binary image of the frame for `threshold`: a cell is bright where
    /// the pixel's luminance is at least `threshold`. There is none where
    /// the frame is not well formed.
    pub fn binarize(&self, threshold: u8) -> (made: Option<Mask>)
        ensures
            made is Some <==> self.well_formed(),
            made matches Some(mask) ==> mask.wf() && mask@ == self.binary(threshold),
    {
        if !self.is_well_formed() {
            return None;
        }
        let step = bytes_per_pixel(self.layout);
        let total = self.data.len();
        let mut rows: Vec<Vec<bool>> = Vec::new();
        let mut at: usize = 0;
        let mut y: usize = 0;
        while y < self.height
            invariant
                self.well_formed(),
                total == self.data@.len(),
                step == channels(self.layout),
                y <= self.height,
                at == (y * self.width) * step,
                rows@.len() == y,
                forall|k: int| 0 <= k < y ==> (#[trigger] rows@[k])@ == self.binary(threshold)[k],
            decreases self.height - y,
        {
            let mut row: Vec<bool> = Vec::new();
            let mut x: usize = 0;
            while x < self.width
                invariant
                    self.well_formed(),
                    total == self.data@.len(),
                    step == channels(self.layout),
                    y < self.height,
                    x <= self.width,
                    at == (y * self.width + x) * step,
                    row@.len() == x,
                    forall|k: int|
                        0 <= k < x ==> row@[k] == (self.luminance_at(k, y as int) >= threshold),
                decreases self.width - x,
            {
                proof {
                    lemma_pixel_in_data(
                        x as int,
                        y as int,
                        self.width as int,
                        self.height as int,
                        step as int,
                    );
                }
                let gray = match self.layout {
                    ColorLayout::Gray => self.data[at],
                    ColorLayout::Bgr => luminance(
                        self.data[at],
                        self.data[at + 1],
                        self.data[at + 2],
                    ),
                };
                row.push(gray >= threshold);
                at += step;
                x += 1;
            }
            proof {
                if self.width > 0 {
                    lemma_pixel_in_data(
                        0,
                        y as int,
                        self.width as int,
                        self.height as int,
                        step as int,
                    );
                } else {
                    assert((y + 1) * self.width == 0) by (nonlinear_arith)
                        requires
                            self.width == 0,
                    ;
                    assert(y * self.width == 0) by (nonlinear_arith)
                        requires
                            self.width == 0,
                    ;
                }
                assert(row@ == self.binary(threshold)[y as int]);
            }
            rows.push(row);
            y += 1;
        }
        let ghost image = Seq::new(rows@.len(), |y: int| rows@[y]@);
        proof {
            assert(image == self.binary(threshold));
            assert(rectangular(image));
            let cells = image.len() * width_of(image);
            let pixels = self.width * self.height;
            if self.height > 0 {
                assert(image[0].len() == self.width);
                assert(cells == pixels) by (nonlinear_arith)
                    requires
                        cells == image.len() * width_of(image),
                        pixels == self.width * self.height,
                        image.len() == self.height,
                        width_of(image) == self.width,
                ;
            } else {
                assert(cells == 0) by (nonlinear_arith)
                    requires
                        cells == image.len() * width_of(image),
                        image.len() == 0,
                ;
            }
            assert(0 <= pixels <= pixels * step) by (nonlinear_arith)
                requires
                    pixels == self.width * self.height,
                    step >= 1,
            ;
            assert(pixels * step == total);
            assert(cells <= usize::MAX);
        }
        Mask::from_rows(rows)
    }
}

} // verus!
