//! Frames: grids of pixels that are on or off.

use crate::numbers::lemma_cell_in_grid;
use vstd::prelude::*;

verus! {

/// The luminance of an sRGB colour with 8-bit channels, on the same scale.
pub open spec fn srgb_luma(red: u8, green: u8, blue: u8) -> int {
    (2126 * red + 7152 * green + 722 * blue) / 10000
}

/// Calls `image::Pixel::to_luma` on an `image::Rgba<u8>` pixel and takes the
/// one channel of the result. The crate weighs red, green and blue by 2126,
/// 7152 and 722, divides the sum by 10000 in whole numbers and drops alpha;
/// the contract says that.
#[verifier::external_body]
fn luma_of(red: u8, green: u8, blue: u8, alpha: u8) -> (luma: u8)
    ensures
        luma == srgb_luma(red, green, blue),
{
    image::Pixel::to_luma(&image::Rgba::<u8>([red, green, blue, alpha])).0[0]
}

/// Whether a pixel counts as on: its luminance is above 127.
pub open spec fn lit(red: u8, green: u8, blue: u8) -> bool {
    srgb_luma(red, green, blue) > 127
}

/// Thresholds one RGBA pixel: on if its luminance is above 127.
pub fn to_1bit(red: u8, green: u8, blue: u8, alpha: u8) -> (on: bool)
    ensures
        on == lit(red, green, blue),
{
    luma_of(red, green, blue, alpha) > 127
}

/// A frame as a mathematical value: its pixels row by row from the top.
pub ghost struct FrameView {
    pub width: nat,
    pub height: nat,
    pub pixels: Seq<bool>,
}

/// One frame of the video: a grid of on/off pixels, the top row first.
#[derive(Clone, Debug, PartialEq, Eq)]
pub struct Frame {
    width: usize,
    height: usize,
    pixels: Vec<bool>,
}

impl View for Frame {
    type V = FrameView;

    closed spec fn view(&self) -> FrameView {
        FrameView {
            width: self.width as nat,
            height: self.height as nat,
            pixels: self.pixels@,
        }
    }
}

/// The thresholded pixels of the first `count` RGBA quadruples of `bytes`.
pub open spec fn thresholded(bytes: Seq<u8>, count: nat) -> Seq<bool> {
    Seq::new(count, |i: int| lit(bytes[4 * i], bytes[4 * i + 1], bytes[4 * i + 2]))
}

impl Frame {
    /// A frame holds one pixel for each place of its grid.
    pub open spec fn wf(&self) -> bool {
        self@.pixels.len() == self@.width * self@.height
    }

    /// The frame of the given size with the given pixels, row by row from
    /// the top; `None` unless there are `width * height` of them.
    pub fn new(width: usize, height: usize, pixels: Vec<bool>) -> (frame: Option<Frame>)
        ensures
            frame.is_some() <==> pixels@.len() == width * height,
            frame matches Some(f) ==> f.wf() && f@ == (FrameView {
                width: width as nat,
                height: height as nat,
                pixels: pixels@,
            }),
    {
        let len = pixels.len();
        match width.checked_mul(height) {
            Some(area) => {
                if area == len {
                    Some(Frame { width, height, pixels })
                } else {
                    None
                }
            },
            None => None,
        }
    }

    /// The frame of the given size with every pixel off.
    pub fn blank(width: usize, height: usize) -> (frame: Option<Frame>)
        ensures
            frame.is_some() <==> width * height <= usize::MAX,
            frame matches Some(f) ==> f.wf() && f@ == (FrameView {
                width: width as nat,
                height: height as nat,
                pixels: Seq::new((width * height) as nat, |i: int| false),
            }),
    {
        match width.checked_mul(height) {
            Some(area) => {
                let mut pixels: Vec<bool> = Vec::new();
                let mut i: usize = 0;
                while i < area
                    invariant
                        i <= area,
                        pixels@ =~= Seq::new(i as nat, |j: int| false),
                    decreases area - i,
                {
                    pixels.push(false);
                    i = i + 1;
                }
                Some(Frame { width, height, pixels })
            },
            None => None,
        }
    }

    /// Thresholds an image given as RGBA bytes, four to the pixel, row by
    /// row from the top; `None` unless there are `4 * width * height` bytes.
    pub fn from_rgba(width: usize, height: usize, bytes: &[u8]) -> (frame: Option<Frame>)
        ensures
            frame.is_some() <==> bytes@.len() == 4 * (width * height),
            frame matches Some(f) ==> f.wf() && f@ == (FrameView {
                width: width as nat,
                height: height as nat,
                pixels: thresholded(bytes@, (width * height) as nat),
            }),
    {
        let len = bytes.len();
        let area = match width.checked_mul(height) {
            Some(area) => area,
            None => {
                return None;
            },
        };
        if len % 4 != 0 || len / 4 != area {
            return None;
        }
        let mut pixels: Vec<bool> = Vec::new();
        let mut i: usize = 0;
        while i < area
            invariant
                i <= area,
                bytes@.len() == 4 * area,
                bytes@.len() == len,
                pixels@ =~= thresholded(bytes@, i as nat),
            decreases area - i,
        {
            let at = 4 * i;
            let on = to_1bit(bytes[at], bytes[at + 1], bytes[at + 2], bytes[at + 3]);
            pixels.push(on);
            i = i + 1;
        }
        Some(Frame { width, height, pixels })
    }

    /// The number of pixels in a row.
    pub fn width(&self) -> (w: usize)
        ensures
            w == self@.width,
    {
        self.width
    }

    /// The number of rows.
    pub fn height(&self) -> (h: usize)
        ensures
            h == self@.height,
    {
        self.height
    }

    /// Whether the pixel in column `x` of row `y`, counted from the top, is on.
    pub fn pixel(&self, x: usize, y: usize) -> (on: bool)
        requires
            self.wf(),
            x < self@.width,
            y < self@.height,
        ensures
            on == self@.pixels[y * self@.width + x],
    {
        let len = self.pixels.len();
        proof {
            lemma_cell_in_grid(x as int, y as int, self.width as int, self.height as int);
            assert(len == self.width * self.height);
        }
        self.pixels[y * self.width + x]
    }

    /// The pixels, row by row from the top.
    pub(crate) fn pixels(&self) -> (p: &Vec<bool>)
        ensures
            p@ == self@.pixels,
    {
        &self.pixels
    }
}

} // verus!
