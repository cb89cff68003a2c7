//! Single-channel images, binarisation and ink projection profiles.
use vstd::prelude::*;
use crate::calculate::{
    get_standard_deviation, profile_ok, variance_num, Fraction, MAX_SIDE,
};

verus! {

/// Sample value of an ink pixel in a binary image.
pub const INK: u8 = 0;

/// Sample value of a background pixel in a binary image.
pub const BACKGROUND: u8 = 255;

/// Grey level at and below which a pixel becomes ink.
pub const THRESHOLD: u8 = 127;

/// A single-channel image of 8-bit samples, stored row by row from the
/// top-left corner.
#[derive(Clone, Debug)]
pub struct GrayImage {
    pub width: usize,
    pub height: usize,
    pub pixels: Vec<u8>,
}

impl GrayImage {
    /// Sample count matches the size, and both sides are supported.
    pub open spec fn wf(&self) -> bool {
        &&& self.pixels@.len() == self.width * self.height
        &&& self.width * self.height <= usize::MAX
        &&& self.width <= MAX_SIDE
        &&& self.height <= MAX_SIDE
    }

    /// Sample at `(row, col)`.
    pub open spec fn at(&self, row: int, col: int) -> u8 {
        self.pixels@[row * self.width + col]
    }

    /// Builds an image from its samples; `None` when their number is not
    /// `width * height` or a side exceeds `MAX_SIDE`.
    pub fn new(width: usize, height: usize, pixels: Vec<u8>) -> (r: Option<GrayImage>)
        ensures
            r is Some <==> (pixels@.len() == width * height && width <= MAX_SIDE && height
                <= MAX_SIDE),
            r is Some ==> r->0.wf() && r->0.width == width && r->0.height == height
                && r->0.pixels@ == pixels@,
    {
        if width as u64 > MAX_SIDE || height as u64 > MAX_SIDE {
            return None;
        }
        proof {
            lemma_area_bound(width as int, height as int);
        }
        if pixels.len() as u64 != width as u64 * height as u64 {
            return None;
        }
        Some(GrayImage { width, height, pixels })
    }
}

proof fn lemma_area_bound(w: int, h: int)
    requires
        0 <= w <= MAX_SIDE,
        0 <= h <= MAX_SIDE,
    ensures
        w * h <= MAX_SIDE * MAX_SIDE,
        w * h <= 1099511627776,
{
    assert(w * h <= 1048576 * 1048576) by (nonlinear_arith)
        requires
            0 <= w <= 1048576,
            0 <= h <= 1048576,
    ;
}

proof fn lemma_index(w: int, h: int, row: int, col: int)
    requires
        0 <= row < h,
        0 <= col < w,
    ensures
        0 <= row * w + col < w * h,
        row * w + col < h * w,
        row * w + col < (row + 1) * w,
{
    assert(0 <= row * w + col < w * h && w * h == h * w) by (nonlinear_arith)
        requires
            0 <= row < h,
            0 <= col < w,
    ;
    assert((row + 1) * w == row * w + w) by (nonlinear_arith);
}

/// Number of ink samples among the first `k` of row `row`.
pub open spec fn row_ink(img: GrayImage, row: int, k: int) -> nat
    decreases k,
{
    if k <= 0 {
        0
    } else {
        row_ink(img, row, k - 1) + if img.at(row, k - 1) == INK { 1nat } else { 0nat }
    }
}

/// Number of ink samples among the first `k` of column `col`.
pub open spec fn col_ink(img: GrayImage, col: int, k: int) -> nat
    decreases k,
{
    if k <= 0 {
        0
    } else {
        col_ink(img, col, k - 1) + if img.at(k - 1, col) == INK { 1nat } else { 0nat }
    }
}

proof fn lemma_row_ink_bound(img: GrayImage, row: int, k: int)
    ensures
        row_ink(img, row, k) <= if k < 0 { 0 } else { k },
    decreases k,
{
    if k > 0 {
        lemma_row_ink_bound(img, row, k - 1);
    }
}

proof fn lemma_col_ink_bound(img: GrayImage, col: int, k: int)
    ensures
        col_ink(img, col, k) <= if k < 0 { 0 } else { k },
    decreases k,
{
    if k > 0 {
        lemma_col_ink_bound(img, col, k - 1);
    }
}

/// Binarises a grey image: samples above `THRESHOLD` become background,
/// the others ink.
pub fn transfer_gray_image_to_thresh_binary(src: &GrayImage) -> (r: GrayImage)
    requires
        src.wf(),
    ensures
        r.wf(),
        r.width == src.width,
        r.height == src.height,
        forall|i: int|
            0 <= i < r.pixels@.len() ==> #[trigger] r.pixels@[i] == if src.pixels@[i] > THRESHOLD {
                BACKGROUND
            } else {
                INK
            },
{
    let mut pixels: Vec<u8> = Vec::with_capacity(src.pixels.len());
    let mut i: usize = 0;
    while i < src.pixels.len()
        invariant
            i <= src.pixels@.len(),
            pixels@.len() == i,
            forall|k: int|
                0 <= k < i ==> #[trigger] pixels@[k] == if src.pixels@[k] > THRESHOLD {
                    BACKGROUND
                } else {
                    INK
                },
        decreases src.pixels@.len() - i,
    {
        let v = if src.pixels[i] > THRESHOLD {
            BACKGROUND
        } else {
            INK
        };
        pixels.push(v);
        i = i + 1;
    }
    GrayImage { width: src.width, height: src.height, pixels }
}

/// Ink count of every row, top to bottom.
pub fn get_horizontal_projection(src: &GrayImage) -> (r: Vec<u64>)
    requires
        src.wf(),
    ensures
        r@.len() == src.height,
        forall|row: int| 0 <= row < src.height ==> #[trigger] r@[row] == row_ink(*src, row, src.width as int),
        profile_ok(r@),
{
    let mut result: Vec<u64> = Vec::with_capacity(src.height);
    let mut row: usize = 0;
    while row < src.height
        invariant
            src.wf(),
            row <= src.height,
            result@.len() == row,
            forall|k: int| 0 <= k < row ==> #[trigger] result@[k] == row_ink(*src, k, src.width as int),
            profile_ok(result@),
        decreases src.height - row,
    {
        let mut count: u64 = 0;
        let mut col: usize = 0;
        while col < src.width
            invariant
                src.wf(),
                row < src.height,
                col <= src.width,
                count == row_ink(*src, row as int, col as int),
            decreases src.width - col,
        {
            proof {
                lemma_index(src.width as int, src.height as int, row as int, col as int);
                lemma_row_ink_bound(*src, row as int, col as int);
            }
            if src.pixels[row * src.width + col] == INK {
                count = count + 1;
            }
            col = col + 1;
        }
        proof {
            lemma_row_ink_bound(*src, row as int, src.width as int);
        }
        result.push(count);
        row = row + 1;
    }
    result
}

/// Ink count of every column, left to right.
pub fn get_vertical_projection(src: &GrayImage) -> (r: Vec<u64>)
    requires
        src.wf(),
    ensures
        r@.len() == src.width,
        forall|col: int| 0 <= col < src.width ==> #[trigger] r@[col] == col_ink(*src, col, src.height as int),
        profile_ok(r@),
{
    let mut result: Vec<u64> = Vec::with_capacity(src.width);
    let mut col: usize = 0;
    while col < src.width
        invariant
            src.wf(),
            col <= src.width,
            result@.len() == col,
            forall|k: int| 0 <= k < col ==> #[trigger] result@[k] == col_ink(*src, k, src.height as int),
            profile_ok(result@),
        decreases src.width - col,
    {
        let mut count: u64 = 0;
        let mut row: usize = 0;
        while row < src.height
            invariant
                src.wf(),
                col < src.width,
                row <= src.height,
                count == col_ink(*src, col as int, row as int),
            decreases src.height - row,
        {
            proof {
                lemma_index(src.width as int, src.height as int, row as int, col as int);
                lemma_col_ink_bound(*src, col as int, row as int);
            }
            if src.pixels[row * src.width + col] == INK {
                count = count + 1;
            }
            row = row + 1;
        }
        proof {
            lemma_col_ink_bound(*src, col as int, src.height as int);
        }
        result.push(count);
        col = col + 1;
    }
    result
}

/// Row and column profiles of a binary image together.
pub fn get_mat_projection_data(src: &GrayImage) -> (r: (Vec<u64>, Vec<u64>))
    requires
        src.wf(),
    ensures
        r.0@.len() == src.height,
        r.1@.len() == src.width,
        forall|row: int| 0 <= row < src.height ==> #[trigger] r.0@[row] == row_ink(*src, row, src.width as int),
        forall|col: int| 0 <= col < src.width ==> #[trigger] r.1@[col] == col_ink(*src, col, src.height as int),
        profile_ok(r.0@),
        profile_ok(r.1@),
{
    (get_horizontal_projection(src), get_vertical_projection(src))
}

/// Row profile of a binary image, as a sequence.
pub open spec fn horizontal_profile(img: GrayImage) -> Seq<u64> {
    Seq::new(img.height as nat, |row: int| row_ink(img, row, img.width as int) as u64)
}

/// Column profile of a binary image, as a sequence.
pub open spec fn vertical_profile(img: GrayImage) -> Seq<u64> {
    Seq::new(img.width as nat, |col: int| col_ink(img, col, img.height as int) as u64)
}

/// Standard deviations (as exact squares) of the column profile and of the
/// row profile of a non-empty binary image, in that order.
pub fn get_projection_standard_deviations(src: &GrayImage) -> (r: (Fraction, Fraction))
    requires
        src.wf(),
        src.width > 0,
        src.height > 0,
    ensures
        r.0.wf(),
        r.1.wf(),
        r.0.num == variance_num(vertical_profile(*src)),
        r.0.den == src.width * src.width,
        r.1.num == variance_num(horizontal_profile(*src)),
        r.1.den == src.height * src.height,
{
    let (horizontal, vertical) = get_mat_projection_data(src);
    assert(horizontal@ =~= horizontal_profile(*src));
    assert(vertical@ =~= vertical_profile(*src));
    let vertical_sd = get_standard_deviation(&vertical);
    let horizontal_sd = get_standard_deviation(&horizontal);
    (vertical_sd, horizontal_sd)
}

/// Scale `num / den` that fits a side of `len` pixels into `bound` pixels;
/// a bound of zero or less leaves the side as it is.
pub open spec fn side_scale(len: u32, bound: i32) -> (int, int) {
    if bound <= 0 {
        (1, 1)
    } else {
        (bound as int, len as int)
    }
}

/// Downscale factor `num / den` of the projection sweep: the smaller of the
/// width and height factors (the width one on a tie), and never above one
/// unless `allow_upscale` is set.
pub open spec fn resize_scale(width: u32, height: u32, max_width: i32, max_height: i32, allow_upscale: bool) -> (int, int) {
    let w = side_scale(width, max_width);
    let h = side_scale(height, max_height);
    let s = if h.0 * w.1 < w.0 * h.1 {
        h
    } else {
        w
    };
    if !allow_upscale && s.0 > s.1 {
        (1, 1)
    } else {
        s
    }
}

/// Computes `resize_scale` for an image of `width` by `height` pixels.
pub fn projection_resize_scale(
    width: u32,
    height: u32,
    max_width: i32,
    max_height: i32,
    allow_upscale: bool,
) -> (r: (u64, u64))
    requires
        width > 0,
        height > 0,
    ensures
        (r.0 as int, r.1 as int) == resize_scale(width, height, max_width, max_height, allow_upscale),
        r.1 > 0,
{
    let w: (u64, u64) = if max_width <= 0 {
        (1, 1)
    } else {
        (max_width as u64, width as u64)
    };
    let h: (u64, u64) = if max_height <= 0 {
        (1, 1)
    } else {
        (max_height as u64, height as u64)
    };
    proof {
        assert(h.0 * w.1 <= u32::MAX * u32::MAX) by (nonlinear_arith)
            requires
                h.0 <= u32::MAX,
                w.1 <= u32::MAX,
        ;
        assert(w.0 * h.1 <= u32::MAX * u32::MAX) by (nonlinear_arith)
            requires
                w.0 <= u32::MAX,
                h.1 <= u32::MAX,
        ;
    }
    let s = if h.0 * w.1 < w.0 * h.1 {
        h
    } else {
        w
    };
    if !allow_upscale && s.0 > s.1 {
        (1, 1)
    } else {
        s
    }
}

/// `floor(len * num / den)`: one side of the downscaled image.
pub fn scaled_side(len: u32, scale: (u64, u64)) -> (r: u64)
    requires
        scale.1 > 0,
        scale.0 <= u32::MAX,
    ensures
        r == (len as int * scale.0) / scale.1 as int,
{
    proof {
        assert(len as int * scale.0 <= u32::MAX * u32::MAX) by (nonlinear_arith)
            requires
                len <= u32::MAX,
                scale.0 <= u32::MAX,
        ;
    }
    (len as u64 * scale.0) / scale.1
}

/// Number of dark samples (at or below `THRESHOLD`) among the first `k` of
/// row `row`.
pub open spec fn row_dark(img: GrayImage, row: int, k: int) -> nat
    decreases k,
{
    if k <= 0 {
        0
    } else {
        row_dark(img, row, k - 1) + if img.at(row, k - 1) <= THRESHOLD { 1nat } else { 0nat }
    }
}

/// Number of dark samples among the first `k` of column `col`.
pub open spec fn col_dark(img: GrayImage, col: int, k: int) -> nat
    decreases k,
{
    if k <= 0 {
        0
    } else {
        col_dark(img, col, k - 1) + if img.at(k - 1, col) <= THRESHOLD { 1nat } else { 0nat }
    }
}

/// Dark-sample count of every row (`by_row`) or every column.
fn dark_counts(src: &GrayImage, by_row: bool) -> (r: Vec<usize>)
    requires
        src.wf(),
    ensures
        by_row ==> r@.len() == src.height && forall|i: int|
            0 <= i < src.height ==> #[trigger] r@[i] == row_dark(*src, i, src.width as int),
        !by_row ==> r@.len() == src.width && forall|i: int|
            0 <= i < src.width ==> #[trigger] r@[i] == col_dark(*src, i, src.height as int),
{
    let lines = if by_row { src.height } else { src.width };
    let len = if by_row { src.width } else { src.height };
    let mut result: Vec<usize> = Vec::with_capacity(lines);
    let mut i: usize = 0;
    while i < lines
        invariant
            src.wf(),
            lines == (if by_row { src.height } else { src.width }),
            len == (if by_row { src.width } else { src.height }),
            i <= lines,
            result@.len() == i,
            forall|k: int| 0 <= k < i ==> #[trigger] result@[k] == (if by_row {
                row_dark(*src, k, len as int)
            } else {
                col_dark(*src, k, len as int)
            }),
        decreases lines - i,
    {
        let mut count: usize = 0;
        let mut j: usize = 0;
        while j < len
            invariant
                src.wf(),
                lines == (if by_row { src.height } else { src.width }),
                len == (if by_row { src.width } else { src.height }),
                i < lines,
                j <= len,
                count <= j,
                count == (if by_row {
                    row_dark(*src, i as int, j as int)
                } else {
                    col_dark(*src, i as int, j as int)
                }),
            decreases len - j,
        {
            let (row, col) = if by_row { (i, j) } else { (j, i) };
            proof {
                lemma_index(src.width as int, src.height as int, row as int, col as int);
            }
            if src.pixels[row * src.width + col] <= THRESHOLD {
                count = count + 1;
            }
            j = j + 1;
        }
        result.push(count);
        i = i + 1;
    }
    result
}

/// Image whose sample at `(row, col)` is ink exactly when `ink(row, col)`,
/// background elsewhere; built row by row.
pub open spec fn painted(width: int, height: int, pixels: Seq<u8>, ink: spec_fn(int, int) -> bool) -> bool {
    &&& pixels.len() == width * height
    &&& forall|row: int, col: int|
        0 <= row < height && 0 <= col < width ==> #[trigger] pixels[row * width + col] == if ink(row, col) {
            INK
        } else {
            BACKGROUND
        }
}

/// Row profile drawn as an image: each row holds as many ink samples as it
/// had dark ones, packed to the left, and background after them.
pub fn transfer_thresh_binary_to_horizontal_projection(src: &GrayImage) -> (r: GrayImage)
    requires
        src.wf(),
    ensures
        r.wf(),
        r.width == src.width,
        r.height == src.height,
        painted(src.width as int, src.height as int, r.pixels@, |row: int, col: int| col < row_dark(*src, row, src.width as int)),
{
    let counts = dark_counts(src, true);
    let ghost ink = |row: int, col: int| col < row_dark(*src, row, src.width as int);
    let pixels = paint(src.width, src.height, &counts, true, Ghost(ink));
    GrayImage { width: src.width, height: src.height, pixels }
}

/// Column profile drawn as an image: each column holds as many ink samples
/// as it had dark ones, stacked from the bottom, and background above them.
pub fn transfer_thresh_binary_to_vertical_projection(src: &GrayImage) -> (r: GrayImage)
    requires
        src.wf(),
    ensures
        r.wf(),
        r.width == src.width,
        r.height == src.height,
        painted(src.width as int, src.height as int, r.pixels@, |row: int, col: int| row + col_dark(*src, col, src.height as int) >= src.height),
{
    let counts = dark_counts(src, false);
    let ghost ink = |row: int, col: int| row + col_dark(*src, col, src.height as int) >= src.height;
    let pixels = paint(src.width, src.height, &counts, false, Ghost(ink));
    GrayImage { width: src.width, height: src.height, pixels }
}

/// Paints a `width` by `height` image from per-line counts: with `by_row`,
/// row `r` starts with `counts[r]` ink samples; otherwise column `c` ends
/// with `counts[c]` ink samples.
fn paint(width: usize, height: usize, counts: &Vec<usize>, by_row: bool, ink: Ghost<spec_fn(int, int) -> bool>) -> (r: Vec<u8>)
    requires
        width <= MAX_SIDE,
        height <= MAX_SIDE,
        width * height <= usize::MAX,
        counts@.len() == if by_row { height } else { width },
        forall|row: int, col: int| 0 <= row < height && 0 <= col < width ==> #[trigger] ink@(row, col) == if by_row {
            col < counts@[row]
        } else {
            row + counts@[col] >= height
        },
    ensures
        painted(width as int, height as int, r@, ink@),
{
    let mut pixels: Vec<u8> = Vec::with_capacity(width * height);
    let mut row: usize = 0;
    while row < height
        invariant
            width <= MAX_SIDE,
            height <= MAX_SIDE,
            width * height <= usize::MAX,
            counts@.len() == if by_row { height } else { width },
            forall|rr: int, cc: int| 0 <= rr < height && 0 <= cc < width ==> #[trigger] ink@(rr, cc) == if by_row {
                cc < counts@[rr]
            } else {
                rr + counts@[cc] >= height
            },
            row <= height,
            pixels@.len() == row * width,
            forall|rr: int, cc: int|
                0 <= rr < row && 0 <= cc < width ==> #[trigger] pixels@[rr * width + cc] == if ink@(rr, cc) {
                    INK
                } else {
                    BACKGROUND
                },
        decreases height - row,
    {
        let mut col: usize = 0;
        while col < width
            invariant
                width <= MAX_SIDE,
                height <= MAX_SIDE,
                width * height <= usize::MAX,
                counts@.len() == if by_row { height } else { width },
                forall|rr: int, cc: int| 0 <= rr < height && 0 <= cc < width ==> #[trigger] ink@(rr, cc) == if by_row {
                    cc < counts@[rr]
                } else {
                    rr + counts@[cc] >= height
                },
                row < height,
                col <= width,
                pixels@.len() == row * width + col,
                forall|rr: int, cc: int|
                    0 <= rr < row && 0 <= cc < width ==> #[trigger] pixels@[rr * width + cc] == if ink@(rr, cc) {
                        INK
                    } else {
                        BACKGROUND
                    },
                forall|cc: int|
                    0 <= cc < col ==> #[trigger] pixels@[row * width + cc] == if ink@(row as int, cc) {
                        INK
                    } else {
                        BACKGROUND
                    },
            decreases width - col,
        {
            proof {
                lemma_index(width as int, height as int, row as int, col as int);
            }
            let dark = if by_row {
                col < counts[row]
            } else {
                counts[col] >= height - row
            };
            let ghost before = pixels@;
            pixels.push(if dark { INK } else { BACKGROUND });
            proof {
                assert forall|rr: int, cc: int|
                    0 <= rr < row && 0 <= cc < width implies #[trigger] pixels@[rr * width + cc] == if ink@(rr, cc) {
                        INK
                    } else {
                        BACKGROUND
                    } by {
                    lemma_index(width as int, row as int, rr, cc);
                    assert(pixels@[rr * width + cc] == before[rr * width + cc]);
                }
                assert forall|cc: int| 0 <= cc < col + 1 implies #[trigger] pixels@[row * width + cc] == if ink@(row as int, cc) {
                    INK
                } else {
                    BACKGROUND
                } by {
                    if cc < col {
                        assert(pixels@[row * width + cc] == before[row * width + cc]);
                    }
                }
            }
            col = col + 1;
        }
        proof {
            assert((row + 1) * width == row * width + width) by (nonlinear_arith);
        }
        row = row + 1;
    }
    proof {
        assert(height * width == width * height) by (nonlinear_arith);
    }
    pixels
}

} // verus!
