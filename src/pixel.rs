//! Raster images and trimming them to even dimensions.

use vstd::prelude::*;

verus! {

/// One pixel: red, green and blue samples out of the image's denominator.
#[derive(Clone, Copy, Debug, PartialEq, Eq, Structural)]
pub struct Rgb {
    pub red: u16,
    pub green: u16,
    pub blue: u16,
}

/// A row-major raster of `width * height` pixels.
pub struct RgbImage {
    pub pixels: Vec<Rgb>,
    pub width: u32,
    pub height: u32,
    pub denominator: u16,
}

impl RgbImage {
    /// The pixel vector holds exactly one pixel per position.
    pub open spec fn wf(&self) -> bool {
        self.pixels@.len() == self.width * self.height
    }
}

/// The largest even number not above `n`.
pub open spec fn even_floor(n: int) -> int {
    n - n % 2
}

/// The pixel at row `i` and column `j` of a row-major raster whose rows are
/// `stride` pixels long.
pub open spec fn at<T>(s: Seq<T>, stride: int, i: int, j: int) -> T {
    s[i * stride + j]
}

/// Row `i`, column `j` of a raster with `rows` rows of `stride` entries lies
/// inside it, and before row `i + 1`.
pub proof fn lemma_index(i: int, j: int, stride: int, rows: int)
    requires
        0 <= i < rows,
        0 <= j < stride,
    ensures
        0 <= i * stride + j < rows * stride,
        i * stride + j < (i + 1) * stride,
        (i + 1) * stride <= rows * stride,
{
    assert(0 <= i * stride + j < rows * stride && i * stride + j < (i + 1) * stride && (i + 1)
        * stride <= rows * stride) by (nonlinear_arith)
        requires
            0 <= i < rows,
            0 <= j < stride,
    ;
}

/// The pixels of `orig_img` cropped to an even width and height: a trailing
/// odd column and a trailing odd row are dropped, and nothing else moves.
pub fn trim_image(orig_img: RgbImage) -> (r: Vec<Rgb>)
    requires
        orig_img.wf(),
    ensures
        r@.len() == even_floor(orig_img.width as int) * even_floor(orig_img.height as int),
        forall|i: int, j: int|
            0 <= i < even_floor(orig_img.height as int) && 0 <= j < even_floor(
                orig_img.width as int,
            ) ==> #[trigger] at(r@, even_floor(orig_img.width as int), i, j) == at(
                orig_img.pixels@,
                orig_img.width as int,
                i,
                j,
            ),
{
    let width: u32 = orig_img.width;
    let height: u32 = orig_img.height;
    let trim_w: u32 = width - width % 2;
    let trim_h: u32 = height - height % 2;
    if width % 2 == 0 && height % 2 == 0 {
        return orig_img.pixels;
    }
    let pixels = orig_img.pixels;
    let len: usize = pixels.len();
    let mut new_data: Vec<Rgb> = Vec::new();
    let mut row: u32 = 0;
    while row < trim_h
        invariant
            pixels@.len() == width * height,
            len == pixels@.len(),
            trim_w == even_floor(width as int),
            trim_h == even_floor(height as int),
            row <= trim_h,
            new_data@.len() == row * trim_w,
            forall|i: int, j: int|
                0 <= i < row && 0 <= j < trim_w ==> #[trigger] at(new_data@, trim_w as int, i, j)
                    == at(pixels@, width as int, i, j),
        decreases trim_h - row,
    {
        let mut col: u32 = 0;
        while col < trim_w
            invariant
                pixels@.len() == width * height,
                len == pixels@.len(),
            len == pixels@.len(),
                trim_w == even_floor(width as int),
                trim_h == even_floor(height as int),
                row < trim_h,
                col <= trim_w,
                new_data@.len() == row * trim_w + col,
                forall|i: int, j: int|
                    (0 <= i < row && 0 <= j < trim_w) || (i == row && 0 <= j < col)
                        ==> #[trigger] at(new_data@, trim_w as int, i, j) == at(
                        pixels@,
                        width as int,
                        i,
                        j,
                    ),
            decreases trim_w - col,
        {
            proof {
                lemma_index(row as int, col as int, width as int, height as int);
                assert(height * width == width * height) by (nonlinear_arith);
            }
            let index: usize = (row as usize) * (width as usize) + (col as usize);
            let old_data = Ghost(new_data@);
            new_data.push(pixels[index]);
            proof {
                assert forall|i: int, j: int|
                    (0 <= i < row && 0 <= j < trim_w) || (i == row && 0 <= j < col + 1)
                        implies #[trigger] at(new_data@, trim_w as int, i, j) == at(
                        pixels@,
                        width as int,
                        i,
                        j,
                    ) by {
                    lemma_index(i, j, trim_w as int, row as int + 1);
                    if i < row {
                        lemma_index(i, j, trim_w as int, row as int);
                        assert(at(new_data@, trim_w as int, i, j) == at(old_data@, trim_w as int, i, j));
                    } else if j < col {
                        assert(at(new_data@, trim_w as int, i, j) == at(old_data@, trim_w as int, i, j));
                    }
                }
            }
            col = col + 1;
        }
        assert(row * trim_w + trim_w == (row + 1) * trim_w) by (nonlinear_arith);
        row = row + 1;
    }
    assert(trim_h * trim_w == trim_w * trim_h) by (nonlinear_arith);
    new_data
}

} // verus!
