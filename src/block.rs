//! Splitting a raster of even width and height into 2x2 cells, and back.

use crate::pixel::{at, lemma_index};
use vstd::arithmetic::div_mod::lemma_fundamental_div_mod;
use vstd::prelude::*;

verus! {

/// The 2x2 cell at block row `bi` and block column `bj` of a row-major raster
/// `width` entries wide: top-left, top-right, bottom-left, bottom-right.
pub open spec fn cell<T>(s: Seq<T>, width: int, bi: int, bj: int) -> Seq<T> {
    seq![
        at(s, width, 2 * bi, 2 * bj),
        at(s, width, 2 * bi, 2 * bj + 1),
        at(s, width, 2 * bi + 1, 2 * bj),
        at(s, width, 2 * bi + 1, 2 * bj + 1),
    ]
}

/// The 2x2 cells of a `width` x `height` raster, in row-major cell order, so
/// that the cell at block row `bi` and block column `bj` stands at index
/// `bi * (width / 2) + bj`.
pub fn gather_blocks<T: Copy>(pixels: &Vec<T>, width: u32, height: u32) -> (r: Vec<[T; 4]>)
    requires
        width % 2 == 0,
        height % 2 == 0,
        pixels@.len() == width * height,
    ensures
        r@.len() == (width / 2) * (height / 2),
        forall|bi: int, bj: int|
            0 <= bi < height / 2 && 0 <= bj < width / 2 ==> #[trigger] at(r@, (width / 2) as int, bi, bj)@
                == cell(pixels@, width as int, bi, bj),
{
    let comp_w: u32 = width / 2;
    let comp_h: u32 = height / 2;
    let len: usize = pixels.len();
    let mut blocks: Vec<[T; 4]> = Vec::new();
    let mut bi: u32 = 0;
    while bi < comp_h
        invariant
            comp_w == width / 2,
            comp_h == height / 2,
            width % 2 == 0,
            height % 2 == 0,
            len == pixels@.len(),
            pixels@.len() == width * height,
            bi <= comp_h,
            blocks@.len() == bi * comp_w,
            forall|i: int, j: int|
                0 <= i < bi && 0 <= j < comp_w ==> #[trigger] at(blocks@, comp_w as int, i, j)@
                    == cell(pixels@, width as int, i, j),
        decreases comp_h - bi,
    {
        let mut bj: u32 = 0;
        while bj < comp_w
            invariant
                comp_w == width / 2,
                comp_h == height / 2,
                width % 2 == 0,
                height % 2 == 0,
                len == pixels@.len(),
                pixels@.len() == width * height,
                bi < comp_h,
                bj <= comp_w,
                blocks@.len() == bi * comp_w + bj,
                forall|i: int, j: int|
                    (0 <= i < bi && 0 <= j < comp_w) || (i == bi && 0 <= j < bj)
                        ==> #[trigger] at(blocks@, comp_w as int, i, j)@ == cell(
                        pixels@,
                        width as int,
                        i,
                        j,
                    ),
            decreases comp_w - bj,
        {
            proof {
                lemma_index(2 * bi + 1, 2 * bj + 1, width as int, height as int);
                lemma_index(2 * bi as int, 2 * bj + 1, width as int, height as int);
                assert(height * width == width * height) by (nonlinear_arith);
            }
            let top: usize = (2 * bi as usize) * (width as usize) + 2 * bj as usize;
            let bottom: usize = (2 * bi as usize + 1) * (width as usize) + 2 * bj as usize;
            let block: [T; 4] = [pixels[top], pixels[top + 1], pixels[bottom], pixels[bottom + 1]];
            let ghost old_blocks = blocks@;
            blocks.push(block);
            proof {
                assert(block@ =~= cell(pixels@, width as int, bi as int, bj as int));
                assert forall|i: int, j: int|
                    (0 <= i < bi && 0 <= j < comp_w) || (i == bi && 0 <= j < bj + 1)
                        implies #[trigger] at(blocks@, comp_w as int, i, j)@ == cell(
                        pixels@,
                        width as int,
                        i,
                        j,
                    ) by {
                    if i < bi {
                        lemma_index(i, j, comp_w as int, bi as int);
                        assert(at(blocks@, comp_w as int, i, j) == at(old_blocks, comp_w as int, i, j));
                    } else if j < bj {
                        assert(at(blocks@, comp_w as int, i, j) == at(old_blocks, comp_w as int, i, j));
                    }
                }
            }
            bj = bj + 1;
        }
        assert(bi * comp_w + comp_w == (bi + 1) * comp_w) by (nonlinear_arith);
        bi = bi + 1;
    }
    assert(comp_h * comp_w == comp_w * comp_h) by (nonlinear_arith);
    blocks
}

/// The `2 * comp_w` x `2 * comp_h` row-major raster whose 2x2 cells, in
/// row-major cell order, are `blocks`.
pub fn scatter_blocks<T: Copy>(blocks: &Vec<[T; 4]>, comp_w: u32, comp_h: u32) -> (r: Vec<T>)
    requires
        comp_w * comp_h <= blocks@.len(),
        2 * comp_w <= u32::MAX,
        2 * comp_h <= u32::MAX,
        4 * comp_w * comp_h <= usize::MAX,
    ensures
        r@.len() == (2 * comp_w) * (2 * comp_h),
        forall|i: int, j: int|
            0 <= i < 2 * comp_h && 0 <= j < 2 * comp_w ==> #[trigger] at(r@, 2 * comp_w, i, j)
                == at(blocks@, comp_w as int, i / 2, j / 2)@[(i % 2) * 2 + j % 2],
        forall|bi: int, bj: int|
            0 <= bi < comp_h && 0 <= bj < comp_w ==> #[trigger] cell(r@, 2 * comp_w, bi, bj) == at(
                blocks@,
                comp_w as int,
                bi,
                bj,
            )@,
{
    let width: u32 = 2 * comp_w;
    let height: u32 = 2 * comp_h;
    let len: usize = blocks.len();
    let mut pixels: Vec<T> = Vec::new();
    let mut i: u32 = 0;
    while i < height
        invariant
            width == 2 * comp_w,
            height == 2 * comp_h,
            comp_w * comp_h <= blocks@.len(),
            len == blocks@.len(),
            4 * comp_w * comp_h <= usize::MAX,
            i <= height,
            pixels@.len() == i * width,
            forall|y: int, x: int|
                0 <= y < i && 0 <= x < width ==> #[trigger] at(pixels@, width as int, y, x) == at(
                    blocks@,
                    comp_w as int,
                    y / 2,
                    x / 2,
                )@[(y % 2) * 2 + x % 2],
        decreases height - i,
    {
        let mut j: u32 = 0;
        while j < width
            invariant
                width == 2 * comp_w,
                height == 2 * comp_h,
                comp_w * comp_h <= blocks@.len(),
                len == blocks@.len(),
            len == blocks@.len(),
                4 * comp_w * comp_h <= usize::MAX,
                i < height,
                j <= width,
                pixels@.len() == i * width + j,
                forall|y: int, x: int|
                    (0 <= y < i && 0 <= x < width) || (y == i && 0 <= x < j) ==> #[trigger] at(
                        pixels@,
                        width as int,
                        y,
                        x,
                    ) == at(blocks@, comp_w as int, y / 2, x / 2)@[(y % 2) * 2 + x % 2],
            decreases width - j,
        {
            proof {
                lemma_index((i / 2) as int, (j / 2) as int, comp_w as int, comp_h as int);
                assert(comp_h * comp_w == comp_w * comp_h) by (nonlinear_arith);
                lemma_index(i as int, j as int, width as int, height as int);
                assert(height * width == 4 * comp_w * comp_h) by (nonlinear_arith)
                    requires
                        width == 2 * comp_w,
                        height == 2 * comp_h,
                ;
            }
            let k: usize = ((i / 2) as usize) * (comp_w as usize) + (j / 2) as usize;
            let block: [T; 4] = blocks[k];
            let value: T = block[((i % 2) * 2 + j % 2) as usize];
            let ghost old_pixels = pixels@;
            pixels.push(value);
            proof {
                assert forall|y: int, x: int|
                    (0 <= y < i && 0 <= x < width) || (y == i && 0 <= x < j + 1) implies #[trigger] at(
                        pixels@,
                        width as int,
                        y,
                        x,
                    ) == at(blocks@, comp_w as int, y / 2, x / 2)@[(y % 2) * 2 + x % 2] by {
                    lemma_index(y, x, width as int, i as int + 1);
                    if y < i {
                        lemma_index(y, x, width as int, i as int);
                        assert(at(pixels@, width as int, y, x) == at(old_pixels, width as int, y, x));
                    } else if x < j {
                        assert(at(pixels@, width as int, y, x) == at(old_pixels, width as int, y, x));
                    }
                }
            }
            j = j + 1;
        }
        assert(i * width + width == (i + 1) * width) by (nonlinear_arith);
        i = i + 1;
    }
    assert forall|bi: int, bj: int| 0 <= bi < comp_h && 0 <= bj < comp_w implies #[trigger] cell(
        pixels@,
        2 * comp_w,
        bi,
        bj,
    ) == at(blocks@, comp_w as int, bi, bj)@ by {
        assert(at(pixels@, width as int, 2 * bi, 2 * bj) == at(blocks@, comp_w as int, bi, bj)@[0]);
        assert(at(pixels@, width as int, 2 * bi, 2 * bj + 1) == at(blocks@, comp_w as int, bi, bj)@[1]);
        assert(at(pixels@, width as int, 2 * bi + 1, 2 * bj) == at(blocks@, comp_w as int, bi, bj)@[2]);
        assert(at(pixels@, width as int, 2 * bi + 1, 2 * bj + 1) == at(blocks@, comp_w as int, bi, bj)@[3]);
        assert(cell(pixels@, 2 * comp_w, bi, bj) =~= at(blocks@, comp_w as int, bi, bj)@);
    }
    pixels
}

/// Scattering the cells that gathering took from a raster gives back the
/// raster: every sample returns to its own row and column.
pub proof fn lemma_gather_then_scatter<T>(
    pixels: Seq<T>,
    width: int,
    height: int,
    blocks: Seq<[T; 4]>,
    out: Seq<T>,
)
    requires
        width % 2 == 0,
        height % 2 == 0,
        width > 0,
        pixels.len() == width * height,
        forall|bi: int, bj: int|
            0 <= bi < height / 2 && 0 <= bj < width / 2 ==> #[trigger] at(blocks, width / 2, bi, bj)@
                == cell(pixels, width, bi, bj),
        out.len() == width * height,
        forall|i: int, j: int|
            0 <= i < height && 0 <= j < width ==> #[trigger] at(out, width, i, j) == at(
                blocks,
                width / 2,
                i / 2,
                j / 2,
            )@[(i % 2) * 2 + j % 2],
    ensures
        out == pixels,
{
    assert forall|n: int| 0 <= n < out.len() implies out[n] == pixels[n] by {
        let i = n / width;
        let j = n % width;
        lemma_fundamental_div_mod(n, width);
        assert(n == i * width + j) by (nonlinear_arith)
            requires
                n == width * i + j,
        ;
        assert(0 <= i < height) by (nonlinear_arith)
            requires
                n == width * i + j,
                0 <= j < width,
                0 <= n < width * height,
        ;
        assert(at(out, width, i, j) == at(blocks, width / 2, i / 2, j / 2)@[(i % 2) * 2 + j % 2]);
        assert(at(blocks, width / 2, i / 2, j / 2)@ == cell(pixels, width, i / 2, j / 2));
    }
    assert(out =~= pixels);
}

} // verus!
