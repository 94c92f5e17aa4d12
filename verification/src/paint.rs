//! Writing computed pixels into one cell of the output canvas. The colour
//! of each pixel (a resampled tile pixel, a tinted pixel) is worked out by
//! the caller; these writers place the values row by row inside the cell
//! and leave every pixel outside it as it was.
use vstd::prelude::*;

use crate::image::{lemma_pixel_in_bounds, lemma_pixels_disjoint, pixel_at, RgbaImage};
use crate::sums::in_rect;

verus! {

/// Position in a row-major list of the cell values of pixel `(x, y)`, for
/// a cell of width `cw` at `(ox, oy)`.
pub open spec fn cell_index(x: int, y: int, ox: int, oy: int, cw: int) -> int {
    (y - oy) * cw + (x - ox)
}

/// Row `y`, column `x` of a `cw x ch` cell lies inside the list of its
/// `cw * ch` values.
proof fn lemma_cell_index_fits(x: int, y: int, cw: int, ch: int)
    requires
        0 <= x < cw,
        0 <= y < ch,
    ensures
        0 <= y * cw + x < cw * ch,
{
    assert(y * cw + x < cw * ch) by (nonlinear_arith)
        requires
            0 <= x < cw,
            0 <= y < ch,
    ;
    assert(0 <= y * cw) by (nonlinear_arith)
        requires
            0 <= y,
            0 <= cw,
    ;
}

/// The cell's values are listed row by row: the top-left pixel comes first,
/// the pixel right of another comes next, the first pixel of a row follows
/// the last of the row above, and the `cw * ch` pixels use each position
/// `0 .. cw * ch` once.
pub proof fn law_cell_index_row_major(ox: int, oy: int, cw: int, ch: int, x: int, y: int)
    requires
        cw >= 1,
        ch >= 1,
        0 <= x < cw,
        0 <= y < ch,
    ensures
        cell_index(ox, oy, ox, oy, cw) == 0,
        x + 1 < cw ==> cell_index(ox + x + 1, oy + y, ox, oy, cw) == cell_index(ox + x, oy + y, ox, oy, cw) + 1,
        y + 1 < ch ==> cell_index(ox, oy + y + 1, ox, oy, cw) == cell_index(ox + cw - 1, oy + y, ox, oy, cw) + 1,
        0 <= cell_index(ox + x, oy + y, ox, oy, cw) < cw * ch,
        forall|x2: int, y2: int|
            0 <= x2 < cw && 0 <= y2 < ch && #[trigger] cell_index(ox + x2, oy + y2, ox, oy, cw) == cell_index(
                ox + x,
                oy + y,
                ox,
                oy,
                cw,
            ) ==> x2 == x && y2 == y,
{
    lemma_cell_index_fits(x, y, cw, ch);
    assert(cell_index(ox + x, oy + y, ox, oy, cw) == y * cw + x);
    assert((y + 1) * cw == y * cw + cw) by (nonlinear_arith);
    assert forall|x2: int, y2: int|
        0 <= x2 < cw && 0 <= y2 < ch && #[trigger] cell_index(ox + x2, oy + y2, ox, oy, cw) == cell_index(
            ox + x,
            oy + y,
            ox,
            oy,
            cw,
        ) implies x2 == x && y2 == y by {
        assert(cell_index(ox + x2, oy + y2, ox, oy, cw) == y2 * cw + x2);
        assert(y2 == y && x2 == x) by (nonlinear_arith)
            requires
                y2 * cw + x2 == y * cw + x,
                0 <= x < cw,
                0 <= x2 < cw,
        ;
    }
}

/// Writes `pixels` (row by row, `cw * ch` of them) into the `cw x ch` cell
/// at `(ox, oy)`; every pixel outside the cell keeps its value.
pub fn write_cell(out: &mut RgbaImage, ox: u32, oy: u32, cw: u32, ch: u32, pixels: &Vec<(u8, u8, u8, u8)>)
    requires
        ox + cw <= old(out).spec_width(),
        oy + ch <= old(out).spec_height(),
        pixels@.len() == cw * ch,
    ensures
        final(out).spec_width() == old(out).spec_width(),
        final(out).spec_height() == old(out).spec_height(),
        final(out).bytes().len() == old(out).bytes().len(),
        forall|x: int, y: int|
            0 <= x < old(out).spec_width() && 0 <= y < old(out).spec_height() ==> #[trigger] pixel_at(
                final(out).bytes(),
                old(out).spec_width() as int,
                x,
                y,
            ) == if in_rect(x, y, ox as int, oy as int, cw as int, ch as int) {
                pixels@[cell_index(x, y, ox as int, oy as int, cw as int)]
            } else {
                pixel_at(old(out).bytes(), old(out).spec_width() as int, x, y)
            },
{
    let ghost w = out.spec_width() as int;
    let ghost h = out.spec_height() as int;
    let ghost start = out.bytes();
    proof {
        use_type_invariant(&*out);
        out.lemma_inv();
    }
    let mut y: u32 = 0;
    while y < ch
        invariant
            y <= ch,
            ox + cw <= w,
            oy + ch <= h,
            pixels@.len() == cw * ch,
            out.spec_width() == w,
            out.spec_height() == h,
            out.bytes().len() == start.len(),
            start.len() == w * h * 4,
            forall|px: int, py: int|
                0 <= px < w && 0 <= py < h ==> #[trigger] pixel_at(out.bytes(), w, px, py) == if in_rect(
                    px,
                    py,
                    ox as int,
                    oy as int,
                    cw as int,
                    y as int,
                ) {
                    pixels@[cell_index(px, py, ox as int, oy as int, cw as int)]
                } else {
                    pixel_at(start, w, px, py)
                },
        decreases ch - y,
    {
        let mut x: u32 = 0;
        while x < cw
            invariant
                y < ch,
                x <= cw,
                ox + cw <= w,
                oy + ch <= h,
                pixels@.len() == cw * ch,
                out.spec_width() == w,
                out.spec_height() == h,
                out.bytes().len() == start.len(),
                start.len() == w * h * 4,
                forall|px: int, py: int|
                    0 <= px < w && 0 <= py < h ==> #[trigger] pixel_at(out.bytes(), w, px, py)
                        == if in_rect(px, py, ox as int, oy as int, cw as int, y as int) || (py == oy
                        + y && ox <= px < ox + x) {
                        pixels@[cell_index(px, py, ox as int, oy as int, cw as int)]
                    } else {
                        pixel_at(start, w, px, py)
                    },
            decreases cw - x,
        {
            let ghost before = out.bytes();
            let tx = ox + x;
            let ty = oy + y;
            proof {
                lemma_pixel_in_bounds(w, h, tx as int, ty as int);
                lemma_cell_index_fits(x as int, y as int, cw as int, ch as int);
                assert(cell_index(tx as int, ty as int, ox as int, oy as int, cw as int) == y * cw + x);
            }
            let len = pixels.len();
            proof {
                assert((y as usize) * (cw as usize) + (x as usize) < len);
            }
            let i = (y as usize) * (cw as usize) + (x as usize);
            let v = pixels[i];
            out.put_pixel(tx, ty, v);
            proof {
                assert forall|px: int, py: int| 0 <= px < w && 0 <= py < h implies #[trigger] pixel_at(
                    out.bytes(),
                    w,
                    px,
                    py,
                ) == if in_rect(px, py, ox as int, oy as int, cw as int, y as int) || (py == oy + y
                    && ox <= px < ox + x + 1) {
                    pixels@[cell_index(px, py, ox as int, oy as int, cw as int)]
                } else {
                    pixel_at(start, w, px, py)
                } by {
                    lemma_pixel_in_bounds(w, h, px, py);
                    lemma_pixel_in_bounds(w, h, tx as int, ty as int);
                    if px != tx || py != ty {
                        lemma_pixels_disjoint(w, px, py, tx as int, ty as int);
                        assert(pixel_at(out.bytes(), w, px, py) == pixel_at(before, w, px, py));
                    }
                }
            }
            x = x + 1;
        }
        proof {
            assert forall|px: int, py: int| 0 <= px < w && 0 <= py < h implies #[trigger] pixel_at(
                out.bytes(),
                w,
                px,
                py,
            ) == if in_rect(px, py, ox as int, oy as int, cw as int, y + 1) {
                pixels@[cell_index(px, py, ox as int, oy as int, cw as int)]
            } else {
                pixel_at(start, w, px, py)
            } by {
                assert(in_rect(px, py, ox as int, oy as int, cw as int, y + 1) == (in_rect(
                    px,
                    py,
                    ox as int,
                    oy as int,
                    cw as int,
                    y as int,
                ) || (py == oy + y && ox <= px < ox + cw)));
            }
        }
        y = y + 1;
    }
}

/// Replaces the colour channels of the `cw x ch` cell at `(ox, oy)` with
/// `rgb` (row by row, `cw * ch` of them) and leaves each pixel's alpha as
/// it was; every pixel outside the cell keeps its value.
pub fn tint_cell(out: &mut RgbaImage, ox: u32, oy: u32, cw: u32, ch: u32, rgb: &Vec<(u8, u8, u8)>)
    requires
        ox + cw <= old(out).spec_width(),
        oy + ch <= old(out).spec_height(),
        rgb@.len() == cw * ch,
    ensures
        final(out).spec_width() == old(out).spec_width(),
        final(out).spec_height() == old(out).spec_height(),
        final(out).bytes().len() == old(out).bytes().len(),
        forall|x: int, y: int|
            0 <= x < old(out).spec_width() && 0 <= y < old(out).spec_height() ==> #[trigger] pixel_at(
                final(out).bytes(),
                old(out).spec_width() as int,
                x,
                y,
            ) == if in_rect(x, y, ox as int, oy as int, cw as int, ch as int) {
                (
                    rgb@[cell_index(x, y, ox as int, oy as int, cw as int)].0,
                    rgb@[cell_index(x, y, ox as int, oy as int, cw as int)].1,
                    rgb@[cell_index(x, y, ox as int, oy as int, cw as int)].2,
                    pixel_at(old(out).bytes(), old(out).spec_width() as int, x, y).3,
                )
            } else {
                pixel_at(old(out).bytes(), old(out).spec_width() as int, x, y)
            },
{
    let ghost w = out.spec_width() as int;
    let ghost h = out.spec_height() as int;
    let ghost start = out.bytes();
    proof {
        use_type_invariant(&*out);
        out.lemma_inv();
    }
    let mut y: u32 = 0;
    while y < ch
        invariant
            y <= ch,
            ox + cw <= w,
            oy + ch <= h,
            rgb@.len() == cw * ch,
            out.spec_width() == w,
            out.spec_height() == h,
            out.bytes().len() == start.len(),
            start.len() == w * h * 4,
            forall|px: int, py: int|
                0 <= px < w && 0 <= py < h ==> #[trigger] pixel_at(out.bytes(), w, px, py) == if in_rect(
                    px,
                    py,
                    ox as int,
                    oy as int,
                    cw as int,
                    y as int,
                ) {
                    (
                        rgb@[cell_index(px, py, ox as int, oy as int, cw as int)].0,
                        rgb@[cell_index(px, py, ox as int, oy as int, cw as int)].1,
                        rgb@[cell_index(px, py, ox as int, oy as int, cw as int)].2,
                        pixel_at(start, w, px, py).3,
                    )
                } else {
                    pixel_at(start, w, px, py)
                },
        decreases ch - y,
    {
        let mut x: u32 = 0;
        while x < cw
            invariant
                y < ch,
                x <= cw,
                ox + cw <= w,
                oy + ch <= h,
                rgb@.len() == cw * ch,
                out.spec_width() == w,
                out.spec_height() == h,
                out.bytes().len() == start.len(),
                start.len() == w * h * 4,
                forall|px: int, py: int|
                    0 <= px < w && 0 <= py < h ==> #[trigger] pixel_at(out.bytes(), w, px, py)
                        == if in_rect(px, py, ox as int, oy as int, cw as int, y as int) || (py == oy
                        + y && ox <= px < ox + x) {
                        (
                            rgb@[cell_index(px, py, ox as int, oy as int, cw as int)].0,
                            rgb@[cell_index(px, py, ox as int, oy as int, cw as int)].1,
                            rgb@[cell_index(px, py, ox as int, oy as int, cw as int)].2,
                            pixel_at(start, w, px, py).3,
                        )
                    } else {
                        pixel_at(start, w, px, py)
                    },
            decreases cw - x,
        {
            let ghost before = out.bytes();
            let tx = ox + x;
            let ty = oy + y;
            proof {
                lemma_pixel_in_bounds(w, h, tx as int, ty as int);
                lemma_cell_index_fits(x as int, y as int, cw as int, ch as int);
                assert(cell_index(tx as int, ty as int, ox as int, oy as int, cw as int) == y * cw + x);
            }
            let len = rgb.len();
            proof {
                assert((y as usize) * (cw as usize) + (x as usize) < len);
            }
            let i = (y as usize) * (cw as usize) + (x as usize);
            let c = rgb[i];
            let cur = out.pixel(tx, ty);
            proof {
                assert(pixel_at(before, w, tx as int, ty as int) == pixel_at(start, w, tx as int, ty as int));
            }
            out.put_pixel(tx, ty, (c.0, c.1, c.2, cur.3));
            proof {
                assert forall|px: int, py: int| 0 <= px < w && 0 <= py < h implies #[trigger] pixel_at(
                    out.bytes(),
                    w,
                    px,
                    py,
                ) == if in_rect(px, py, ox as int, oy as int, cw as int, y as int) || (py == oy + y
                    && ox <= px < ox + x + 1) {
                    (
                        rgb@[cell_index(px, py, ox as int, oy as int, cw as int)].0,
                        rgb@[cell_index(px, py, ox as int, oy as int, cw as int)].1,
                        rgb@[cell_index(px, py, ox as int, oy as int, cw as int)].2,
                        pixel_at(start, w, px, py).3,
                    )
                } else {
                    pixel_at(start, w, px, py)
                } by {
                    lemma_pixel_in_bounds(w, h, px, py);
                    lemma_pixel_in_bounds(w, h, tx as int, ty as int);
                    if px != tx || py != ty {
                        lemma_pixels_disjoint(w, px, py, tx as int, ty as int);
                        assert(pixel_at(out.bytes(), w, px, py) == pixel_at(before, w, px, py));
                    }
                }
            }
            x = x + 1;
        }
        proof {
            assert forall|px: int, py: int| 0 <= px < w && 0 <= py < h implies #[trigger] pixel_at(
                out.bytes(),
                w,
                px,
                py,
            ) == if in_rect(px, py, ox as int, oy as int, cw as int, y + 1) {
                (
                    rgb@[cell_index(px, py, ox as int, oy as int, cw as int)].0,
                    rgb@[cell_index(px, py, ox as int, oy as int, cw as int)].1,
                    rgb@[cell_index(px, py, ox as int, oy as int, cw as int)].2,
                    pixel_at(start, w, px, py).3,
                )
            } else {
                pixel_at(start, w, px, py)
            } by {
                assert(in_rect(px, py, ox as int, oy as int, cw as int, y + 1) == (in_rect(
                    px,
                    py,
                    ox as int,
                    oy as int,
                    cw as int,
                    y as int,
                ) || (py == oy + y && ox <= px < ox + cw)));
            }
        }
        y = y + 1;
    }
}

} // verus!
