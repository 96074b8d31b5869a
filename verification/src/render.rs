//! Rendering a universe into an RGBA pixel buffer: each cell that is not
//! dead is painted as a square of `cell_size - 1` pixels in its state's
//! color, leaving a one pixel gap to its right and below.

use vstd::prelude::*;
use crate::universe::{Cell, World};
use crate::arith::{lemma_div_mod_of, lemma_index_bound, lemma_index_split, lemma_index_unique};

verus! {

/// Byte `k` of a color written `0xRRGGBBAA`: red, green, blue, alpha.
pub open spec fn channel(rgba: u32, k: int) -> u8 {
    if k == 0 {
        ((rgba >> 24u32) & 0xffu32) as u8
    } else if k == 1 {
        ((rgba >> 16u32) & 0xffu32) as u8
    } else if k == 2 {
        ((rgba >> 8u32) & 0xffu32) as u8
    } else {
        (rgba & 0xffu32) as u8
    }
}

/// `px` with pixel `p` (bytes `4p` to `4p + 3`) set to `rgba`.
pub open spec fn paint_pixel(px: Seq<u8>, p: int, rgba: u32) -> Seq<u8> {
    px.update(4 * p, channel(rgba, 0)).update(4 * p + 1, channel(rgba, 1)).update(
        4 * p + 2,
        channel(rgba, 2),
    ).update(4 * p + 3, channel(rgba, 3))
}

/// `px` with the `n` pixels from pixel `start` on set to `rgba`, in
/// order.
pub open spec fn paint_run(px: Seq<u8>, start: int, n: nat, rgba: u32) -> Seq<u8>
    decreases n,
{
    if n == 0 {
        px
    } else {
        paint_pixel(paint_run(px, start, (n - 1) as nat, rgba), start + n - 1, rgba)
    }
}

/// `px` with a square painted in `rgba`, row by row: `rows` rows of
/// `side` pixels, the first at pixel `top * cw + left`, each next row
/// `cw` pixels further on.
pub open spec fn paint_square(
    px: Seq<u8>,
    top: nat,
    left: nat,
    cw: nat,
    side: nat,
    rows: nat,
    rgba: u32,
) -> Seq<u8>
    decreases rows,
{
    if rows == 0 {
        px
    } else {
        paint_run(
            paint_square(px, top, left, cw, side, (rows - 1) as nat, rgba),
            (top + rows - 1) * cw + left,
            side,
            rgba,
        )
    }
}

/// The colors of the three states that are painted.
pub struct Palette {
    pub alive: u32,
    pub dimming: u32,
    pub fading: u32,
}

/// The color of a cell that is painted.
pub open spec fn cell_color(c: Cell, pal: Palette) -> u32 {
    match c {
        Cell::Alive => pal.alive,
        Cell::Dimming => pal.dimming,
        Cell::Fading => pal.fading,
        Cell::Dead => 0,
    }
}

/// `px` after painting, in row-major order, the first `k` cells of `w`:
/// a cell that is not dead at column `x` and row `y` paints the square
/// of side `cs - 1` whose top left pixel is `(x * cs, y * cs)` on a
/// canvas `cw` pixels wide. A later square paints over an earlier one.
pub open spec fn paint_cells(w: World, cw: nat, cs: nat, pal: Palette, px: Seq<u8>, k: nat) -> Seq<u8>
    decreases k,
{
    if k == 0 {
        px
    } else {
        let prev = paint_cells(w, cw, cs, pal, px, (k - 1) as nat);
        let i = k - 1;
        let c = w.cells[i];
        if c == Cell::Dead {
            prev
        } else {
            let x = (i % (w.width as int)) as nat;
            let y = (i / (w.width as int)) as nat;
            paint_square(prev, y * cs, x * cs, cw, (cs - 1) as nat, (cs - 1) as nat, cell_color(c, pal))
        }
    }
}

/// `n` zero bytes.
pub open spec fn blank(n: nat) -> Seq<u8> {
    Seq::new(n, |i: int| 0u8)
}

/// The pixels of `w` rendered on a canvas of `cw` by `ch` pixels with
/// cells `cs` pixels apart: all bytes zero, then every cell painted.
pub open spec fn rendered(w: World, cw: nat, ch: nat, cs: nat, pal: Palette) -> Seq<u8> {
    paint_cells(w, cw, cs, pal, blank(cw * ch * 4), w.width * w.height)
}

/// The square of the cell at row-major index `k` fits its coordinates in
/// a `u32` and lies inside the canvas.
pub open spec fn square_fits(w: World, k: int, cw: nat, ch: nat, cs: nat) -> bool {
    let x = k % (w.width as int);
    let y = k / (w.width as int);
    &&& x * cs <= u32::MAX
    &&& (cs >= 2 ==> (y * cs + cs - 2) * cw + x * cs + cs - 2 < cw * ch)
}

/// What rendering needs: a cell size of at least 1, a canvas whose bytes
/// can be counted in a `u32`, row offsets that fit in a `u32`, and every
/// painted square inside the canvas.
pub open spec fn render_fits(w: World, cw: nat, ch: nat, cs: nat) -> bool {
    &&& cs >= 1
    &&& cw * ch * 4 <= u32::MAX
    &&& (w.height == 0 || (w.height - 1) * cs <= u32::MAX)
    &&& forall|k: int|
        0 <= k < w.width * w.height && w.cells[k] != Cell::Dead ==> #[trigger] square_fits(
            w,
            k,
            cw,
            ch,
            cs,
        )
}

/// The cell whose square covers pixel `p` of a canvas `cw` pixels wide,
/// when the cells are `cs` pixels apart and their squares do not wrap:
/// pixel `(p % cw, p / cw)` lies in the square of cell
/// `(px / cs, py / cs)` unless it is in the one pixel gap.
pub open spec fn covering_cell(w: World, cw: nat, cs: nat, p: int) -> Option<int> {
    let px = p % (cw as int);
    let py = p / (cw as int);
    let x = px / (cs as int);
    let y = py / (cs as int);
    if x < w.width && y < w.height && px % (cs as int) < cs - 1 && py % (cs as int) < cs - 1 {
        Some(y * w.width + x)
    } else {
        None
    }
}

/// Byte `i` of the canvas as the cells show it: the channel of the
/// covering cell's color, or 0 where no cell that is painted covers it.
pub open spec fn shown_byte(w: World, cw: nat, cs: nat, pal: Palette, i: int) -> u8 {
    match covering_cell(w, cw, cs, i / 4) {
        Some(k) => if w.cells[k] != Cell::Dead {
            channel(cell_color(w.cells[k], pal), i % 4)
        } else {
            0
        },
        None => 0,
    }
}

/// Byte `i` once the first `n` cells are painted on a blank canvas.
pub open spec fn shown_byte_upto(w: World, cw: nat, cs: nat, pal: Palette, n: nat, i: int) -> u8 {
    match covering_cell(w, cw, cs, i / 4) {
        Some(k) => if k < n && w.cells[k] != Cell::Dead {
            channel(cell_color(w.cells[k], pal), i % 4)
        } else {
            0
        },
        None => 0,
    }
}

proof fn lemma_paint_pixel(px: Seq<u8>, p: int, rgba: u32)
    requires
        0 <= p,
        4 * p + 3 < px.len(),
    ensures
        paint_pixel(px, p, rgba).len() == px.len(),
        forall|i: int|
            0 <= i < px.len() ==> #[trigger] paint_pixel(px, p, rgba)[i] == if i / 4 == p {
                channel(rgba, i % 4)
            } else {
                px[i]
            },
{
}

proof fn lemma_paint_run(px: Seq<u8>, start: int, n: nat, rgba: u32)
    requires
        0 <= start,
        4 * (start + n) <= px.len(),
    ensures
        paint_run(px, start, n, rgba).len() == px.len(),
        forall|i: int|
            0 <= i < px.len() ==> #[trigger] paint_run(px, start, n, rgba)[i] == if start <= i / 4
                < start + n {
                channel(rgba, i % 4)
            } else {
                px[i]
            },
    decreases n,
{
    if n > 0 {
        let prev = paint_run(px, start, (n - 1) as nat, rgba);
        lemma_paint_run(px, start, (n - 1) as nat, rgba);
        lemma_paint_pixel(prev, start + n - 1, rgba);
    }
}

proof fn lemma_paint_square(
    px: Seq<u8>,
    top: nat,
    left: nat,
    cw: nat,
    side: nat,
    rows: nat,
    rgba: u32,
)
    requires
        cw > 0,
        left + side <= cw,
        4 * ((top + rows) * cw) <= px.len(),
    ensures
        paint_square(px, top, left, cw, side, rows, rgba).len() == px.len(),
        forall|i: int|
            0 <= i < px.len() ==> #[trigger] paint_square(px, top, left, cw, side, rows, rgba)[i]
                == if top <= (i / 4) / (cw as int) < top + rows && left <= (i / 4) % (cw as int)
                < left + side {
                channel(rgba, i % 4)
            } else {
                px[i]
            },
    decreases rows,
{
    if rows > 0 {
        let r = (rows - 1) as nat;
        let prev = paint_square(px, top, left, cw, side, r, rgba);
        assert(4 * ((top + r) * cw) <= px.len()) by (nonlinear_arith)
            requires 4 * ((top + rows) * cw) <= px.len(), r == rows - 1;
        lemma_paint_square(px, top, left, cw, side, r, rgba);
        let start = (top + r) * cw + left;
        assert(4 * (start + side) <= px.len()) by (nonlinear_arith)
            requires
                4 * ((top + rows) * cw) <= px.len(),
                r == rows - 1,
                start == (top + r) * cw + left,
                left + side <= cw;
        lemma_paint_run(prev, start as int, side, rgba);
        assert forall|i: int| 0 <= i < px.len() implies #[trigger] paint_square(
            px,
            top,
            left,
            cw,
            side,
            rows,
            rgba,
        )[i] == if top <= (i / 4) / (cw as int) < top + rows && left <= (i / 4) % (cw as int)
            < left + side {
            channel(rgba, i % 4)
        } else {
            px[i]
        } by {
            let p = i / 4;
            vstd::arithmetic::div_mod::lemma_fundamental_div_mod(p, cw as int);
            vstd::arithmetic::div_mod::lemma_mod_bound(p, cw as int);
            let q = p / (cw as int);
            let m = p % (cw as int);
            vstd::arithmetic::mul::lemma_mul_is_commutative(cw as int, q);
            if start <= p < start + side {
                lemma_div_mod_of((top + r) as int, cw as int, p - (top + r) * cw);
            }
            if q == top + r && left <= m < left + side {
                assert(p == (top + r) * cw + m);
            }
        }
    }
}

proof fn lemma_paint_cells_prefix(w: World, cw: nat, ch: nat, cs: nat, pal: Palette, n: nat)
    requires
        w.cells.len() == w.width * w.height,
        cs >= 1,
        w.width * cs <= cw,
        w.height * cs <= ch,
        n <= w.width * w.height,
    ensures
        paint_cells(w, cw, cs, pal, blank(cw * ch * 4), n).len() == cw * ch * 4,
        forall|i: int|
            0 <= i < cw * ch * 4 ==> #[trigger] paint_cells(
                w,
                cw,
                cs,
                pal,
                blank(cw * ch * 4),
                n,
            )[i] == shown_byte_upto(w, cw, cs, pal, n, i),
    decreases n,
{
    let zeros = blank(cw * ch * 4);
    if n == 0 {
        assert forall|i: int| 0 <= i < cw * ch * 4 implies #[trigger] paint_cells(
            w,
            cw,
            cs,
            pal,
            zeros,
            n,
        )[i] == shown_byte_upto(w, cw, cs, pal, n, i) by {
        }
    } else {
        let j = n - 1;
        lemma_paint_cells_prefix(w, cw, ch, cs, pal, (n - 1) as nat);
        let prev = paint_cells(w, cw, cs, pal, zeros, (n - 1) as nat);
        let wd = w.width as int;
        assert(wd * w.height == w.height * wd) by (nonlinear_arith);
        lemma_index_split(j, w.height as int, wd);
        let x = j % wd;
        let y = j / wd;
        assert(cw > 0) by (nonlinear_arith)
            requires w.width * cs <= cw, cs >= 1, x < w.width, 0 <= x;
        if w.cells[j] != Cell::Dead {
            let top = (y * cs) as nat;
            let left = (x * cs) as nat;
            let side = (cs - 1) as nat;
            assert(left + side <= cw) by (nonlinear_arith)
                requires left == x * cs, side == cs - 1, x + 1 <= w.width, w.width * cs <= cw, cs >= 1, 0 <= x;
            assert(4 * ((top + side) * cw) <= cw * ch * 4) by (nonlinear_arith)
                requires top == y * cs, side == cs - 1, y + 1 <= w.height, w.height * cs <= ch, cs >= 1, 0 <= y;
            lemma_paint_square(prev, top, left, cw, side, side, cell_color(w.cells[j], pal));
            assert forall|i: int| 0 <= i < cw * ch * 4 implies #[trigger] paint_cells(
                w,
                cw,
                cs,
                pal,
                zeros,
                n,
            )[i] == shown_byte_upto(w, cw, cs, pal, n, i) by {
                let p = i / 4;
                let px_ = p % (cw as int);
                let py_ = p / (cw as int);
                vstd::arithmetic::div_mod::lemma_mod_bound(p, cw as int);
                vstd::arithmetic::div_mod::lemma_div_pos_is_pos(p, cw as int);
                vstd::arithmetic::div_mod::lemma_fundamental_div_mod(px_, cs as int);
                vstd::arithmetic::div_mod::lemma_fundamental_div_mod(py_, cs as int);
                vstd::arithmetic::div_mod::lemma_mod_bound(px_, cs as int);
                vstd::arithmetic::div_mod::lemma_mod_bound(py_, cs as int);
                vstd::arithmetic::mul::lemma_mul_is_commutative(cs as int, px_ / (cs as int));
                vstd::arithmetic::mul::lemma_mul_is_commutative(cs as int, py_ / (cs as int));
                let in_sq = top <= py_ < top + side && left <= px_ < left + side;
                if in_sq {
                    lemma_div_mod_of(y, cs as int, py_ - y * cs);
                    lemma_div_mod_of(x, cs as int, px_ - x * cs);
                    assert(covering_cell(w, cw, cs, p) == Some(j));
                }
                if covering_cell(w, cw, cs, p) == Some(j) {
                    let xx = px_ / (cs as int);
                    let yy = py_ / (cs as int);
                    lemma_index_unique(yy, xx, y, x, wd);
                    assert(in_sq);
                }
            }
        } else {
            assert forall|i: int| 0 <= i < cw * ch * 4 implies #[trigger] paint_cells(
                w,
                cw,
                cs,
                pal,
                zeros,
                n,
            )[i] == shown_byte_upto(w, cw, cs, pal, n, i) by {
                assert(paint_cells(w, cw, cs, pal, zeros, n)[i] == prev[i]);
            }
        }
    }
}

/// When the grid of squares fits the canvas (`width * cell_size <= cw`
/// and `height * cell_size <= ch`), every byte of the rendered canvas is
/// what the cells show: the color channel of the cell whose square covers
/// the pixel, and 0 in gaps, outside the grid and for dead cells.
pub proof fn lemma_rendered_shows_cells(w: World, cw: nat, ch: nat, cs: nat, pal: Palette)
    requires
        w.cells.len() == w.width * w.height,
        cs >= 1,
        w.width * cs <= cw,
        w.height * cs <= ch,
    ensures
        rendered(w, cw, ch, cs, pal).len() == cw * ch * 4,
        forall|i: int|
            0 <= i < cw * ch * 4 ==> #[trigger] rendered(w, cw, ch, cs, pal)[i] == shown_byte(
                w,
                cw,
                cs,
                pal,
                i,
            ),
{
    lemma_paint_cells_prefix(w, cw, ch, cs, pal, w.width * w.height);
    assert forall|i: int| 0 <= i < cw * ch * 4 implies #[trigger] rendered(w, cw, ch, cs, pal)[i]
        == shown_byte(w, cw, cs, pal, i) by {
        let p = i / 4;
        if let Some(k) = covering_cell(w, cw, cs, p) {
            let px_ = p % (cw as int);
            let py_ = p / (cw as int);
            assert(cw > 0) by (nonlinear_arith)
                requires 0 <= i < cw * ch * 4;
            vstd::arithmetic::div_mod::lemma_div_pos_is_pos(p, cw as int);
            vstd::arithmetic::div_mod::lemma_mod_bound(p, cw as int);
            vstd::arithmetic::div_mod::lemma_div_pos_is_pos(py_, cs as int);
            vstd::arithmetic::div_mod::lemma_div_pos_is_pos(px_, cs as int);
            lemma_index_bound(py_ / (cs as int), px_ / (cs as int), w.height as int, w.width as int);
        }
    }
}

/// Paints a `side` by `side` square of `rgba` whose top left pixel is
/// `(left, top)` on a canvas `cw` pixels wide.
pub(crate) fn paint_square_exec(pixels: &mut Vec<u8>, top: u32, left: u32, cw: u32, side: u32, rgba: u32)
    requires
        old(pixels)@.len() <= u32::MAX,
        top + side <= u32::MAX + 1,
        side >= 1 ==> ((top + side - 1) * cw + left + side - 1) * 4 + 3 < old(pixels)@.len(),
    ensures
        final(pixels)@.len() == old(pixels)@.len(),
        final(pixels)@ == paint_square(
            old(pixels)@,
            top as nat,
            left as nat,
            cw as nat,
            side as nat,
            side as nat,
            rgba,
        ),
{
    let r = ((rgba >> 24) & 0xFF) as u8;
    let g = ((rgba >> 16) & 0xFF) as u8;
    let b = ((rgba >> 8) & 0xFF) as u8;
    let a = (rgba & 0xFF) as u8;
    let ghost start = pixels@;
    let mut dy: u32 = 0;
    while dy < side
        invariant
            pixels@.len() == start.len(),
            start.len() <= u32::MAX,
            top + side <= u32::MAX + 1,
            side >= 1 ==> ((top + side - 1) * cw + left + side - 1) * 4 + 3 < start.len(),
            0 <= dy <= side,
            r == channel(rgba, 0),
            g == channel(rgba, 1),
            b == channel(rgba, 2),
            a == channel(rgba, 3),
            pixels@ == paint_square(start, top as nat, left as nat, cw as nat, side as nat, dy as nat, rgba),
        decreases side - dy,
    {
        assert((top + dy) * cw <= (top + side - 1) * cw) by (nonlinear_arith)
            requires dy <= side - 1;
        let row_start = ((top + dy) * cw + left) as usize * 4;
        let ghost before = pixels@;
        let mut dx: u32 = 0;
        while dx < side
            invariant
                pixels@.len() == start.len(),
                start.len() <= u32::MAX,
                ((top + side - 1) * cw + left + side - 1) * 4 + 3 < start.len(),
                (top + dy) * cw <= (top + side - 1) * cw,
                0 <= dy < side,
                0 <= dx <= side,
                row_start == ((top + dy) * cw + left) * 4,
                r == channel(rgba, 0),
                g == channel(rgba, 1),
                b == channel(rgba, 2),
                a == channel(rgba, 3),
                pixels@ == paint_run(before, (top + dy) * cw + left, dx as nat, rgba),
            decreases side - dx,
        {
            let i = row_start + dx as usize * 4;
            pixels[i] = r;
            pixels[i + 1] = g;
            pixels[i + 2] = b;
            pixels[i + 3] = a;
            dx = dx + 1;
        }
        dy = dy + 1;
    }
}

} // verus!
