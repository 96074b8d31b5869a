//! A Game of Life universe on a torus whose dying cells fade out over
//! two generations.

use vstd::prelude::*;
use crate::arith::{lemma_div_mod_of, lemma_index_bound, lemma_index_split};
use crate::render::{blank, paint_cells, paint_square_exec, rendered, render_fits, square_fits, Palette, cell_color};

verus! {

/// The state of a cell. A live cell that dies dims, then fades, then is
/// dead.
#[derive(Clone, Copy, PartialEq, Eq, Structural, Debug)]
pub enum Cell {
    Dead,
    Alive,
    Dimming,
    Fading,
}

impl Cell {
    /// The byte that stands for the state: 0 dead, 1 alive, 2 dimming,
    /// 3 fading.
    pub open spec fn spec_code(self) -> u8 {
        match self {
            Cell::Dead => 0,
            Cell::Alive => 1,
            Cell::Dimming => 2,
            Cell::Fading => 3,
        }
    }

    /// The byte that stands for the state: 0 dead, 1 alive, 2 dimming,
    /// 3 fading.
    pub fn code(&self) -> (b: u8)
        ensures
            b == self.spec_code(),
    {
        match self {
            Cell::Dead => 0,
            Cell::Alive => 1,
            Cell::Dimming => 2,
            Cell::Fading => 3,
        }
    }
}

/// A universe as a value: its size and its cells in row-major order.
pub struct World {
    pub width: nat,
    pub height: nat,
    pub cells: Seq<Cell>,
}

/// Whether cell `(x, y)` counts as a live neighbour at offset
/// `(dx, dy)`, where offsets are taken modulo the size of the torus;
/// the offset `(0, 0)` is the cell itself and never counts.
pub open spec fn neighbor_term(w: World, x: nat, y: nat, dx: nat, dy: nat) -> nat {
    if dx == 0 && dy == 0 {
        0
    } else if w.cells[(((y + dy) % w.height) * w.width + (x + dx) % w.width) as int]
        == Cell::Alive {
        1
    } else {
        0
    }
}

/// The live neighbours of cell `(x, y)`: the offsets `height - 1`, 0 and
/// 1 for rows and `width - 1`, 0 and 1 for columns, each pair but
/// `(0, 0)` counted once.
pub open spec fn live_neighbors(w: World, x: nat, y: nat) -> nat {
    let l = (w.width - 1) as nat;
    let u = (w.height - 1) as nat;
    neighbor_term(w, x, y, l, u) + neighbor_term(w, x, y, 0, u) + neighbor_term(w, x, y, 1, u)
        + neighbor_term(w, x, y, l, 0) + neighbor_term(w, x, y, 0, 0) + neighbor_term(
        w,
        x,
        y,
        1,
        0,
    ) + neighbor_term(w, x, y, l, 1) + neighbor_term(w, x, y, 0, 1) + neighbor_term(
        w,
        x,
        y,
        1,
        1,
    )
}

/// The next state of a cell with `n` live neighbours: a live cell
/// survives with 2 or 3 of them and otherwise dims; a dimming cell
/// fades; a dead or fading cell comes alive with exactly 3 and is
/// otherwise dead.
pub open spec fn next_cell(c: Cell, n: nat) -> Cell {
    match c {
        Cell::Alive => if n == 2 || n == 3 {
            Cell::Alive
        } else {
            Cell::Dimming
        },
        Cell::Dimming => Cell::Fading,
        _ => if n == 3 {
            Cell::Alive
        } else {
            Cell::Dead
        },
    }
}

/// The cells of the next generation.
pub open spec fn next_generation(w: World) -> Seq<Cell> {
    Seq::new(
        w.width * w.height,
        |i: int|
            next_cell(
                w.cells[i],
                live_neighbors(w, (i % (w.width as int)) as nat, (i / (w.width as int)) as nat),
            ),
    )
}

/// The universe after one generation.
pub open spec fn ticked(w: World) -> World {
    World { width: w.width, height: w.height, cells: next_generation(w) }
}

/// A generation changes the state of each cell only along the cycle
/// alive, dimming, fading, dead, and back to alive by birth: a dimming
/// cell always fades, a live cell stays alive or dims, and a dead or
/// fading cell comes alive or is dead.
pub proof fn lemma_state_cycle(w: World, i: int)
    requires
        w.cells.len() == w.width * w.height,
        0 <= i < w.cells.len(),
    ensures
        w.cells[i] == Cell::Dimming ==> ticked(w).cells[i] == Cell::Fading,
        w.cells[i] == Cell::Alive ==> (ticked(w).cells[i] == Cell::Alive || ticked(w).cells[i]
            == Cell::Dimming),
        (w.cells[i] == Cell::Dead || w.cells[i] == Cell::Fading) ==> (ticked(w).cells[i]
            == Cell::Alive || ticked(w).cells[i] == Cell::Dead),
{
}

/// A generation keeps the size of the universe.
pub proof fn lemma_tick_keeps_size(w: World)
    requires
        w.cells.len() == w.width * w.height,
    ensures
        ticked(w).width == w.width,
        ticked(w).height == w.height,
        ticked(w).cells.len() == w.cells.len(),
{
}

/// A universe with no live, dimming or fading cell stays so: nothing is
/// born without live neighbours.
pub proof fn lemma_dead_universe_stays_dead(w: World)
    requires
        w.cells.len() == w.width * w.height,
        forall|i: int| 0 <= i < w.cells.len() ==> #[trigger] w.cells[i] == Cell::Dead,
    ensures
        forall|i: int| 0 <= i < ticked(w).cells.len() ==> #[trigger] ticked(w).cells[i] == Cell::Dead,
{
    assert forall|i: int| 0 <= i < ticked(w).cells.len() implies #[trigger] ticked(w).cells[i]
        == Cell::Dead by {
        let x = (i % (w.width as int)) as nat;
        let y = (i / (w.width as int)) as nat;
        assert(w.width * w.height == w.height * w.width) by (nonlinear_arith);
        lemma_index_split(i, w.height as int, w.width as int);
        let l = (w.width - 1) as nat;
        let u = (w.height - 1) as nat;
        assert forall|dx: nat, dy: nat| dx <= w.width && dy <= w.height implies #[trigger] neighbor_term(w, x, y, dx, dy) == 0 by {
            if !(dx == 0 && dy == 0) {
                let ny = ((y + dy) % w.height) as int;
                let nx = ((x + dx) % w.width) as int;
                vstd::arithmetic::div_mod::lemma_mod_bound((y + dy) as int, w.height as int);
                vstd::arithmetic::div_mod::lemma_mod_bound((x + dx) as int, w.width as int);
                lemma_index_bound(ny, nx, w.height as int, w.width as int);
            }
        }
        assert(neighbor_term(w, x, y, l, u) == 0);
        assert(neighbor_term(w, x, y, 0, u) == 0);
        assert(neighbor_term(w, x, y, 1, u) == 0);
        assert(neighbor_term(w, x, y, l, 0) == 0);
        assert(neighbor_term(w, x, y, 1, 0) == 0);
        assert(neighbor_term(w, x, y, l, 1) == 0);
        assert(neighbor_term(w, x, y, 0, 1) == 0);
        assert(neighbor_term(w, x, y, 1, 1) == 0);
    }
}

/// Whether the cell at column `x` of row `y` is alive, the coordinates
/// wrapped around the torus (any integers are taken modulo the size).
pub open spec fn alive_at(w: World, x: int, y: int) -> bool {
    w.cells[(y % (w.height as int)) * (w.width as int) + x % (w.width as int)] == Cell::Alive
}

/// 1 when `b` holds, else 0.
pub open spec fn one_if(b: bool) -> nat {
    if b {
        1
    } else {
        0
    }
}

/// How many of the eight cells that touch `(x, y)` on the torus (its
/// Moore neighbourhood) are alive.
pub open spec fn moore_count(w: World, x: int, y: int) -> nat {
    one_if(alive_at(w, x - 1, y - 1)) + one_if(alive_at(w, x, y - 1)) + one_if(alive_at(w, x + 1, y - 1))
        + one_if(alive_at(w, x - 1, y)) + one_if(alive_at(w, x + 1, y))
        + one_if(alive_at(w, x - 1, y + 1)) + one_if(alive_at(w, x, y + 1)) + one_if(alive_at(w, x + 1, y + 1))
}

/// An offset of `width - 1` (or `height - 1`) on the torus is a step
/// back by one.
proof fn lemma_offset_wraps(c: int, d: nat, e: int, m: nat)
    requires
        m >= 1,
        0 <= c,
        d == e || (d == m - 1 && e == -1),
    ensures
        (c + d) % (m as int) == (c + e) % (m as int),
{
    if d != e {
        vstd::arithmetic::div_mod::lemma_mod_add_multiples_vanish(c - 1, m as int);
    }
}

proof fn lemma_neighbor_term_is_moore(w: World, x: int, y: int, dx: nat, ex: int, dy: nat, ey: int)
    requires
        w.width >= 2,
        w.height >= 2,
        0 <= x < w.width,
        0 <= y < w.height,
        dx == ex || (dx == w.width - 1 && ex == -1),
        dy == ey || (dy == w.height - 1 && ey == -1),
        -1 <= ex <= 1,
        -1 <= ey <= 1,
        !(ex == 0 && ey == 0),
    ensures
        neighbor_term(w, x as nat, y as nat, dx, dy) == one_if(alive_at(w, x + ex, y + ey)),
{
    lemma_offset_wraps(x, dx, ex, w.width);
    lemma_offset_wraps(y, dy, ey, w.height);
}

/// The rule of each generation, told by the live cells around each
/// cell on the torus: a live cell stays alive with 2 or 3 live
/// neighbours and dims with any other number (overcrowded or lonely); a
/// dimming cell fades; a dead or fading cell comes alive with exactly 3
/// live neighbours and is dead otherwise.
pub proof fn lemma_tick_rules(w: World, x: int, y: int)
    requires
        w.width >= 2,
        w.height >= 2,
        w.cells.len() == w.width * w.height,
        0 <= x < w.width,
        0 <= y < w.height,
    ensures
        ({
            let i = y * w.width + x;
            let n = moore_count(w, x, y);
            let next = ticked(w).cells[i];
            &&& w.cells[i] == Cell::Alive && (n == 2 || n == 3) ==> next == Cell::Alive
            &&& w.cells[i] == Cell::Alive && n != 2 && n != 3 ==> next == Cell::Dimming
            &&& w.cells[i] == Cell::Dimming ==> next == Cell::Fading
            &&& (w.cells[i] == Cell::Dead || w.cells[i] == Cell::Fading) && n == 3 ==> next == Cell::Alive
            &&& (w.cells[i] == Cell::Dead || w.cells[i] == Cell::Fading) && n != 3 ==> next == Cell::Dead
        }),
{
    let wd = w.width;
    let ht = w.height;
    let i = y * wd + x;
    lemma_index_bound(y, x, ht as int, wd as int);
    lemma_div_mod_of(y, wd as int, x);
    let l = (wd - 1) as nat;
    let u = (ht - 1) as nat;
    lemma_neighbor_term_is_moore(w, x, y, l, -1, u, -1);
    lemma_neighbor_term_is_moore(w, x, y, 0, 0, u, -1);
    lemma_neighbor_term_is_moore(w, x, y, 1, 1, u, -1);
    lemma_neighbor_term_is_moore(w, x, y, l, -1, 0, 0);
    lemma_neighbor_term_is_moore(w, x, y, 1, 1, 0, 0);
    lemma_neighbor_term_is_moore(w, x, y, l, -1, 1, 1);
    lemma_neighbor_term_is_moore(w, x, y, 0, 0, 1, 1);
    lemma_neighbor_term_is_moore(w, x, y, 1, 1, 1, 1);
    assert(live_neighbors(w, x as nat, y as nat) == moore_count(w, x, y));
    assert(ticked(w).cells[i] == next_cell(w.cells[i], live_neighbors(w, x as nat, y as nat)));
}

/// Where cell `(x, y)` of a universe as wide and high as `u` lands when
/// shifted by `(a, b)` on the torus.
pub open spec fn shift_index(u: World, x: nat, y: nat, a: nat, b: nat) -> int {
    (((y + b) % u.height) * u.width + (x + a) % u.width) as int
}

/// `v` is `u` shifted by `(a, b)` on the torus.
pub open spec fn shifted_by(u: World, v: World, a: nat, b: nat) -> bool {
    &&& u.width == v.width
    &&& u.height == v.height
    &&& forall|x: nat, y: nat|
        x < u.width && y < u.height ==> #[trigger] v.cells[shift_index(u, x, y, a, b)]
            == u.cells[(y * u.width + x) as int]
}

/// `(c % m + d) % m == (c + d) % m`.
proof fn lemma_mod_shift(c: nat, d: nat, m: nat)
    requires
        m > 0,
    ensures
        ((c % m) + d) % m == (c + d) % m,
{
    vstd::arithmetic::div_mod::lemma_add_mod_noop_right(d as int, c as int, m as int);
}

proof fn lemma_neighbor_term_shift(u: World, v: World, a: nat, b: nat, x: nat, y: nat, dx: nat, dy: nat)
    requires
        u.width >= 1,
        u.height >= 1,
        shifted_by(u, v, a, b),
        x < u.width,
        y < u.height,
    ensures
        neighbor_term(v, (x + a) % u.width, (y + b) % u.height, dx, dy) == neighbor_term(u, x, y, dx, dy),
{
    if !(dx == 0 && dy == 0) {
        let w = u.width;
        let h = u.height;
        let nx = (x + dx) % w;
        let ny = (y + dy) % h;
        lemma_mod_shift(x + a, dx, w);
        lemma_mod_shift(x + dx, a, w);
        lemma_mod_shift(y + b, dy, h);
        lemma_mod_shift(y + dy, b, h);
        assert((x + a + dx) == (x + dx + a));
        assert(((x + a) % w + dx) % w == (nx + a) % w);
        assert(((y + b) % h + dy) % h == (ny + b) % h);
        vstd::arithmetic::div_mod::lemma_mod_bound((x + dx) as int, w as int);
        vstd::arithmetic::div_mod::lemma_mod_bound((y + dy) as int, h as int);
        assert(v.cells[shift_index(u, nx, ny, a, b)] == u.cells[(ny * w + nx) as int]);
    }
}

/// A generation commutes with shifts of the torus: shifting a universe
/// by `(a, b)` and then advancing it gives the advanced universe shifted
/// by `(a, b)`.
pub proof fn lemma_tick_commutes_with_shift(u: World, v: World, a: nat, b: nat)
    requires
        u.width >= 1,
        u.height >= 1,
        u.cells.len() == u.width * u.height,
        v.cells.len() == v.width * v.height,
        shifted_by(u, v, a, b),
    ensures
        shifted_by(ticked(u), ticked(v), a, b),
{
    let w = u.width;
    let h = u.height;
    let tu = ticked(u);
    let tv = ticked(v);
    assert forall|x: nat, y: nat| x < tu.width && y < tu.height implies #[trigger] tv.cells[shift_index(tu, x, y, a, b)]
        == tu.cells[(y * tu.width + x) as int] by {
        let xs = (x + a) % w;
        let ys = (y + b) % h;
        vstd::arithmetic::div_mod::lemma_mod_bound((x + a) as int, w as int);
        vstd::arithmetic::div_mod::lemma_mod_bound((y + b) as int, h as int);
        let j = shift_index(u, x, y, a, b);
        let i = (y * w + x) as int;
        lemma_div_mod_of(ys as int, w as int, xs as int);
        lemma_div_mod_of(y as int, w as int, x as int);
        lemma_index_bound(ys as int, xs as int, h as int, w as int);
        lemma_index_bound(y as int, x as int, h as int, w as int);
        let l = (w - 1) as nat;
        let up = (h - 1) as nat;
        lemma_neighbor_term_shift(u, v, a, b, x, y, l, up);
        lemma_neighbor_term_shift(u, v, a, b, x, y, 0, up);
        lemma_neighbor_term_shift(u, v, a, b, x, y, 1, up);
        lemma_neighbor_term_shift(u, v, a, b, x, y, l, 0);
        lemma_neighbor_term_shift(u, v, a, b, x, y, 0, 0);
        lemma_neighbor_term_shift(u, v, a, b, x, y, 1, 0);
        lemma_neighbor_term_shift(u, v, a, b, x, y, l, 1);
        lemma_neighbor_term_shift(u, v, a, b, x, y, 0, 1);
        lemma_neighbor_term_shift(u, v, a, b, x, y, 1, 1);
        assert(live_neighbors(v, xs, ys) == live_neighbors(u, x, y));
        assert(v.cells[j] == u.cells[i]);
        assert(tv.cells[j] == next_cell(v.cells[j], live_neighbors(v, xs, ys)));
        assert(tu.cells[i] == next_cell(u.cells[i], live_neighbors(u, x, y)));
    }
}

/// A universe of cells on a torus, with the buffer its pixels are
/// rendered into.
pub struct Universe {
    width: u32,
    height: u32,
    cells: Vec<Cell>,
    scratch: Vec<Cell>,
    pixels: Vec<u8>,
}

impl View for Universe {
    type V = World;

    closed spec fn view(&self) -> World {
        World { width: self.width as nat, height: self.height as nat, cells: self.cells@ }
    }
}

impl Universe {
    /// The cells fill the rectangle, and their number fits in a `u32`.
    pub closed spec fn wf(&self) -> bool {
        &&& self.cells@.len() == self.width * self.height
        &&& self.scratch@.len() == self.width * self.height
        &&& self.width * self.height <= u32::MAX
    }

    /// The rendered pixels, four bytes (red, green, blue, alpha) each.
    pub closed spec fn pixels_view(&self) -> Seq<u8> {
        self.pixels@
    }

    /// A universe of `width` by `height` cells holding `cells`.
    pub fn new(width: u32, height: u32, cells: Vec<Cell>) -> (u: Universe)
        requires
            width * height <= u32::MAX,
            cells@.len() == width * height,
        ensures
            u@ == (World { width: width as nat, height: height as nat, cells: cells@ }),
            u.wf(),
            u.pixels_view() == Seq::<u8>::empty(),
    {
        let size = (width * height) as usize;
        let scratch = vec![Cell::Dead; size];
        Universe { width, height, cells, scratch, pixels: Vec::new() }
    }

    /// The width in cells.
    pub fn width(&self) -> (w: u32)
        ensures
            w == self@.width,
    {
        self.width
    }

    /// The height in cells.
    pub fn height(&self) -> (h: u32)
        ensures
            h == self@.height,
    {
        self.height
    }

    /// The cells in row-major order.
    pub fn cells(&self) -> (c: &Vec<Cell>)
        ensures
            c@ == self@.cells,
    {
        &self.cells
    }

    /// The rendered pixels.
    pub fn pixels(&self) -> (p: &Vec<u8>)
        ensures
            p@ == self.pixels_view(),
    {
        &self.pixels
    }

    /// Advances the universe by one generation (see `next_cell`).
    pub fn tick(&mut self)
        requires
            old(self).wf(),
            old(self)@.width == 0 || old(self)@.height == 0 || (old(self)@.width <= 0x8000_0000
                && old(self)@.height <= 0x8000_0000),
        ensures
            final(self).wf(),
            final(self)@ == ticked(old(self)@),
            final(self).pixels_view() == old(self).pixels_view(),
    {
        let w = self.width;
        let h = self.height;
        let ghost start = self@;
        let mut y: u32 = 0;
        while y < h
            invariant
                self.wf(),
                self@ == start,
                w == self.width,
                h == self.height,
                w == 0 || h == 0 || (w <= 0x8000_0000 && h <= 0x8000_0000),
                self.pixels@ == old(self).pixels@,
                0 <= y <= h,
                forall|k: int| 0 <= k < y * w ==> #[trigger] self.scratch@[k] == next_generation(start)[k],
            decreases h - y,
        {
            let mut x: u32 = 0;
            while x < w
                invariant
                    self.wf(),
                    self@ == start,
                    w == self.width,
                    h == self.height,
                    w == 0 || h == 0 || (w <= 0x8000_0000 && h <= 0x8000_0000),
                    self.pixels@ == old(self).pixels@,
                    0 <= y < h,
                    0 <= x <= w,
                    forall|k: int| 0 <= k < y * w + x ==> #[trigger] self.scratch@[k] == next_generation(start)[k],
                decreases w - x,
            {
                proof {
                    lemma_index_bound(y as int, x as int, h as int, w as int);
                    lemma_div_mod_of(y as int, w as int, x as int);
                }
                let idx = (y * w + x) as usize;
                let cell = self.cells[idx];
                let n = self.live_neighbor_count(x, y);
                let next = match cell {
                    Cell::Alive => {
                        if n == 2 || n == 3 {
                            Cell::Alive
                        } else {
                            Cell::Dimming
                        }
                    },
                    Cell::Dimming => Cell::Fading,
                    _ => {
                        if n == 3 {
                            Cell::Alive
                        } else {
                            Cell::Dead
                        }
                    },
                };
                self.scratch[idx] = next;
                x = x + 1;
            }
            assert((y + 1) * w == y * w + w) by (nonlinear_arith);
            y = y + 1;
        }
        std::mem::swap(&mut self.cells, &mut self.scratch);
        proof {
            assert(h * w == w * h) by (nonlinear_arith);
            assert(self.cells@ =~= next_generation(start));
        }
    }

    /// Renders the cells into the pixel buffer: a canvas of `cw` by `ch`
    /// pixels, four bytes each, with cells `cell_size` pixels apart and
    /// alive, dimming and fading cells in the colors `c_alive`,
    /// `c_dimming` and `c_fading` (written `0xRRGGBBAA`); dead cells and
    /// the gaps stay zero (see `rendered`).
    pub fn render(&mut self, cw: u32, ch: u32, cell_size: u32, c_alive: u32, c_dimming: u32, c_fading: u32)
        requires
            old(self).wf(),
            render_fits(old(self)@, cw as nat, ch as nat, cell_size as nat),
        ensures
            final(self).wf(),
            final(self)@ == old(self)@,
            final(self).pixels_view() == rendered(
                old(self)@,
                cw as nat,
                ch as nat,
                cell_size as nat,
                Palette { alive: c_alive, dimming: c_dimming, fading: c_fading },
            ),
    {
        let ghost start = self@;
        let ghost pal = Palette { alive: c_alive, dimming: c_dimming, fading: c_fading };
        let px_count = (cw * ch * 4) as usize;
        self.pixels.clear();
        let mut k: usize = 0;
        while k < px_count
            invariant
                self.wf(),
                self@ == start,
                0 <= k <= px_count,
                self.pixels@ =~= Seq::new(k as nat, |i: int| 0u8),
            decreases px_count - k,
        {
            self.pixels.push(0);
            k = k + 1;
        }
        let ghost zeros = self.pixels@;
        let gap = cell_size - 1;
        let w = self.width;
        let h = self.height;
        let mut cy: u32 = 0;
        while cy < h
            invariant
                self.wf(),
                self@ == start,
                w == self.width,
                h == self.height,
                render_fits(start, cw as nat, ch as nat, cell_size as nat),
                gap == cell_size - 1,
                zeros == blank((cw * ch * 4) as nat),
                pal == (Palette { alive: c_alive, dimming: c_dimming, fading: c_fading }),
                self.pixels@.len() == cw * ch * 4,
                0 <= cy <= h,
                self.pixels@ == paint_cells(start, cw as nat, cell_size as nat, pal, zeros, (cy * w) as nat),
            decreases h - cy,
        {
            assert(cy * cell_size <= (h - 1) * cell_size) by (nonlinear_arith)
                requires cy <= h - 1;
            assert(cy * w <= h * w) by (nonlinear_arith)
                requires cy <= h;
            let cell_row = (cy * w) as usize;
            let py_base = cy * cell_size;
            let mut cx: u32 = 0;
            while cx < w
                invariant
                    self.wf(),
                    self@ == start,
                    w == self.width,
                    h == self.height,
                    render_fits(start, cw as nat, ch as nat, cell_size as nat),
                    gap == cell_size - 1,
                    zeros == blank((cw * ch * 4) as nat),
                    pal == (Palette { alive: c_alive, dimming: c_dimming, fading: c_fading }),
                    self.pixels@.len() == cw * ch * 4,
                    0 <= cy < h,
                    0 <= cx <= w,
                    cell_row == cy * w,
                    py_base == cy * cell_size,
                    self.pixels@ == paint_cells(start, cw as nat, cell_size as nat, pal, zeros, (cy * w + cx) as nat),
                decreases w - cx,
            {
                proof {
                    lemma_index_bound(cy as int, cx as int, h as int, w as int);
                    lemma_div_mod_of(cy as int, w as int, cx as int);
                }
                let state = self.cells[cell_row + cx as usize];
                let ghost kk = (cy * w + cx) as int;
                let color = match state {
                    Cell::Dead => None,
                    Cell::Alive => Some(c_alive),
                    Cell::Dimming => Some(c_dimming),
                    Cell::Fading => Some(c_fading),
                };
                match color {
                    None => {},
                    Some(rgba) => {
                        assert(rgba == cell_color(state, pal));
                        assert(square_fits(start, kk, cw as nat, ch as nat, cell_size as nat));
                        let px_base = cx * cell_size;
                        proof {
                            if gap >= 1 {
                                assert(cw * ch > 0);
                                assert(cw >= 1) by (nonlinear_arith)
                                    requires cw * ch > 0;
                                assert(py_base + gap - 1 <= (py_base + gap - 1) * cw) by (nonlinear_arith)
                                    requires cw >= 1, py_base + gap - 1 >= 0;
                            }
                        }
                        paint_square_exec(&mut self.pixels, py_base, px_base, cw, gap, rgba);
                    },
                }
                cx = cx + 1;
            }
            assert((cy + 1) * w == cy * w + w) by (nonlinear_arith);
            cy = cy + 1;
        }
        proof {
            assert(h * w == w * h) by (nonlinear_arith);
        }
    }

    /// Whether `render(cw, ch, cell_size, ..)` can run: see `render_fits`.
    pub fn can_render(&self, cw: u32, ch: u32, cell_size: u32) -> (ok: bool)
        requires
            self.wf(),
        ensures
            ok == render_fits(self@, cw as nat, ch as nat, cell_size as nat),
    {
        let w = self.width;
        let h = self.height;
        let ghost world = self@;
        if cell_size == 0 {
            return false;
        }
        let cw64 = cw as u64;
        let ch64 = ch as u64;
        assert(cw64 * ch64 <= 0xffff_ffff_ffff_ffff) by (nonlinear_arith)
            requires cw64 <= 0xffff_ffff, ch64 <= 0xffff_ffff;
        if cw64 * ch64 > 0x3fff_ffff {
            assert(cw * ch * 4 > u32::MAX);
            return false;
        }
        if h > 0 {
            let last = (h - 1) as u64;
            assert(last * (cell_size as u64) <= 0xffff_ffff_ffff_ffff) by (nonlinear_arith)
                requires last <= 0xffff_ffff, cell_size <= 0xffff_ffff;
            if last * (cell_size as u64) > 0xffff_ffff {
                return false;
            }
        }
        let cs = cell_size as u128;
        let cwl = cw as u128;
        let limit = (cw as u128) * (ch as u128);
        let mut cy: u32 = 0;
        while cy < h
            invariant
                self.wf(),
                self@ == world,
                w == self.width,
                h == self.height,
                cell_size >= 1,
                cs == cell_size,
                cwl == cw,
                limit == cw * ch,
                0 <= cy <= h,
                forall|k: int|
                    0 <= k < cy * w && world.cells[k] != Cell::Dead ==> #[trigger] square_fits(
                        world,
                        k,
                        cw as nat,
                        ch as nat,
                        cell_size as nat,
                    ),
            decreases h - cy,
        {
            let mut cx: u32 = 0;
            while cx < w
                invariant
                    self.wf(),
                    self@ == world,
                    w == self.width,
                    h == self.height,
                    cell_size >= 1,
                    cs == cell_size,
                    cwl == cw,
                    limit == cw * ch,
                    0 <= cy < h,
                    0 <= cx <= w,
                    forall|k: int|
                        0 <= k < cy * w + cx && world.cells[k] != Cell::Dead ==> #[trigger] square_fits(
                            world,
                            k,
                            cw as nat,
                            ch as nat,
                            cell_size as nat,
                        ),
                decreases w - cx,
            {
                proof {
                    lemma_index_bound(cy as int, cx as int, h as int, w as int);
                    lemma_div_mod_of(cy as int, w as int, cx as int);
                }
                let k = (cy * w + cx) as usize;
                if self.cells[k] != Cell::Dead {
                    let x = cx as u128;
                    let y = cy as u128;
                    assert(x * cs <= 0xffff_ffff_ffff_ffff) by (nonlinear_arith)
                        requires x <= 0xffff_ffff, cs <= 0xffff_ffff;
                    assert(y * cs <= 0xffff_ffff_ffff_ffff) by (nonlinear_arith)
                        requires y <= 0xffff_ffff, cs <= 0xffff_ffff;
                    if x * cs > 0xffff_ffff {
                        assert(!square_fits(world, k as int, cw as nat, ch as nat, cell_size as nat));
                        return false;
                    }
                    if cs >= 2 {
                        let row = y * cs + cs - 2;
                        assert(row * cwl <= 0xffff_ffff_ffff_ffff_ffff_ffff_ffff) by (nonlinear_arith)
                            requires row <= 0x1_ffff_ffff_ffff_ffff, cwl <= 0xffff_ffff;
                        if row * cwl + x * cs + cs - 2 >= limit {
                            assert(!square_fits(world, k as int, cw as nat, ch as nat, cell_size as nat));
                            return false;
                        }
                    }
                    assert(square_fits(world, k as int, cw as nat, ch as nat, cell_size as nat));
                }
                cx = cx + 1;
            }
            assert((cy + 1) * w == cy * w + w) by (nonlinear_arith);
            cy = cy + 1;
        }
        assert(h * w == w * h) by (nonlinear_arith);
        true
    }

    /// Whether the neighbour at offset `(dx, dy)` of cell `(x, y)` is
    /// alive (1) or not (0); the offset `(0, 0)` gives 0.
    fn neighbor(&self, x: u32, y: u32, dx: u32, dy: u32) -> (n: u8)
        requires
            self.wf(),
            x < self.width,
            y < self.height,
            dx <= self.width,
            dy <= self.height,
            self.width <= 0x8000_0000,
            self.height <= 0x8000_0000,
        ensures
            n as nat == neighbor_term(self@, x as nat, y as nat, dx as nat, dy as nat),
    {
        if dx == 0 && dy == 0 {
            return 0;
        }
        let w = self.width;
        let h = self.height;
        let nx = (x + dx) % w;
        let ny = (y + dy) % h;
        proof {
            lemma_index_bound(ny as int, nx as int, h as int, w as int);
        }
        if self.cells[(ny * w + nx) as usize] == Cell::Alive {
            1
        } else {
            0
        }
    }

    /// The number of live neighbours of cell `(x, y)`.
    fn live_neighbor_count(&self, x: u32, y: u32) -> (count: u8)
        requires
            self.wf(),
            x < self.width,
            y < self.height,
            self.width <= 0x8000_0000,
            self.height <= 0x8000_0000,
        ensures
            count as nat == live_neighbors(self@, x as nat, y as nat),
    {
        let w = self.width;
        let h = self.height;
        let mut count: u8 = 0;
        count = count + self.neighbor(x, y, w - 1, h - 1);
        count = count + self.neighbor(x, y, 0, h - 1);
        count = count + self.neighbor(x, y, 1, h - 1);
        count = count + self.neighbor(x, y, w - 1, 0);
        count = count + self.neighbor(x, y, 0, 0);
        count = count + self.neighbor(x, y, 1, 0);
        count = count + self.neighbor(x, y, w - 1, 1);
        count = count + self.neighbor(x, y, 0, 1);
        count = count + self.neighbor(x, y, 1, 1);
        count
    }
}

} // verus!
