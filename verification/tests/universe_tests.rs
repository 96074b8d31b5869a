use lifegrid::{Cell, Universe};

fn cells_of(codes: &[u8]) -> Vec<Cell> {
    codes
        .iter()
        .map(|c| match c {
            0 => Cell::Dead,
            1 => Cell::Alive,
            2 => Cell::Dimming,
            _ => Cell::Fading,
        })
        .collect()
}

fn codes_of(u: &Universe) -> Vec<u8> {
    u.cells().iter().map(|c| c.code()).collect()
}

#[test]
fn cell_codes_match_the_byte_layout() {
    assert_eq!(Cell::Dead.code(), 0);
    assert_eq!(Cell::Alive.code(), 1);
    assert_eq!(Cell::Dimming.code(), 2);
    assert_eq!(Cell::Fading.code(), 3);
}

#[test]
fn new_keeps_size_and_cells() {
    let u = Universe::new(3, 2, cells_of(&[1, 0, 2, 3, 0, 1]));
    assert_eq!(u.width(), 3);
    assert_eq!(u.height(), 2);
    assert_eq!(codes_of(&u), vec![1, 0, 2, 3, 0, 1]);
    assert!(u.pixels().is_empty());
}

#[test]
fn blinker_oscillates_and_dying_cells_fade() {
    let mut start = vec![0u8; 25];
    for x in 1..4 {
        start[2 * 5 + x] = 1;
    }
    let mut u = Universe::new(5, 5, cells_of(&start));
    u.tick();
    assert_eq!(
        codes_of(&u),
        vec![0, 0, 0, 0, 0, 0, 0, 1, 0, 0, 0, 2, 1, 2, 0, 0, 0, 1, 0, 0, 0, 0, 0, 0, 0]
    );
    u.tick();
    assert_eq!(
        codes_of(&u),
        vec![0, 0, 0, 0, 0, 0, 0, 2, 0, 0, 0, 3, 1, 3, 0, 0, 0, 2, 0, 0, 0, 0, 0, 0, 0]
    );
}

#[test]
fn block_is_still() {
    let mut start = vec![0u8; 16];
    for i in [5, 6, 9, 10] {
        start[i] = 1;
    }
    let mut u = Universe::new(4, 4, cells_of(&start));
    u.tick();
    assert_eq!(codes_of(&u), start);
}

#[test]
fn dead_universe_stays_dead() {
    let mut u = Universe::new(4, 3, cells_of(&[0; 12]));
    u.tick();
    u.tick();
    assert_eq!(codes_of(&u), vec![0; 12]);
}

#[test]
fn fading_cells_die_and_dimming_cells_fade() {
    let mut u = Universe::new(3, 3, cells_of(&[2, 0, 3, 0, 0, 0, 3, 0, 2]));
    u.tick();
    assert_eq!(codes_of(&u), vec![3, 0, 0, 0, 0, 0, 0, 0, 3]);
}

#[test]
fn single_cell_torus_counts_itself() {
    // On a 1 by 1 torus the offsets width - 1 and 1 both wrap to the cell
    // itself, so a live cell sees five live neighbours and dims.
    let mut u = Universe::new(1, 1, cells_of(&[1]));
    u.tick();
    assert_eq!(codes_of(&u), vec![2]);
    let mut u = Universe::new(1, 1, cells_of(&[0]));
    u.tick();
    assert_eq!(codes_of(&u), vec![0]);
}

#[test]
fn small_tori_wrap_neighbours() {
    let mut u = Universe::new(2, 2, cells_of(&[1, 1, 1, 1]));
    u.tick();
    assert_eq!(codes_of(&u), vec![2, 2, 2, 2]);
    let mut u = Universe::new(3, 1, cells_of(&[1, 1, 1]));
    u.tick();
    assert_eq!(codes_of(&u), vec![2, 2, 2]);
}

#[test]
fn birth_needs_exactly_three() {
    // A dead cell with three live neighbours is born; the live ones each
    // have two neighbours and survive.
    let mut u = Universe::new(4, 4, cells_of(&[0, 0, 0, 0, 0, 1, 1, 0, 0, 1, 0, 0, 0, 0, 0, 0]));
    u.tick();
    assert_eq!(codes_of(&u), vec![0, 0, 0, 0, 0, 1, 1, 0, 0, 1, 1, 0, 0, 0, 0, 0]);
}

#[test]
fn render_paints_squares_with_gaps() {
    let mut u = Universe::new(2, 1, cells_of(&[1, 3]));
    u.render(4, 2, 2, 0x11223344, 0x55667788, 0x99aabbcc);
    assert_eq!(
        u.pixels().clone(),
        vec![17, 34, 51, 68, 0, 0, 0, 0, 153, 170, 187, 204, 0, 0, 0, 0, 0, 0, 0, 0, 0, 0, 0, 0,
            0, 0, 0, 0, 0, 0, 0, 0]
    );
}

#[test]
fn render_leaves_dead_cells_and_gaps_blank() {
    let mut u = Universe::new(2, 2, cells_of(&[1, 0, 2, 1]));
    u.render(6, 6, 3, 0xff000080, 0x00ff0040, 0x0000ff20);
    let px = u.pixels().clone();
    assert_eq!(px.len(), 6 * 6 * 4);
    let pixel = |x: usize, y: usize| px[(y * 6 + x) * 4..(y * 6 + x) * 4 + 4].to_vec();
    // The alive cell (0, 0) fills pixels (0..2, 0..2).
    for (x, y) in [(0, 0), (1, 0), (0, 1), (1, 1)] {
        assert_eq!(pixel(x, y), vec![255, 0, 0, 128]);
    }
    // The dimming cell (0, 1) fills pixels (0..2, 3..5).
    for (x, y) in [(0, 3), (1, 3), (0, 4), (1, 4)] {
        assert_eq!(pixel(x, y), vec![0, 255, 0, 64]);
    }
    // The alive cell (1, 1) fills pixels (3..5, 3..5).
    for (x, y) in [(3, 3), (4, 3), (3, 4), (4, 4)] {
        assert_eq!(pixel(x, y), vec![255, 0, 0, 128]);
    }
    // The dead cell (1, 0) and the gaps stay zero.
    for (x, y) in [(3, 0), (4, 1), (2, 0), (5, 5), (0, 2), (2, 4)] {
        assert_eq!(pixel(x, y), vec![0, 0, 0, 0]);
    }
}

#[test]
fn render_wraps_squares_wider_than_the_canvas() {
    // The canvas is narrower than the cells: the second square runs on
    // into the next row, and later squares paint over earlier ones.
    let mut u = Universe::new(2, 1, cells_of(&[1, 2]));
    u.render(3, 3, 3, 0x01020304, 0x05060708, 0);
    assert_eq!(
        u.pixels().clone(),
        vec![1, 2, 3, 4, 1, 2, 3, 4, 0, 0, 0, 0, 5, 6, 7, 8, 5, 6, 7, 8, 0, 0, 0, 0, 5, 6, 7, 8,
            5, 6, 7, 8, 0, 0, 0, 0]
    );
}

#[test]
fn render_with_cell_size_one_paints_nothing() {
    let mut u = Universe::new(2, 2, cells_of(&[1, 1, 1, 1]));
    u.render(2, 2, 1, 0xffffffff, 0xffffffff, 0xffffffff);
    assert_eq!(u.pixels().clone(), vec![0; 16]);
}

#[test]
fn render_clears_earlier_pixels() {
    let mut u = Universe::new(1, 1, cells_of(&[1]));
    u.render(2, 2, 2, 0x0a0b0c0d, 0, 0);
    assert_eq!(&u.pixels()[0..4], &[10, 11, 12, 13]);
    u.tick();
    u.tick();
    u.tick();
    // Alive, dimming, fading, then dead.
    assert_eq!(u.cells()[0], Cell::Dead);
    u.render(2, 2, 2, 0x0a0b0c0d, 0, 0);
    assert_eq!(u.pixels().clone(), vec![0; 16]);
}

#[test]
fn tick_on_an_empty_universe_does_nothing() {
    let mut u = Universe::new(0, 7, Vec::new());
    u.tick();
    assert_eq!((u.width(), u.height()), (0, 7));
    assert!(u.cells().is_empty());
}

#[test]
fn tick_commutes_with_torus_shifts() {
    let (w, h) = (5usize, 4usize);
    let start: Vec<u8> = vec![0, 1, 0, 0, 0, 0, 0, 1, 0, 0, 1, 1, 1, 0, 0, 0, 0, 0, 0, 2];
    let (a, b) = (3usize, 2usize);
    let mut shifted = vec![0u8; w * h];
    for y in 0..h {
        for x in 0..w {
            shifted[((y + b) % h) * w + (x + a) % w] = start[y * w + x];
        }
    }
    let mut u = Universe::new(w as u32, h as u32, cells_of(&start));
    let mut v = Universe::new(w as u32, h as u32, cells_of(&shifted));
    for _ in 0..3 {
        u.tick();
        v.tick();
        let (cu, cv) = (codes_of(&u), codes_of(&v));
        for y in 0..h {
            for x in 0..w {
                assert_eq!(cv[((y + b) % h) * w + (x + a) % w], cu[y * w + x]);
            }
        }
    }
}
