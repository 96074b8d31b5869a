use lifegrid::{Cell, Universe};

#[test]
fn can_render_accepts_a_fitting_canvas() {
    let u = Universe::new(2, 2, vec![Cell::Alive, Cell::Dead, Cell::Dimming, Cell::Alive]);
    assert!(u.can_render(6, 6, 3));
    assert!(u.can_render(4, 4, 2));
}

#[test]
fn can_render_refuses_zero_cell_size() {
    let u = Universe::new(1, 1, vec![Cell::Dead]);
    assert!(!u.can_render(4, 4, 0));
}

#[test]
fn can_render_refuses_a_square_outside_the_canvas() {
    let u = Universe::new(2, 2, vec![Cell::Dead, Cell::Dead, Cell::Dead, Cell::Alive]);
    // The square of cell (1, 1) reaches pixel (4, 4), which a 4 by 4 canvas lacks.
    assert!(!u.can_render(4, 4, 3));
    // Dead cells paint nothing, so only live ones need room.
    let u = Universe::new(2, 2, vec![Cell::Alive, Cell::Dead, Cell::Dead, Cell::Dead]);
    assert!(u.can_render(4, 4, 3));
}

#[test]
fn can_render_refuses_byte_counts_beyond_u32() {
    let u = Universe::new(1, 1, vec![Cell::Dead]);
    assert!(!u.can_render(65536, 16384, 1));
    assert!(u.can_render(65535, 16384, 1));
}

#[test]
fn can_render_with_cell_size_one_needs_only_the_byte_count() {
    let u = Universe::new(3, 1, vec![Cell::Alive, Cell::Alive, Cell::Alive]);
    assert!(u.can_render(0, 0, 1));
}
