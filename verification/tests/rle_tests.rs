use lifegrid::patterns;
use lifegrid::Stamp;

fn bits(v: &[u8]) -> Vec<bool> {
    v.iter().map(|b| *b == 1).collect()
}

#[test]
fn parse_glider() {
    let s = Stamp::from_rle("bo$2bo$3o!");
    assert_eq!(s.width, 3);
    assert_eq!(s.height, 3);
    /*
        .#.
        ..#
        ###
    */
    let expected = vec![
        false, true, false,
        false, false, true,
        true, true, true,
    ];
    assert_eq!(s.cells, expected);
}

#[test]
fn parse_with_headers() {
    let rle = "\
        #N Glider\n\
        #O Richard K. Guy\n\
        x = 3, y = 3, rule = B3/S23\n\
        bo$2bo$3o!\n";
    let s = Stamp::from_rle(rle);
    assert_eq!(s.width, 3);
    assert_eq!(s.height, 3);
}

#[test]
fn rotation_preserves_area() {
    let s = Stamp::from_rle("3o$o2b$o!");
    let r = s.rotate_cw();
    assert_eq!(r.width, s.height);
    assert_eq!(r.height, s.width);
    assert_eq!(r.cells.len(), s.cells.len());
}

#[test]
fn all_patterns_parse() {
    for entry in patterns() {
        let s = Stamp::from_rle(entry.rle);
        assert!(s.width > 0 && s.height > 0, "failed to parse: {}", entry._name);
    }
}

#[test]
fn short_rows_are_padded_with_dead_cells() {
    let s = Stamp::from_rle("3o$o2b$o!");
    assert_eq!((s.width, s.height), (3, 3));
    assert_eq!(s.cells, bits(&[1, 1, 1, 1, 0, 0, 1, 0, 0]));
}

#[test]
fn text_after_the_terminator_is_ignored() {
    let s = Stamp::from_rle("3o$o2b$o!ooo");
    assert_eq!(s.cells, bits(&[1, 1, 1, 1, 0, 0, 1, 0, 0]));
}

#[test]
fn repeated_row_ends_make_empty_rows() {
    let s = Stamp::from_rle("2$o!");
    assert_eq!((s.width, s.height), (1, 3));
    assert_eq!(s.cells, bits(&[0, 0, 1]));
    let s = Stamp::from_rle("o3$o");
    assert_eq!((s.width, s.height), (1, 4));
    assert_eq!(s.cells, bits(&[1, 0, 0, 1]));
}

#[test]
fn only_empty_rows_give_zero_width() {
    let s = Stamp::from_rle("$$!");
    assert_eq!((s.width, s.height), (0, 2));
    assert!(s.cells.is_empty());
}

#[test]
fn empty_pattern_gives_empty_stamp() {
    let s = Stamp::from_rle("#C nothing here\nx = 0, y = 0\n!");
    assert_eq!((s.width, s.height), (0, 0));
    assert!(s.cells.is_empty());
}

#[test]
fn digits_accumulate_across_other_characters() {
    let s = Stamp::from_rle("1 2o!");
    assert_eq!((s.width, s.height), (12, 1));
    assert!(s.cells.iter().all(|c| *c));
}

#[test]
fn lines_are_trimmed_and_headers_skipped() {
    let s = Stamp::from_rle(" #C c\n x = 2\n\tob\r\n  bo  \n!");
    assert_eq!((s.width, s.height), (4, 1));
    assert_eq!(s.cells, bits(&[1, 0, 0, 1]));
}

#[test]
fn rows_continue_across_lines() {
    let s = Stamp::from_rle("b\no$\n2o!");
    assert_eq!((s.width, s.height), (2, 2));
    assert_eq!(s.cells, bits(&[0, 1, 1, 1]));
}

#[test]
fn try_from_rle_refuses_counts_beyond_u32() {
    assert!(Stamp::try_from_rle("4294967296o!").is_none());
    assert!(Stamp::try_from_rle("99999999999b!").is_none());
}

#[test]
fn try_from_rle_refuses_too_many_cells() {
    assert!(Stamp::try_from_rle("65536$65536b!").is_none());
}

#[test]
fn try_from_rle_accepts_what_fits() {
    let s = Stamp::try_from_rle("bo$2bo$3o!").unwrap();
    assert_eq!(s.cells, bits(&[0, 1, 0, 0, 0, 1, 1, 1, 1]));
    let s = Stamp::try_from_rle("2$4b!").unwrap();
    assert_eq!((s.width, s.height), (4, 3));
    assert_eq!(s.cells, vec![false; 12]);
}

#[test]
fn rotate_cw_turns_a_quarter_clockwise() {
    let s = Stamp::from_rle("3o$o!");
    assert_eq!((s.width, s.height), (3, 2));
    let r = s.rotate_cw();
    assert_eq!((r.width, r.height), (2, 3));
    assert_eq!(r.cells, bits(&[1, 1, 0, 1, 0, 1]));
    let r2 = r.rotate_cw();
    assert_eq!((r2.width, r2.height), (3, 2));
    assert_eq!(r2.cells, bits(&[0, 0, 1, 1, 1, 1]));
}

#[test]
fn four_turns_give_back_the_stamp() {
    let s = Stamp::from_rle("3o$o!");
    let r = s.rotate_cw().rotate_cw().rotate_cw().rotate_cw();
    assert_eq!((r.width, r.height), (s.width, s.height));
    assert_eq!(r.cells, s.cells);
}

#[test]
fn mirror_h_reverses_each_row() {
    let s = Stamp::from_rle("3o$o!");
    let m = s.mirror_h();
    assert_eq!((m.width, m.height), (3, 2));
    assert_eq!(m.cells, bits(&[1, 1, 1, 0, 0, 1]));
    let back = m.mirror_h();
    assert_eq!(back.cells, s.cells);
}

#[test]
fn transform_selects_the_eight_symmetries() {
    let s = Stamp::from_rle("3o$o!");
    let expected: [(u32, u32, [u8; 6]); 9] = [
        (3, 2, [1, 1, 1, 1, 0, 0]),
        (2, 3, [1, 1, 0, 1, 0, 1]),
        (3, 2, [0, 0, 1, 1, 1, 1]),
        (2, 3, [1, 0, 1, 0, 1, 1]),
        (3, 2, [1, 1, 1, 0, 0, 1]),
        (2, 3, [0, 1, 0, 1, 1, 1]),
        (3, 2, [1, 0, 0, 1, 1, 1]),
        (2, 3, [1, 1, 1, 0, 1, 0]),
        (3, 2, [1, 1, 1, 0, 0, 1]),
    ];
    for (r, (w, h, cells)) in expected.iter().enumerate() {
        let t = s.transform(r as u8);
        assert_eq!((t.width, t.height), (*w, *h), "r = {}", r);
        assert_eq!(t.cells, bits(cells), "r = {}", r);
    }
}

#[test]
fn transform_of_empty_stamp_is_empty() {
    let s = Stamp::from_rle("!");
    let t = s.transform(5);
    assert_eq!((t.width, t.height), (0, 0));
    assert!(t.cells.is_empty());
}

#[test]
fn glider_pattern_decodes_to_the_glider() {
    let table = patterns();
    let s = Stamp::from_rle(table[0].rle);
    assert_eq!(s.cells, bits(&[0, 1, 0, 0, 0, 1, 1, 1, 1]));
}

fn stamp(width: u32, height: u32, cells: &[u8]) -> Stamp {
    Stamp { width, height, cells: bits(cells) }
}

#[test]
fn rotate_cw_ignores_trailing_cells() {
    let s = stamp(3, 2, &[1, 1, 1, 1, 0, 0, 1, 0]);
    let r = s.rotate_cw();
    assert_eq!((r.width, r.height), (2, 3));
    assert_eq!(r.cells, bits(&[1, 1, 0, 1, 0, 1]));
}

#[test]
fn mirror_h_keeps_trailing_cells() {
    let s = stamp(3, 2, &[1, 1, 1, 1, 0, 0, 1, 0]);
    let m = s.mirror_h();
    assert_eq!((m.width, m.height), (3, 2));
    assert_eq!(m.cells, bits(&[1, 1, 1, 0, 0, 1, 1, 0]));
}

#[test]
fn transform_zero_copies_and_four_mirrors_trailing_cells() {
    let s = stamp(3, 2, &[1, 1, 1, 1, 0, 0, 1, 0]);
    assert_eq!(s.transform(0).cells, s.cells);
    assert_eq!(s.transform(4).cells, bits(&[1, 1, 1, 0, 0, 1, 1, 0]));
    assert_eq!(s.transform(1).cells, bits(&[1, 1, 0, 1, 0, 1]));
}

#[test]
fn turn_mirror_turn_is_a_mirror() {
    let s = Stamp::from_rle("3o$o!");
    let a = s.rotate_cw().mirror_h().rotate_cw();
    let b = s.mirror_h();
    assert_eq!((a.width, a.height), (b.width, b.height));
    assert_eq!(a.cells, b.cells);
}

#[test]
fn each_transform_is_undone_by_its_inverse() {
    let s = Stamp::from_rle("2bo$o$3o!");
    for r in 0u8..8 {
        let r2 = if r < 4 { (4 - r) % 4 } else { r };
        let t = s.transform(r).transform(r2);
        assert_eq!((t.width, t.height), (s.width, s.height), "r = {}", r);
        assert_eq!(t.cells, s.cells, "r = {}", r);
    }
}

#[test]
fn line_breaks_and_padding_do_not_matter() {
    let a = Stamp::from_rle("bo$2bo$3o!");
    let b = Stamp::from_rle("  b\no$2  \n\tbo$3o \n!");
    assert_eq!((a.width, a.height), (b.width, b.height));
    assert_eq!(a.cells, b.cells);
}

#[test]
fn nothing_after_the_terminator_is_read() {
    let a = Stamp::from_rle("bo$2bo$3o");
    let b = Stamp::from_rle("bo$2bo$3o!\n5o$$x\n#junk 99o");
    assert_eq!((a.width, a.height), (b.width, b.height));
    assert_eq!(a.cells, b.cells);
}
