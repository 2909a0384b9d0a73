use worldgen::grid::Grid;
use worldgen::render::{render_boundaries, render_plates};
use worldgen::rng::splitmix32;

fn grid_u8(w: usize, h: usize, v: &[u8]) -> Grid<u8> {
    let mut g: Grid<u8> = Grid::new(w, h);
    g.data.copy_from_slice(v);
    g
}

fn grid_u16(w: usize, h: usize, v: &[u16]) -> Grid<u16> {
    let mut g: Grid<u16> = Grid::new(w, h);
    g.data.copy_from_slice(v);
    g
}

#[test]
fn boundaries_are_coloured_by_kind() {
    let bt = grid_u8(4, 2, &[0, 1, 2, 3, 0, 1, 2, 3]);
    let major = grid_u8(4, 2, &[0, 0, 0, 0, 1, 1, 1, 1]);
    let rgba = render_boundaries(&bt, &major);
    let expected: Vec<u8> = vec![
        20, 20, 20, 255, 120, 40, 40, 255, 40, 50, 120, 255, 40, 100, 50, 255, 20, 20, 20, 255, 220,
        50, 50, 255, 50, 80, 220, 255, 50, 200, 80, 255,
    ];
    assert_eq!(rgba, expected);
}

#[test]
fn unknown_kinds_are_drawn_as_interior() {
    let bt = grid_u8(2, 1, &[7, 255]);
    let major = grid_u8(2, 1, &[1, 0]);
    assert_eq!(render_boundaries(&bt, &major), vec![20, 20, 20, 255, 20, 20, 20, 255]);
}

#[test]
fn plate_boundaries_are_white_and_grey() {
    let ids = grid_u16(2, 1, &[0, 0]);
    let bt = grid_u8(2, 1, &[1, 3]);
    let major = grid_u8(2, 1, &[1, 0]);
    let rgba = render_plates(&ids, &bt, &major, &vec![0], 1);
    assert_eq!(rgba, vec![255, 255, 255, 255, 140, 140, 140, 255]);
}

#[test]
fn plates_take_the_colour_of_their_macroplate() {
    let ids = grid_u16(3, 1, &[0, 1, 2]);
    let bt = grid_u8(3, 1, &[0, 0, 0]);
    let major = grid_u8(3, 1, &[0, 0, 0]);
    let macro_id: Vec<usize> = vec![1, 0, 1];
    let rgba = render_plates(&ids, &bt, &major, &macro_id, 2);
    assert_eq!(rgba.len(), 12);
    for (cell, pid) in [0u32, 1, 2].iter().enumerate() {
        let hash = splitmix32(macro_id[*pid as usize] as u32 * 7 + 123);
        let shade = (splitmix32(pid * 13 + 7) & 0x1F) as i32 - 16;
        for c in 0..3 {
            let base = (((hash >> (8 * c)) & 0xFF) as u8 | 60) as i32;
            assert!(base >= 60);
            assert_eq!(rgba[cell * 4 + c] as i32, (base + shade).clamp(0, 255));
        }
        assert_eq!(rgba[cell * 4 + 3], 255);
    }
}

#[test]
fn cells_that_name_no_plate_are_mid_grey() {
    let ids = grid_u16(2, 1, &[5, 0]);
    let bt = grid_u8(2, 1, &[0, 0]);
    let major = grid_u8(2, 1, &[0, 0]);
    // plate 5 is not listed; plate 0 names macroplate 3 of 2
    let rgba = render_plates(&ids, &bt, &major, &vec![3], 2);
    assert_eq!(rgba, vec![128, 128, 128, 255, 128, 128, 128, 255]);
}
