use worldgen::grid::{neighbor_of, neighbors4_wrap, neighbors8_wrap, wrap_x, wrap_xy, Grid};

#[test]
fn new_grid_holds_defaults() {
    let g: Grid<u16> = Grid::new(4, 3);
    assert_eq!(g.w, 4);
    assert_eq!(g.h, 3);
    assert_eq!(g.data, vec![0u16; 12]);
    let e: Grid<u8> = Grid::new(0, 5);
    assert!(e.data.is_empty());
}

#[test]
fn filled_grid_holds_the_value() {
    let g: Grid<u16> = Grid::filled(3, 2, 0xFFFF);
    assert_eq!(g.data, vec![0xFFFFu16; 6]);
}

#[test]
fn idx_is_row_major() {
    let g: Grid<u8> = Grid::new(5, 4);
    assert_eq!(g.idx(0, 0), 0);
    assert_eq!(g.idx(4, 0), 4);
    assert_eq!(g.idx(0, 1), 5);
    assert_eq!(g.idx(3, 2), 13);
    assert_eq!(g.idx(4, 3), 19);
}

#[test]
fn set_then_get() {
    let mut g: Grid<i32> = Grid::new(3, 3);
    g.set(1, 2, 77);
    assert_eq!(g.get(1, 2), 77);
    assert_eq!(g.get(2, 1), 0);
    assert_eq!(g.data[7], 77);
    let changed = g.data.iter().filter(|v| **v != 0).count();
    assert_eq!(changed, 1);
}

#[test]
fn wrap_x_is_euclidean() {
    assert_eq!(wrap_x(0, 8), 0);
    assert_eq!(wrap_x(7, 8), 7);
    assert_eq!(wrap_x(8, 8), 0);
    assert_eq!(wrap_x(-1, 8), 7);
    assert_eq!(wrap_x(-8, 8), 0);
    assert_eq!(wrap_x(-9, 8), 7);
    assert_eq!(wrap_x(-17, 5), 3);
    assert_eq!(wrap_x(23, 5), 3);
    assert_eq!(wrap_x(-3, 1), 0);
}

#[test]
fn wrap_xy_wraps_columns_and_stops_at_poles() {
    assert_eq!(wrap_xy(-1, 0, 10, 5), Some((9, 0)));
    assert_eq!(wrap_xy(10, 4, 10, 5), Some((0, 4)));
    assert_eq!(wrap_xy(3, 2, 10, 5), Some((3, 2)));
    assert_eq!(wrap_xy(3, -1, 10, 5), None);
    assert_eq!(wrap_xy(3, 5, 10, 5), None);
    assert_eq!(wrap_xy(-21, 1, 10, 5), Some((9, 1)));
}

#[test]
fn neighbors4_in_the_interior() {
    assert_eq!(neighbors4_wrap(2, 2, 5, 5), vec![(1, 2), (3, 2), (2, 1), (2, 3)]);
}

#[test]
fn neighbors4_across_the_seam_and_at_a_pole() {
    assert_eq!(neighbors4_wrap(0, 0, 5, 5), vec![(4, 0), (1, 0), (0, 1)]);
    assert_eq!(neighbors4_wrap(4, 4, 5, 5), vec![(3, 4), (0, 4), (4, 3)]);
}

#[test]
fn neighbors8_in_the_interior() {
    assert_eq!(
        neighbors8_wrap(2, 2, 5, 5),
        vec![(1, 1), (2, 1), (3, 1), (1, 2), (3, 2), (1, 3), (2, 3), (3, 3)]
    );
}

#[test]
fn neighbors8_across_the_seam_and_at_a_pole() {
    assert_eq!(
        neighbors8_wrap(0, 0, 4, 3),
        vec![(3, 0), (1, 0), (3, 1), (0, 1), (1, 1)]
    );
    assert_eq!(
        neighbors8_wrap(3, 2, 4, 3),
        vec![(2, 1), (3, 1), (0, 1), (2, 2), (0, 2)]
    );
}

#[test]
fn seam_neighbours_are_mutual() {
    let w = 6;
    let h = 4;
    for y in 0..h {
        assert!(neighbors8_wrap(0, y, w, h).contains(&(w - 1, y)));
        assert!(neighbors8_wrap(w - 1, y, w, h).contains(&(0, y)));
    }
}

#[test]
fn single_row_grid_has_two_neighbours() {
    assert_eq!(neighbors8_wrap(1, 0, 3, 1), vec![(0, 0), (2, 0)]);
    assert_eq!(neighbors4_wrap(0, 0, 1, 1), vec![(0, 0), (0, 0)]);
}

#[test]
fn neighbor_of_follows_the_eight_directions() {
    // cell (1, 1) of a 4 by 3 grid
    let i = 5;
    let got: Vec<Option<usize>> = (0..8u8).map(|d| neighbor_of(i, d, 4, 3)).collect();
    assert_eq!(
        got,
        vec![Some(0), Some(1), Some(2), Some(4), Some(6), Some(8), Some(9), Some(10)]
    );
    assert_eq!(neighbor_of(i, 8, 4, 3), None);
    assert_eq!(neighbor_of(i, 255, 4, 3), None);
    // top-left corner: north is beyond the pole, west wraps
    assert_eq!(neighbor_of(0, 1, 4, 3), None);
    assert_eq!(neighbor_of(0, 3, 4, 3), Some(3));
    assert_eq!(neighbor_of(0, 5, 4, 3), Some(7));
}
