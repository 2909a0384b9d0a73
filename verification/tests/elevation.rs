use worldgen::elevation::{coast_distance, CORNER, EDGE, FAR};

#[test]
fn land_lies_at_distance_zero() {
    let land = vec![true; 12];
    assert_eq!(coast_distance(&land, 4, 3), vec![0u64; 12]);
}

#[test]
fn a_world_without_land_is_far_everywhere() {
    let land = vec![false; 12];
    assert_eq!(coast_distance(&land, 4, 3), vec![FAR; 12]);
}

#[test]
fn distances_count_edges_and_corners() {
    // 7 by 5 with one land cell in the middle of the top row
    let w = 7;
    let h = 5;
    let mut land = vec![false; w * h];
    land[3] = true;
    let d = coast_distance(&land, w, h);
    assert_eq!(d[3], 0);
    assert_eq!(d[2], EDGE);
    assert_eq!(d[4], EDGE);
    assert_eq!(d[w + 3], EDGE);
    assert_eq!(d[w + 2], CORNER);
    assert_eq!(d[w + 4], CORNER);
    assert_eq!(d[2 * w + 3], 2 * EDGE);
    assert_eq!(d[2 * w + 1], 2 * CORNER);
    assert_eq!(d[2 * w + 2], CORNER + EDGE);
    assert_eq!(d[4 * w + 3], 4 * EDGE);
}

#[test]
fn the_coast_is_near_across_the_seam() {
    // land in the west column only: the east column touches it across the seam
    let w = 6;
    let h = 4;
    let land: Vec<bool> = (0..w * h).map(|i| i % w == 0).collect();
    let d = coast_distance(&land, w, h);
    for y in 0..h {
        assert_eq!(d[y * w], 0);
        assert_eq!(d[y * w + 1], EDGE);
        assert_eq!(d[y * w + w - 1], EDGE);
        assert_eq!(d[y * w + 2], 2 * EDGE);
        assert_eq!(d[y * w + 3], 3 * EDGE);
    }
}

#[test]
fn sea_cells_that_touch_land_are_one_step_away() {
    let w = 9;
    let h = 7;
    let mut land = vec![false; w * h];
    let mut state = 31u64;
    for cell in land.iter_mut() {
        state = worldgen::rng::splitmix64(state);
        *cell = state % 7 == 0;
    }
    let d = coast_distance(&land, w, h);
    for i in 0..w * h {
        if land[i] {
            assert_eq!(d[i], 0);
            continue;
        }
        assert!(d[i] >= EDGE);
        for dir in 0..8u8 {
            if let Some(n) = worldgen::grid::neighbor_of(i, dir, w, h) {
                if land[n] {
                    let step = if dir == 0 || dir == 2 || dir == 5 || dir == 7 { CORNER } else { EDGE };
                    assert!(d[i] <= step);
                }
            }
        }
    }
}

#[test]
fn smoothing_leaves_a_level_field_level() {
    let w = 7;
    let h = 5;
    let mut data = vec![123_456i64; w * h];
    // weights 0.5, 0.2, 0.05 add up to one
    worldgen::elevation::blur_grid(&mut data, w, h, &vec![32768, 13107, 3277]);
    assert_eq!(data, vec![123_456i64; w * h]);
}

#[test]
fn smoothing_with_a_single_weight_scales() {
    let mut data: Vec<i64> = vec![65536, -65536, 100, 0, 7, -7];
    worldgen::elevation::blur_grid(&mut data, 3, 2, &vec![32768]);
    // each pass halves, rounding down
    assert_eq!(data, vec![16384, -16384, 25, 0, 1, -2]);
}

#[test]
fn smoothing_spreads_a_peak_round_the_seam() {
    let w = 6;
    let h = 1;
    let mut data = vec![0i64; w];
    data[0] = 65536;
    // one row: the pass along the columns sees the same cell three times
    worldgen::elevation::blur_grid(&mut data, w, h, &vec![32768, 16384]);
    // along the row: 0.5 at the peak, 0.25 either side, the west side across the seam
    assert_eq!(data, vec![32768, 16384, 0, 0, 0, 16384]);
}

#[test]
fn smoothing_holds_rows_at_the_poles() {
    let w = 1;
    let h = 4;
    let mut data: Vec<i64> = vec![4096, 0, 0, 0];
    worldgen::elevation::blur_grid(&mut data, w, h, &vec![32768, 16384]);
    // along the row of one column every neighbour is the cell itself: the value stays;
    // along the column the top row counts itself for its missing northern neighbour
    assert_eq!(data, vec![3072, 1024, 0, 0]);
}
