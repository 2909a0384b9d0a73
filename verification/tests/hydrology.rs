use worldgen::grid::Grid;
use worldgen::hydrology::{
    cell_flow_direction, compute_flow_direction, downsample_max, flow_accumulation, hydro_scale,
    upscale_nearest, NO_FLOW,
};

#[test]
fn hydro_scale_picks_the_largest_factor_that_fits() {
    assert_eq!(hydro_scale(256, 128), 8);
    assert_eq!(hydro_scale(2048, 1024), 8);
    assert_eq!(hydro_scale(2000, 2000), 8);
    // 4096 * 2048 * 25 = 209_715_200 fits, times 36 does not
    assert_eq!(hydro_scale(4096, 2048), 5);
    assert_eq!(hydro_scale(8192, 4096), 2);
    assert_eq!(hydro_scale(16000, 16000), 1);
}

#[test]
fn hydro_scale_at_the_budget_edge() {
    // 4_000_000 cells: 64 times that is exactly the budget
    assert_eq!(hydro_scale(2000, 2000), 8);
    assert_eq!(hydro_scale(2001, 2000), 7);
    assert_eq!(hydro_scale(16000, 16000), 1);
    assert_eq!(hydro_scale(16001, 16000), 1);
}

#[test]
fn hydro_scale_falls_back_to_one() {
    assert_eq!(hydro_scale(100_000, 100_000), 1);
    assert_eq!(hydro_scale(usize::MAX, usize::MAX), 1);
    assert_eq!(hydro_scale(0, 0), 8);
}

#[test]
fn flow_direction_on_a_slope() {
    // 3 by 3, falling to the east within each row
    let elev: Vec<i32> = vec![30, 20, 10, 30, 20, 10, 30, 20, 10];
    // centre: east (10) is lower by 10; corners north-east and south-east also 10 but diagonal
    assert_eq!(cell_flow_direction(&elev, 4, 3, 3), 4);
    // east column: the wrap makes the west column its eastern neighbour, which is higher
    assert_eq!(cell_flow_direction(&elev, 5, 3, 3), NO_FLOW);
    // west column: west neighbour across the seam is the low east column, drop 20
    assert_eq!(cell_flow_direction(&elev, 3, 3, 3), 3);
}

#[test]
fn flow_direction_prefers_steeper_diagonal() {
    // centre 100; east 90 (drop 10 over 1); south-east 80 (drop 20 over sqrt 2 = 14.1)
    let elev: Vec<i32> = vec![100, 100, 100, 100, 100, 90, 100, 100, 80];
    assert_eq!(cell_flow_direction(&elev, 4, 3, 3), 7);
    // south-east 86: drop 14 over sqrt 2 = 9.9 is less steep than 10 over 1
    let elev2: Vec<i32> = vec![100, 100, 100, 100, 100, 90, 100, 100, 86];
    assert_eq!(cell_flow_direction(&elev2, 4, 3, 3), 4);
    // south-east 85: drop 15 over sqrt 2 = 10.6 is steeper
    let elev3: Vec<i32> = vec![100, 100, 100, 100, 100, 90, 100, 100, 85];
    assert_eq!(cell_flow_direction(&elev3, 4, 3, 3), 7);
}

#[test]
fn flow_direction_takes_the_first_of_equals() {
    let elev: Vec<i32> = vec![5, 1, 5, 1, 9, 1, 5, 1, 5];
    // north, west, east and south all drop by 8: north comes first
    assert_eq!(cell_flow_direction(&elev, 4, 3, 3), 1);
}

#[test]
fn flat_field_has_no_flow() {
    let elev: Vec<i32> = vec![7; 12];
    assert_eq!(compute_flow_direction(&elev, 4, 3), vec![NO_FLOW; 12]);
}

#[test]
fn flow_direction_handles_extreme_heights() {
    let elev: Vec<i32> = vec![i32::MAX, i32::MIN, i32::MAX, i32::MAX];
    let dirs = compute_flow_direction(&elev, 2, 2);
    assert_eq!(dirs[0], 3);
    assert_eq!(dirs[1], NO_FLOW);
}

#[test]
fn flow_accumulates_down_a_chain() {
    // one row of four cells, wrap included; heights fall to the east, the
    // last cell is the lowest and drains nowhere
    let elev: Vec<i32> = vec![40, 30, 20, 10];
    let dirs = compute_flow_direction(&elev, 4, 1);
    assert_eq!(dirs, vec![3, 4, 4, NO_FLOW]);
    let rain: Vec<u64> = vec![1, 2, 3, 4];
    let order: Vec<u32> = vec![0, 1, 2, 3];
    let flow = flow_accumulation(&dirs, &rain, &order, 4, 1);
    // cell 0 drains west across the seam into cell 3
    assert_eq!(flow, vec![1, 2, 5, 10]);
}

#[test]
fn flow_never_shrinks_downstream() {
    let w = 5;
    let h = 4;
    let elev: Vec<i32> = vec![
        90, 80, 70, 60, 95, 85, 75, 65, 55, 92, 80, 70, 60, 50, 88, 75, 65, 55, 45, 85,
    ];
    let dirs = compute_flow_direction(&elev, w, h);
    let mut order: Vec<u32> = (0..(w * h) as u32).collect();
    order.sort_by(|a, b| elev[*b as usize].cmp(&elev[*a as usize]));
    let rain: Vec<u64> = (1..=(w * h) as u64).collect();
    let flow = flow_accumulation(&dirs, &rain, &order, w, h);
    for i in 0..w * h {
        if let Some(n) = worldgen::grid::neighbor_of(i, dirs[i], w, h) {
            assert!(flow[i] <= flow[n]);
        }
    }
    let sinks: u64 = (0..w * h).filter(|i| dirs[*i] == NO_FLOW).map(|i| flow[i]).sum();
    assert_eq!(sinks, rain.iter().sum::<u64>());
}

#[test]
fn flow_sum_is_held_at_the_top() {
    let dirs: Vec<u8> = vec![4, NO_FLOW];
    let rain: Vec<u64> = vec![u64::MAX - 1, 5];
    let flow = flow_accumulation(&dirs, &rain, &vec![0], 2, 1);
    assert_eq!(flow, vec![u64::MAX - 1, u64::MAX]);
}

#[test]
fn downsample_takes_block_maxima() {
    // 4 by 4 down to 2 by 2
    let flow: Vec<u64> = vec![1, 2, 3, 4, 5, 6, 7, 8, 9, 10, 11, 12, 13, 14, 15, 16];
    assert_eq!(downsample_max(&flow, 4, 4, 2), vec![6, 8, 14, 16]);
    let flow2: Vec<u64> = vec![9, 0, 0, 0, 0, 0, 0, 7, 0, 3, 0, 0, 0, 0, 0, 0];
    assert_eq!(downsample_max(&flow2, 4, 4, 2), vec![9, 7, 3, 0]);
    assert_eq!(downsample_max(&flow, 4, 4, 1), flow);
    assert_eq!(downsample_max(&flow, 4, 4, 4), vec![16]);
}

#[test]
fn upscale_repeats_each_cell() {
    let mut g: Grid<u8> = Grid::new(2, 2);
    g.set(0, 0, 1);
    g.set(1, 0, 2);
    g.set(0, 1, 3);
    g.set(1, 1, 4);
    let up = upscale_nearest(&g, 2);
    assert_eq!(up.w, 4);
    assert_eq!(up.h, 4);
    assert_eq!(up.data, vec![1, 1, 2, 2, 1, 1, 2, 2, 3, 3, 4, 4, 3, 3, 4, 4]);
    let same = upscale_nearest(&g, 1);
    assert_eq!(same.data, g.data);
}

fn lower_neighbour_exists(elev: &[i32], i: usize, w: usize, h: usize) -> bool {
    (0..8u8).any(|d| match worldgen::grid::neighbor_of(i, d, w, h) {
        Some(m) => elev[m] < elev[i],
        None => false,
    })
}

#[test]
fn flood_fills_a_pit() {
    // 5 by 5: sea on the west column, a bowl inland
    let w = 5;
    let h = 5;
    let mut elev: Vec<i32> = vec![
        -10, 50, 50, 50, 50,
        -10, 50, 40, 40, 50,
        -10, 50, 40,  5, 50,
        -10, 50, 40, 40, 50,
        -10, 50, 50, 50, 50,
    ];
    let before = elev.clone();
    worldgen::hydrology::flood::priority_flood(&mut elev, w, h);
    for i in 0..w * h {
        assert!(elev[i] >= before[i]);
        if before[i] <= 0 {
            assert_eq!(elev[i], before[i]);
        }
    }
    // whatever was raised stands one unit above a neighbour
    for i in 0..w * h {
        if elev[i] > before[i] {
            let on_a_neighbour = (0..8u8).any(|d| match worldgen::grid::neighbor_of(i, d, w, h) {
                Some(m) => elev[i] == elev[m] + 1,
                None => false,
            });
            assert!(on_a_neighbour);
        }
    }
    // the rim next to the sea is the outlet at 50, reached from the sea
    assert_eq!(elev[2 * w + 1], 50);
    // the bowl is filled just above the rim; its deepest cell lies next to the east
    // rim, which borders the sea across the seam
    assert_eq!(elev[2 * w + 2], 51);
    assert_eq!(elev[2 * w + 3], 51);
    for y in 1..h - 1 {
        for x in 0..w {
            let i = y * w + x;
            if before[i] > 0 {
                assert!(lower_neighbour_exists(&elev, i, w, h));
            }
        }
    }
}

#[test]
fn flood_leaves_a_plain_slope_alone() {
    let w = 4;
    let h = 3;
    let mut elev: Vec<i32> = vec![-5, 10, 20, 30, -5, 10, 20, 30, -5, 10, 20, 30];
    let before = elev.clone();
    worldgen::hydrology::flood::priority_flood(&mut elev, w, h);
    // the east column borders the sea across the seam: nothing needs filling
    assert_eq!(elev, before);
}

#[test]
fn flood_tilts_a_flat_plateau() {
    let w = 6;
    let h = 5;
    let mut elev: Vec<i32> = vec![100; w * h];
    for y in 0..h {
        elev[y * w] = 0;
    }
    worldgen::hydrology::flood::priority_flood(&mut elev, w, h);
    for y in 1..h - 1 {
        for x in 1..w {
            assert!(lower_neighbour_exists(&elev, y * w + x, w, h));
        }
    }
    let dirs = compute_flow_direction(&elev, w, h);
    for y in 1..h - 1 {
        for x in 1..w {
            assert_ne!(dirs[y * w + x], NO_FLOW);
        }
    }
}

#[test]
fn flood_of_a_world_without_sea_drains_to_the_poles() {
    let w = 4;
    let h = 5;
    let mut elev: Vec<i32> = vec![7; w * h];
    elev[2 * w + 1] = 1;
    worldgen::hydrology::flood::priority_flood(&mut elev, w, h);
    for y in 1..h - 1 {
        for x in 0..w {
            assert!(lower_neighbour_exists(&elev, y * w + x, w, h));
        }
    }
    // polar rows are the outlets and keep their height
    for x in 0..w {
        assert_eq!(elev[x], 7);
        assert_eq!(elev[(h - 1) * w + x], 7);
    }
    assert_eq!(elev[2 * w + 1], 9);
}

#[test]
fn every_cell_is_filled_to_its_lowest_outlet_and_no_further() {
    let w = 11;
    let h = 9;
    let mut elev: Vec<i32> = Vec::new();
    let mut state = 404u64;
    for i in 0..w * h {
        state = worldgen::rng::splitmix64(state);
        let x = i % w;
        elev.push(if x < 2 { -(10 + (state % 50) as i32) } else { 1 + (state % 300) as i32 });
    }
    let before = elev.clone();
    worldgen::hydrology::flood::priority_flood(&mut elev, w, h);
    // the least level at which every cell drains: from the sea and the polar rows
    // inland, each cell at its own height or one unit above the cell before
    let mut level = vec![i64::MAX; w * h];
    for i in 0..w * h {
        let y = i / w;
        if before[i] <= 0 || y == 0 || y == h - 1 {
            level[i] = before[i] as i64;
        }
    }
    let mut changed = true;
    while changed {
        changed = false;
        for i in 0..w * h {
            if level[i] == i64::MAX {
                continue;
            }
            for d in 0..8u8 {
                if let Some(m) = worldgen::grid::neighbor_of(i, d, w, h) {
                    let on = (before[m] as i64).max(level[i] + 1);
                    if on < level[m] {
                        level[m] = on;
                        changed = true;
                    }
                }
            }
        }
    }
    for i in 0..w * h {
        assert_eq!(elev[i] as i64, level[i]);
    }
}
