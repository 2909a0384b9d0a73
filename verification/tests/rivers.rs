use worldgen::hydrology::rivers::{
    apply_threshold, extend_rivers, flow_threshold, label_components,
};
use worldgen::hydrology::{argsort_descending, compute_hydrology, draw_rivers, route_flow, NO_FLOW};

#[test]
fn dry_world_has_no_threshold() {
    assert_eq!(flow_threshold(&vec![0u64; 500], 10_000), None);
    assert_eq!(flow_threshold(&vec![], 1_000_000), None);
}

#[test]
fn a_small_world_has_a_threshold_too() {
    // three wet cells: with all kept the least flow, with half kept the middle one
    let flows: Vec<u64> = vec![0, 7, 0, 3, 9];
    assert_eq!(flow_threshold(&flows, 1_000_000), Some(3));
    assert_eq!(flow_threshold(&flows, 500_000), Some(7));
    assert_eq!(flow_threshold(&flows, 1), Some(9));
    assert_eq!(flow_threshold(&vec![5], 1_000_000), Some(5));
}

#[test]
fn nothing_kept_gives_no_threshold() {
    let flows: Vec<u64> = (1..=500u64).collect();
    assert_eq!(flow_threshold(&flows, 0), None);
    assert_eq!(flow_threshold(&vec![4], 0), None);
}

#[test]
fn threshold_is_the_flow_at_its_rank() {
    // 200 wet cells with flows 1..=200 in scrambled order, and some dry ones
    let mut flows: Vec<u64> = Vec::new();
    for i in 0..200u64 {
        flows.push((i * 73) % 200 + 1);
        if i % 3 == 0 {
            flows.push(0);
        }
    }
    // top 1 %: rank 0.99 * 200 = 198, the second largest
    assert_eq!(flow_threshold(&flows, 10_000), Some(199));
    // top 50 %: rank 100
    assert_eq!(flow_threshold(&flows, 500_000), Some(101));
    // everything: rank 0, the least wet flow
    assert_eq!(flow_threshold(&flows, 1_000_000), Some(1));
    // nothing: the rank lies past the last place
    assert_eq!(flow_threshold(&flows, 0), None);
}

#[test]
fn threshold_rank_rounds_down() {
    let flows: Vec<u64> = (1..=101u64).collect();
    // 0.5 * 101 = 50.5, rank 50
    assert_eq!(flow_threshold(&flows, 500_000), Some(51));
    // 0.999999 * 101 = 100.9, rank 100
    assert_eq!(flow_threshold(&flows, 1), Some(101));
}

#[test]
fn apply_threshold_zeroes_the_small_flows() {
    let mut flows: Vec<u64> = vec![5, 0, 10, 9, 11, 10];
    apply_threshold(&mut flows, Some(10));
    assert_eq!(flows, vec![0, 0, 10, 0, 11, 10]);
    let mut all: Vec<u64> = vec![5, 0, 10];
    apply_threshold(&mut all, None);
    assert_eq!(all, vec![0, 0, 0]);
}

#[test]
fn river_systems_are_labelled_in_store_order() {
    // 6 by 4; R marks river cells
    //   R . . R . .
    //   . R . . . .
    //   . . . . R R
    //   . . . . . .
    let w = 6;
    let h = 4;
    let mut flows = vec![0u64; w * h];
    for i in [0usize, 3, 7, 16, 17] {
        flows[i] = 9;
    }
    let (labels, sizes) = label_components(&flows, w, h);
    // cell 0 and cell 7 touch by a corner; cell 3 stands alone; 16 and 17 touch
    assert_eq!(labels[0], 1);
    assert_eq!(labels[7], 1);
    assert_eq!(labels[3], 2);
    assert_eq!(labels[16], 3);
    assert_eq!(labels[17], 3);
    assert_eq!(sizes, vec![0, 2, 1, 2]);
    assert_eq!(labels.iter().filter(|l| **l == 0).count(), w * h - 5);
}

#[test]
fn river_systems_hang_together_across_the_seam() {
    let w = 5;
    let h = 3;
    let mut flows = vec![0u64; w * h];
    flows[5] = 1; // (0, 1)
    flows[9] = 1; // (4, 1)
    flows[3] = 1; // (3, 0), corner neighbour of (4, 1)
    let (labels, sizes) = label_components(&flows, w, h);
    assert_eq!(sizes, vec![0, 3]);
    assert_eq!((labels[3], labels[5], labels[9]), (1, 1, 1));
}

#[test]
fn no_rivers_no_labels() {
    let (labels, sizes) = label_components(&vec![0u64; 12], 4, 3);
    assert_eq!(labels, vec![0u32; 12]);
    assert_eq!(sizes, vec![0]);
}

#[test]
fn rivers_grow_by_half_their_size_at_most() {
    // one row of ten cells that does not close into a short ring; a river of two
    // cells, all other cells wet enough to join
    let w = 10;
    let h = 1;
    let raw: Vec<u64> = vec![3, 3, 3, 50, 60, 3, 3, 3, 3, 3];
    let mut river: Vec<u64> = raw.clone();
    apply_threshold(&mut river, Some(50));
    let (mut labels, sizes) = label_components(&river, w, h);
    assert_eq!(sizes, vec![0, 2]);
    let added = extend_rivers(&mut river, &mut labels, &raw, &sizes, 3, w, h);
    // half of two is one cell: the first dry cell in store order that touches the river
    assert_eq!(added, vec![0, 1]);
    assert_eq!(river, vec![0, 0, 3, 50, 60, 0, 0, 0, 0, 0]);
    assert_eq!(labels, vec![0, 0, 1, 1, 1, 0, 0, 0, 0, 0]);
}

#[test]
fn rivers_do_not_grow_into_cells_with_too_little_flow() {
    let w = 8;
    let h = 1;
    let raw: Vec<u64> = vec![0, 1, 2, 40, 40, 40, 40, 1];
    let mut river: Vec<u64> = raw.clone();
    apply_threshold(&mut river, Some(40));
    let (mut labels, sizes) = label_components(&river, w, h);
    assert_eq!(sizes, vec![0, 4]);
    let added = extend_rivers(&mut river, &mut labels, &raw, &sizes, 2, w, h);
    // cell 2 carries 2 and joins; cell 7 carries 1 and does not; cell 1 then touches the
    // river but carries too little as well
    assert_eq!(added, vec![0, 1]);
    assert_eq!(river, vec![0, 0, 2, 40, 40, 40, 40, 0]);
}

#[test]
fn growth_runs_on_within_one_sweep() {
    let w = 12;
    let h = 1;
    let mut raw: Vec<u64> = vec![5; 12];
    for f in raw.iter_mut().take(6) {
        *f = 100;
    }
    raw[11] = 0;
    raw[10] = 0;
    let mut river: Vec<u64> = raw.clone();
    apply_threshold(&mut river, Some(100));
    let (mut labels, sizes) = label_components(&river, w, h);
    assert_eq!(sizes, vec![0, 6]);
    let added = extend_rivers(&mut river, &mut labels, &raw, &sizes, 5, w, h);
    // the cap is three cells; cells 6, 7, 8 join one after the other in the first sweep
    assert_eq!(added, vec![0, 3]);
    assert_eq!(river, vec![100, 100, 100, 100, 100, 100, 5, 5, 5, 0, 0, 0]);
}

#[test]
fn argsort_runs_from_the_highest_cell_down() {
    let elev: Vec<i32> = vec![5, -3, 40, 12, 0, 39];
    assert_eq!(argsort_descending(&elev), vec![2, 5, 3, 0, 4, 1]);
    let order = argsort_descending(&vec![7, 7, 7, 7]);
    let mut seen = order.clone();
    seen.sort();
    assert_eq!(seen, vec![0, 1, 2, 3]);
    assert!(argsort_descending(&vec![]).is_empty());
}

#[test]
fn routing_carries_all_rain_to_the_outlets() {
    let w = 6;
    let h = 5;
    let mut elev: Vec<i32> = Vec::new();
    let mut state = 99u64;
    for i in 0..w * h {
        state = worldgen::rng::splitmix64(state);
        let x = i % w;
        elev.push(if x == 0 { -100 } else { 10 + (state % 500) as i32 });
    }
    let before = elev.clone();
    let rain: Vec<u64> = vec![10; w * h];
    let r = route_flow(&mut elev, &rain, w, h);
    for i in 0..w * h {
        assert!(elev[i] >= before[i]);
        match worldgen::grid::neighbor_of(i, r.dirs[i], w, h) {
            Some(m) => {
                assert!(elev[m] < elev[i]);
                assert!(r.flow[i] <= r.flow[m]);
            }
            None => assert_eq!(r.dirs[i], NO_FLOW),
        }
    }
    // every land cell between the polar rows drains somewhere
    for y in 1..h - 1 {
        for x in 1..w {
            assert_ne!(r.dirs[y * w + x], NO_FLOW);
        }
    }
    let at_sinks: u64 = (0..w * h).filter(|i| r.dirs[*i] == NO_FLOW).map(|i| r.flow[i]).sum();
    assert_eq!(at_sinks, 10 * (w * h) as u64);
}

#[test]
fn hydrology_keeps_rivers_off_the_sea() {
    let w = 16;
    let h = 12;
    let scale = 2;
    let hw = w * scale;
    let hh = h * scale;
    let mut hi_elev: Vec<i32> = Vec::new();
    let mut state = 4242u64;
    for i in 0..hw * hh {
        state = worldgen::rng::splitmix64(state);
        let x = i % hw;
        hi_elev.push(if x < 8 { -500 } else { 100 + (x as i32) * 40 + (state % 200) as i32 });
    }
    let land: Vec<bool> = (0..w * h).map(|i| i % w >= 4).collect();
    let rain: Vec<u64> = vec![1000; hw * hh];
    let r = draw_rivers(&mut hi_elev, &rain, &land, w, h, scale, 100_000);
    assert_eq!(r.river_flow.len(), w * h);
    assert_eq!(r.raw_flow.len(), w * h);
    let wet = r.raw_flow.iter().filter(|f| **f > 0).count();
    assert!(wet > 100);
    let tau = r.threshold.unwrap();
    let mut rivers = 0;
    for i in 0..w * h {
        if !land[i] {
            assert_eq!(r.raw_flow[i], 0);
            assert_eq!(r.river_flow[i], 0);
            assert_eq!(r.labels[i], 0);
        }
        if r.river_flow[i] > 0 {
            rivers += 1;
            assert_eq!(r.river_flow[i], r.raw_flow[i]);
            assert!(r.labels[i] > 0);
            assert!(r.raw_flow[i] >= tau || r.raw_flow[i] * 20 >= tau);
        }
    }
    assert!(rivers > 0);
    for l in 1..r.sizes.len() {
        let now = r.labels.iter().filter(|x| **x as usize == l).count() as u32;
        assert_eq!(now, r.sizes[l] + r.added[l]);
        assert!(r.added[l] <= (r.sizes[l] + 1) / 2);
    }
}

#[test]
fn keeping_every_wet_cell_makes_every_wet_cell_a_river() {
    let w = 16;
    let h = 12;
    let mut hi_elev: Vec<i32> = Vec::new();
    for i in 0..w * h {
        let x = i % w;
        hi_elev.push(if x < 2 { -50 } else { 10 * x as i32 });
    }
    let land: Vec<bool> = (0..w * h).map(|i| i % w >= 2).collect();
    let rain: Vec<u64> = vec![7; w * h];
    let r = draw_rivers(&mut hi_elev, &rain, &land, w, h, 1, 1_000_000);
    for i in 0..w * h {
        if land[i] {
            assert!(r.raw_flow[i] > 0);
            assert_eq!(r.river_flow[i], r.raw_flow[i]);
        }
    }
}

#[test]
fn fine_heights_interpolate_between_coarse_cells() {
    // a sea floor that deepens eastwards; the sea gets no meander noise, so the fine
    // heights are the plain interpolation
    let w = 4;
    let h = 2;
    let mut g: worldgen::grid::Grid<i32> = worldgen::grid::Grid::new(w, h);
    for y in 0..h {
        for x in 0..w {
            g.set(x, y, -1000 * (x as i32 + 1));
        }
    }
    let fine = worldgen::hydrology::prepare::prepare_heights(&g, 2, 42);
    assert_eq!(fine.len(), 8 * 4);
    // fine column 1 lies a quarter of the way from coarse column 0 to coarse column 1
    assert_eq!(fine[8 + 1], -1250);
    assert_eq!(fine[8 + 2], -1750);
    assert_eq!(fine[8 + 3], -2250);
    // fine column 0 lies a quarter of the way west of coarse column 0, towards the
    // last column across the seam
    assert_eq!(fine[8], -1750);
    assert_eq!(fine[8 + 7], -3250);
    // refinement by one changes nothing
    assert_eq!(worldgen::hydrology::prepare::prepare_heights(&g, 1, 42), g.data);
}

#[test]
fn fine_land_is_roughened_but_stays_land() {
    let w = 6;
    let h = 4;
    let mut g: worldgen::grid::Grid<i32> = worldgen::grid::Grid::new(w, h);
    for i in 0..w * h {
        g.data[i] = if i % w == 0 { -100_000 } else { 20_000 };
    }
    let fine = worldgen::hydrology::prepare::prepare_heights(&g, 4, 7);
    assert_eq!(fine.len(), 24 * 16);
    let mut moved = 0;
    for y in 0..16 {
        for x in 0..24 {
            let v = fine[y * 24 + x];
            // inside the land, away from the interpolated coast
            if x >= 8 && x < 20 {
                assert!(v >= 50_000);
                // fifteen metres of noise at most
                assert!((v - 20_000).abs() <= 3_100_000);
                if v != 20_000 {
                    moved += 1;
                }
            }
            assert!(v as i64 + (24 * 16) as i64 <= i32::MAX as i64);
        }
    }
    assert!(moved > 0);
    assert_eq!(fine, worldgen::hydrology::prepare::prepare_heights(&g, 4, 7));
    assert_ne!(fine, worldgen::hydrology::prepare::prepare_heights(&g, 4, 8));
}

#[test]
fn hydrology_of_a_small_world() {
    let w = 48;
    let h = 24;
    let mut height: worldgen::grid::Grid<i32> = worldgen::grid::Grid::new(w, h);
    let mut rain: worldgen::grid::Grid<u64> = worldgen::grid::Grid::new(w, h);
    let mut state = 1u64;
    for y in 0..h {
        for x in 0..w {
            state = worldgen::rng::splitmix64(state);
            let land = x >= 10 && x < 40;
            let e = if land {
                100_000 * (5 + (x as i32 - 10).min(39 - x as i32)) + (state % 50_000) as i32
            } else {
                -30_000_000
            };
            height.set(x, y, e);
            rain.set(x, y, 800_000);
        }
    }
    let r = compute_hydrology(&height, &rain, 42, 100_000);
    assert_eq!(r.river_flow.len(), w * h);
    let mut rivers = 0;
    for i in 0..w * h {
        if height.data[i] <= 0 {
            assert_eq!(r.river_flow[i], 0);
            assert_eq!(r.raw_flow[i], 0);
        } else {
            assert!(r.raw_flow[i] > 0);
        }
        if r.river_flow[i] > 0 {
            rivers += 1;
            assert_eq!(r.river_flow[i], r.raw_flow[i]);
        }
    }
    assert!(rivers > 0);
    assert!(rivers < w * h);
    let again = compute_hydrology(&height, &rain, 42, 100_000);
    assert_eq!(again.river_flow, r.river_flow);
    assert_eq!(again.labels, r.labels);
}

#[test]
fn every_wet_land_cell_is_a_river_where_all_are_kept() {
    let w = 32;
    let h = 16;
    let mut height: worldgen::grid::Grid<i32> = worldgen::grid::Grid::new(w, h);
    let mut rain: worldgen::grid::Grid<u64> = worldgen::grid::Grid::new(w, h);
    for y in 0..h {
        for x in 0..w {
            height.set(x, y, if x < 4 { -5_000_000 } else { 100_000 * x as i32 });
            rain.set(x, y, 1_000);
        }
    }
    let r = compute_hydrology(&height, &rain, 42, 1_000_000);
    for i in 0..w * h {
        if r.raw_flow[i] > 0 {
            assert_eq!(r.river_flow[i], r.raw_flow[i]);
        }
    }
}

#[test]
fn there_are_no_rivers_where_none_is_kept() {
    let w = 32;
    let h = 16;
    let mut height: worldgen::grid::Grid<i32> = worldgen::grid::Grid::new(w, h);
    let mut rain: worldgen::grid::Grid<u64> = worldgen::grid::Grid::new(w, h);
    for y in 0..h {
        for x in 0..w {
            height.set(x, y, if x < 4 { -5_000_000 } else { 100_000 * x as i32 });
            rain.set(x, y, 1_000 + (x * y) as u64);
        }
    }
    let r = compute_hydrology(&height, &rain, 42, 0);
    assert_eq!(r.threshold, None);
    assert!(r.raw_flow.iter().any(|f| *f > 0));
    assert_eq!(r.river_flow, vec![0u64; w * h]);
    assert_eq!(r.labels, vec![0u32; w * h]);
}

#[test]
fn a_small_world_has_rivers_where_all_are_kept() {
    // twelve land cells only
    let w = 6;
    let h = 4;
    let mut height: worldgen::grid::Grid<i32> = worldgen::grid::Grid::new(w, h);
    let mut rain: worldgen::grid::Grid<u64> = worldgen::grid::Grid::new(w, h);
    for y in 0..h {
        for x in 0..w {
            height.set(x, y, if x < 3 { -5_000_000 } else { 100_000 * x as i32 });
            rain.set(x, y, 10);
        }
    }
    let r = compute_hydrology(&height, &rain, 42, 1_000_000);
    assert!(r.threshold.is_some());
    for i in 0..w * h {
        if height.data[i] > 0 {
            assert!(r.river_flow[i] > 0);
        }
        assert_eq!(r.river_flow[i], r.raw_flow[i]);
    }
}

#[test]
fn river_systems_reach_the_sea() {
    let w = 48;
    let h = 24;
    let mut height: worldgen::grid::Grid<i32> = worldgen::grid::Grid::new(w, h);
    let mut rain: worldgen::grid::Grid<u64> = worldgen::grid::Grid::new(w, h);
    let mut state = 77u64;
    for y in 0..h {
        for x in 0..w {
            state = worldgen::rng::splitmix64(state);
            let land = x >= 8 && x < 40;
            let e = if land {
                100_000 * (5 + (x as i32 - 8).min(39 - x as i32)) + (state % 80_000) as i32
            } else {
                -30_000_000
            };
            height.set(x, y, e);
            rain.set(x, y, 500_000 + state % 1000);
        }
    }
    let r = compute_hydrology(&height, &rain, 5, 50_000);
    let systems = r.sizes.len();
    assert!(systems > 1);
    let mut at_an_outlet = vec![false; systems];
    for i in 0..w * h {
        let l = r.labels[i] as usize;
        if l == 0 {
            continue;
        }
        let y = i / w;
        if y == 0 || y == h - 1 {
            at_an_outlet[l] = true;
        }
        for d in 0..8u8 {
            if let Some(n) = worldgen::grid::neighbor_of(i, d, w, h) {
                if height.data[n] <= 0 {
                    at_an_outlet[l] = true;
                }
            }
        }
    }
    // every system that started above the threshold ends at the sea or at a polar row
    for l in 1..systems {
        let started = (0..w * h).any(|i| r.labels[i] as usize == l && r.raw_flow[i] >= r.threshold.unwrap());
        if started {
            assert!(at_an_outlet[l]);
        }
    }
}
