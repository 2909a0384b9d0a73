use worldgen::grid::Grid;
use worldgen::plates::boundary::{
    classify_cell, classify_contact, extract_boundaries, CONVERGENT, DIVERGENT, INTERIOR,
    TRANSFORM,
};
use worldgen::plates::distance::{boundary_distance_field, dist_sq, UNREACHED, UNSET};
use worldgen::plates::grow::step_on;
use worldgen::plates::properties::{
    assign_continental, balance_momentum, count_cells, macro_cell_counts, PlateSet,
};

fn plate_field(w: usize, h: usize, ids: &[u16]) -> Grid<u16> {
    let mut g: Grid<u16> = Grid::new(w, h);
    for (i, v) in ids.iter().enumerate() {
        g.data[i] = *v;
    }
    g
}

fn two_plates(va: (i32, i32), vb: (i32, i32), same_macro: bool) -> PlateSet {
    PlateSet {
        num_micro: 2,
        num_macro: 2,
        macro_id: vec![0, if same_macro { 0 } else { 1 }],
        is_continental: vec![true, false],
        velocity: vec![va, vb],
        base_elevation: vec![500, -3500],
    }
}

#[test]
fn count_cells_counts_each_plate() {
    let g = plate_field(3, 2, &[0, 1, 1, 2, 1, 0]);
    assert_eq!(count_cells(&g, 3), vec![2, 3, 1]);
    // ids that name no plate are counted nowhere
    assert_eq!(count_cells(&g, 2), vec![2, 3]);
    assert_eq!(count_cells(&g, 5), vec![2, 3, 1, 0, 0]);
}

#[test]
fn macro_counts_add_up_their_microplates() {
    let counts = vec![2usize, 3, 1, 7];
    let macro_id = vec![1usize, 0, 1, 2];
    assert_eq!(macro_cell_counts(&counts, &macro_id, 4), vec![3, 3, 7, 0]);
}

#[test]
fn no_continents_for_a_target_of_zero() {
    let flags = assign_continental(&vec![2, 0, 1], &vec![5, 5, 5], 0);
    assert_eq!(flags, vec![false, false, false]);
}

#[test]
fn continents_fill_in_order_until_the_target() {
    let counts = vec![10usize, 20, 30, 40];
    let order = vec![3usize, 1, 0, 2];
    // plate 3 brings 40 of 50, plate 1 the rest
    assert_eq!(assign_continental(&order, &counts, 50), vec![false, true, false, true]);
    // exactly 40: plate 3 alone reaches it
    assert_eq!(assign_continental(&order, &counts, 40), vec![false, false, false, true]);
    assert_eq!(assign_continental(&order, &counts, 41), vec![false, true, false, true]);
    assert_eq!(assign_continental(&order, &counts, 1), vec![false, false, false, true]);
}

#[test]
fn all_continents_for_a_target_of_everything() {
    let counts = vec![10usize, 20, 30, 40];
    let order = vec![3usize, 1, 0, 2];
    assert_eq!(assign_continental(&order, &counts, 100), vec![true, true, true, true]);
    // an unreachable target marks everything and stops
    assert_eq!(assign_continental(&order, &counts, 1000), vec![true, true, true, true]);
}

#[test]
fn empty_plates_do_not_use_up_the_target() {
    let counts = vec![0usize, 0, 5];
    let order = vec![0usize, 1, 2];
    assert_eq!(assign_continental(&order, &counts, 3), vec![true, true, true]);
}

#[test]
fn classify_contact_by_speeds() {
    assert_eq!(classify_contact(5, 3), (CONVERGENT, 5));
    assert_eq!(classify_contact(-5, 3), (DIVERGENT, 5));
    assert_eq!(classify_contact(3, 5), (TRANSFORM, 5));
    assert_eq!(classify_contact(-3, 5), (TRANSFORM, 5));
    // equal speeds slide
    assert_eq!(classify_contact(4, 4), (TRANSFORM, 4));
    assert_eq!(classify_contact(0, 0), (TRANSFORM, 0));
}

#[test]
fn head_on_plates_converge() {
    // left half plate 0 moving east, right half plate 1 moving west
    let g = plate_field(4, 1, &[0, 0, 1, 1]);
    let plates = two_plates((100, 0), (-100, 0), false);
    let (bt, pa, pb, major) = extract_boundaries(&g, &plates);
    // cell 1 looks east at plate 1: closing; cell 0 looks west across the seam at plate 1: parting
    assert_eq!(bt.data, vec![DIVERGENT, CONVERGENT, CONVERGENT, DIVERGENT]);
    assert_eq!(pa.data, vec![0, 0, 1, 1]);
    assert_eq!(pb.data, vec![1, 1, 0, 0]);
    assert_eq!(major.data, vec![1, 1, 1, 1]);
}

#[test]
fn sliding_plates_transform() {
    let g = plate_field(4, 1, &[0, 0, 1, 1]);
    let plates = two_plates((0, 50), (0, -50), true);
    let (bt, _pa, _pb, major) = extract_boundaries(&g, &plates);
    assert_eq!(bt.data, vec![TRANSFORM; 4]);
    // same macroplate: minor boundaries
    assert_eq!(major.data, vec![0, 0, 0, 0]);
}

#[test]
fn interior_cells_stay_zero() {
    let g = plate_field(6, 1, &[0, 0, 0, 1, 1, 1]);
    let plates = two_plates((10, 0), (-10, 0), false);
    let (bt, pa, pb, major) = extract_boundaries(&g, &plates);
    assert_eq!(bt.data[1], INTERIOR);
    assert_eq!(bt.data[4], INTERIOR);
    assert_eq!((pa.data[4], pb.data[4], major.data[4]), (0, 0, 0));
    assert_eq!(bt.data[2], CONVERGENT);
    assert_eq!((pa.data[3], pb.data[3]), (1, 0));
}

#[test]
fn plates_at_rest_make_no_boundary() {
    let g = plate_field(4, 1, &[0, 0, 1, 1]);
    let plates = two_plates((7, 7), (7, 7), false);
    let (bt, _, _, _) = extract_boundaries(&g, &plates);
    assert_eq!(bt.data, vec![INTERIOR; 4]);
}

#[test]
fn strongest_contact_wins() {
    // centre cell of plate 0; west neighbour plate 1, north neighbour plate 2
    let g = plate_field(3, 3, &[0, 2, 0, 1, 0, 0, 0, 0, 0]);
    let plates = PlateSet {
        num_micro: 3,
        num_macro: 2,
        macro_id: vec![0, 0, 1],
        is_continental: vec![false, false, false],
        velocity: vec![(0, 0), (10, 0), (0, 30)],
        base_elevation: vec![0, 0, 0],
    };
    let c = classify_cell(&g, &plates, 4);
    // west: relative velocity (-10, 0) towards (-1, 0): closing at 10.
    // north: relative velocity (0, -30) towards (0, -1): closing at 30.
    assert_eq!(c.kind, CONVERGENT);
    assert_eq!(c.rate, 30);
    assert_eq!(c.other, 2);
    assert_eq!(c.major, 1);
}

#[test]
fn major_flag_matches_macroplates() {
    let ids: Vec<u16> = vec![0, 0, 1, 1, 2, 2, 0, 1, 1, 2, 2, 2, 3, 3, 1, 2, 0, 0, 3, 3, 3, 0, 0, 0];
    let g = plate_field(6, 4, &ids);
    let plates = PlateSet {
        num_micro: 4,
        num_macro: 2,
        macro_id: vec![0, 0, 1, 1],
        is_continental: vec![true, false, true, false],
        velocity: vec![(30, -10), (-20, 40), (5, 5), (-60, -70)],
        base_elevation: vec![0, 0, 0, 0],
    };
    let (bt, pa, pb, major) = extract_boundaries(&g, &plates);
    let mut boundary_cells = 0;
    for i in 0..24 {
        if bt.data[i] != INTERIOR {
            boundary_cells += 1;
            assert_eq!(pa.data[i], ids[i]);
            assert_ne!(pa.data[i], pb.data[i]);
            let differ = plates.macro_id[pa.data[i] as usize] != plates.macro_id[pb.data[i] as usize];
            assert_eq!(major.data[i] == 1, differ);
            assert!(major.data[i] <= 1);
        }
    }
    assert!(boundary_cells > 0);
}

#[test]
fn dist_sq_takes_the_shorter_way_round() {
    assert_eq!(dist_sq(0, 0, 0, 0, 10), 0);
    assert_eq!(dist_sq(1, 0, 9, 0, 10), 4);
    assert_eq!(dist_sq(9, 0, 1, 0, 10), 4);
    assert_eq!(dist_sq(2, 3, 5, 7, 10), 9 + 16);
    assert_eq!(dist_sq(0, 0, 5, 0, 10), 25);
    assert_eq!(dist_sq(0, 5, 0, 2, 10), 9);
}

#[test]
fn field_without_boundary_stays_unset() {
    let bt: Grid<u8> = Grid::new(4, 3);
    let (d, nx, ny) = boundary_distance_field(&bt);
    assert_eq!(d.data, vec![UNREACHED; 12]);
    assert_eq!(nx.data, vec![UNSET; 12]);
    assert_eq!(ny.data, vec![UNSET; 12]);
}

#[test]
fn single_boundary_cell_reaches_everyone() {
    let w = 8;
    let h = 5;
    let mut bt: Grid<u8> = Grid::new(w, h);
    bt.set(1, 2, 1);
    let (d, nx, ny) = boundary_distance_field(&bt);
    for y in 0..h {
        for x in 0..w {
            let i = y * w + x;
            assert_eq!((nx.data[i], ny.data[i]), (1, 2));
            assert_eq!(d.data[i], dist_sq(x, y, 1, 2, w));
        }
    }
    // across the seam: column 7 is two steps from column 1
    assert_eq!(d.data[2 * w + 7], 4);
    assert_eq!(d.data[2 * w + 1], 0);
}

#[test]
fn boundary_cells_know_themselves() {
    let w = 16;
    let h = 8;
    let mut bt: Grid<u8> = Grid::new(w, h);
    for (x, y) in [(0usize, 0usize), (5, 3), (15, 7), (9, 1), (10, 1)] {
        bt.set(x, y, 2);
    }
    let (d, nx, ny) = boundary_distance_field(&bt);
    for y in 0..h {
        for x in 0..w {
            let i = y * w + x;
            let bx = nx.data[i] as usize;
            let by = ny.data[i] as usize;
            assert!(bx < w && by < h);
            assert_ne!(bt.get(bx, by), 0);
            assert_eq!(d.data[i], dist_sq(x, y, nx.data[i], ny.data[i], w));
            if bt.get(x, y) != 0 {
                assert_eq!((bx, by), (x, y));
                assert_eq!(d.data[i], 0);
            }
        }
    }
}

#[test]
fn flooded_distances_match_the_true_minimum_on_a_small_field() {
    let w = 16;
    let h = 8;
    let cells = [(0usize, 0usize), (5, 3), (15, 7), (9, 1)];
    let mut bt: Grid<u8> = Grid::new(w, h);
    for (x, y) in cells {
        bt.set(x, y, 1);
    }
    let (d, _, _) = boundary_distance_field(&bt);
    for y in 0..h {
        for x in 0..w {
            let best = cells
                .iter()
                .map(|(bx, by)| dist_sq(x, y, *bx as u16, *by as u16, w))
                .min()
                .unwrap();
            assert_eq!(d.data[y * w + x], best);
        }
    }
}

#[test]
fn one_seed_claims_the_world() {
    let g = worldgen::plates::grow::grow_over(5, 4, &vec![(2, 1)], &vec![1000u32; 20]);
    assert_eq!(g.data, vec![0u16; 20]);
}

#[test]
fn no_seed_claims_nothing() {
    let g = worldgen::plates::grow::grow_over(3, 2, &vec![], &vec![1000u32; 6]);
    assert_eq!(g.data, vec![worldgen::plates::grow::UNCLAIMED; 6]);
}

#[test]
fn even_costs_split_a_row_between_two_seeds() {
    // one row of 8 cells; seeds at columns 1 and 5; the wrap makes the row a ring
    let g = worldgen::plates::grow::grow_over(8, 1, &vec![(1, 0), (5, 0)], &vec![1000u32; 8]);
    // columns 3 and 7 are two steps from both seeds: the entry with the lower cell index
    // and then the lower plate comes out first
    assert_eq!(g.data, vec![0, 0, 0, 0, 1, 1, 1, 0]);
}

#[test]
fn costly_cells_hold_a_plate_back() {
    // seeds at both ends of a row that does not close into a short ring; the cells
    // next to plate 0 are expensive
    let mut cost = vec![1000u32; 10];
    cost[1] = 9000;
    cost[2] = 9000;
    let g = worldgen::plates::grow::grow_over(10, 1, &vec![(0, 0), (5, 0)], &cost);
    // plate 1 reaches column 2 for 2000 + 9000 = 11000 against 18000 for plate 0,
    // and column 1 for 9000 from plate 0 against 20000
    assert_eq!(g.data[0], 0);
    assert_eq!(g.data[1], 0);
    assert_eq!(g.data[2], 1);
    assert_eq!(g.data[3], 1);
    assert_eq!(g.data[5], 1);
}

#[test]
fn cells_are_claimed_when_taken_not_when_queued() {
    // plate 0 queues column 2 first, at cost 5000 over an expensive cell; plate 1
    // arrives later in the queue but cheaper in cost and must win the cell
    let mut cost = vec![1000u32; 12];
    cost[2] = 5000;
    let g = worldgen::plates::grow::grow_over(12, 1, &vec![(1, 0), (6, 0)], &cost);
    // plate 0 reaches column 2 at 5000, column 3 at 6000; plate 1 reaches column 3 at 3000
    // and column 2 at 8000
    assert_eq!(g.data[2], 0);
    assert_eq!(g.data[3], 1);
    assert_eq!(g.data[4], 1);
}

#[test]
fn every_plate_hangs_together_with_its_seed() {
    let w = 12;
    let h = 8;
    let seeds = vec![(0usize, 0usize), (6, 3), (11, 7), (3, 6), (9, 1)];
    let mut cost = vec![0u32; w * h];
    let mut state = 7u64;
    for c in cost.iter_mut() {
        state = worldgen::rng::splitmix64(state);
        *c = 100 + (state % 3000) as u32;
    }
    let g = worldgen::plates::grow::grow_over(w, h, &seeds, &cost);
    for i in 0..w * h {
        let p = g.data[i] as usize;
        assert!(p < seeds.len());
        let at_seed = seeds[p].1 * w + seeds[p].0 == i;
        let adjoining = (0..8u8).any(|d| match worldgen::grid::neighbor_of(i, d, w, h) {
            Some(m) => g.data[m] as usize == p,
            None => false,
        });
        assert!(at_seed || adjoining);
    }
    // with positive costs every seed keeps its own cell
    for (p, s) in seeds.iter().enumerate() {
        assert_eq!(g.data[s.1 * w + s.0] as usize, p);
    }
}

#[test]
fn step_on_adds_edge_and_corner_costs() {
    assert_eq!(step_on(0, 1000, false), 1000);
    assert_eq!(step_on(0, 1000, true), 1414);
    assert_eq!(step_on(500, 3, true), 504);
    assert_eq!(step_on(u64::MAX - 5, 1000, false), u64::MAX);
    assert_eq!(step_on(7, 0, true), 7);
}

#[test]
fn balanced_plates_carry_no_net_momentum() {
    let counts: Vec<usize> = vec![120, 30, 75, 5, 0, 270];
    let mut v: Vec<(i64, i64)> = vec![
        (900_000, -200_000),
        (-350_000, 640_000),
        (10, 10),
        (-1_000_000, -1_000_000),
        (777, -777),
        (250_000, 125_000),
    ];
    let before = v.clone();
    balance_momentum(&mut v, &counts);
    let total: i128 = counts.iter().map(|c| *c as i128).sum();
    let px: i128 = v.iter().zip(&counts).map(|(a, c)| a.0 as i128 * *c as i128).sum();
    let py: i128 = v.iter().zip(&counts).map(|(a, c)| a.1 as i128 * *c as i128).sum();
    assert!(0 <= px && px < total);
    assert!(0 <= py && py < total);
    // one and the same velocity was taken off every plate
    let mx = before[0].0 - v[0].0;
    let my = before[0].1 - v[0].1;
    for (a, b) in before.iter().zip(&v) {
        assert_eq!((a.0 - b.0, a.1 - b.1), (mx, my));
    }
}

#[test]
fn balance_takes_the_mean_rounded_down() {
    let mut v: Vec<(i64, i64)> = vec![(10, -10), (20, -20)];
    balance_momentum(&mut v, &vec![1, 2]);
    // means 50 / 3 = 16.67 and -50 / 3 = -16.67, rounded down to 16 and -17
    assert_eq!(v, vec![(-6, 7), (4, -3)]);
    let mut even: Vec<(i64, i64)> = vec![(-8, 8), (8, -8)];
    balance_momentum(&mut even, &vec![5, 5]);
    assert_eq!(even, vec![(-8, 8), (8, -8)]);
}

#[test]
fn plates_without_cells_keep_their_velocities() {
    let mut v: Vec<(i64, i64)> = vec![(5, 6), (-7, 8)];
    balance_momentum(&mut v, &vec![0, 0]);
    assert_eq!(v, vec![(5, 6), (-7, 8)]);
    let mut none: Vec<(i64, i64)> = vec![];
    balance_momentum(&mut none, &vec![]);
    assert!(none.is_empty());
}

#[test]
fn balanced_momentum_is_below_a_hundred_thousandth() {
    // speeds of the order of one cell per step on a world of 256 by 128 cells
    let unit = worldgen::plates::properties::SPEED_UNIT;
    let counts: Vec<usize> = vec![9000, 5000, 7768, 3000, 4000, 2000, 1500, 500];
    assert_eq!(counts.iter().sum::<usize>(), 256 * 128);
    let mut v: Vec<(i64, i64)> = Vec::new();
    let mut state = 3u64;
    for _ in 0..8 {
        state = worldgen::rng::splitmix64(state);
        let x = (state % (2 * unit as u64)) as i64 - unit;
        state = worldgen::rng::splitmix64(state);
        let y = (state % (2 * unit as u64)) as i64 - unit;
        v.push((x, y));
    }
    balance_momentum(&mut v, &counts);
    let px: i128 = v.iter().zip(&counts).map(|(a, c)| a.0 as i128 * *c as i128).sum();
    let py: i128 = v.iter().zip(&counts).map(|(a, c)| a.1 as i128 * *c as i128).sum();
    // in cells per step: less than 1e-5
    assert!(px >= 0 && px * 100_000 < unit as i128);
    assert!(py >= 0 && py * 100_000 < unit as i128);
}

#[test]
fn microplates_are_nudged_by_at_most_fifteen_hundredths() {
    let unit = worldgen::plates::properties::SPEED_UNIT;
    let limit = worldgen::plates::properties::NUDGE_LIMIT;
    let macros: Vec<(i64, i64)> = vec![(unit, -unit / 2), (-3 * unit / 4, unit / 8)];
    let macro_id: Vec<usize> = vec![0, 1, 1, 0];
    let nudges: Vec<(i64, i64)> = vec![
        (unit / 10, 0),
        (limit, 0),
        // longer than the limit: not taken
        (limit, limit),
        (-unit / 10, unit / 10),
    ];
    let v = worldgen::plates::properties::microplate_velocities(&macros, &macro_id, &nudges);
    assert_eq!(v[0], (unit + unit / 10, -unit / 2));
    assert_eq!(v[1], (-3 * unit / 4 + limit, unit / 8));
    assert_eq!(v[2], macros[1]);
    assert_eq!(v[3], (unit - unit / 10, -unit / 2 + unit / 10));
    for (i, m) in macro_id.iter().enumerate() {
        let dx = (v[i].0 - macros[*m].0) as i128;
        let dy = (v[i].1 - macros[*m].1) as i128;
        assert!(dx * dx + dy * dy <= limit as i128 * limit as i128);
    }
}

fn least_costs(
    w: usize,
    h: usize,
    cost: &[u32],
    starts: &[usize],
    allowed: &dyn Fn(usize) -> bool,
) -> Vec<u64> {
    let mut best = vec![u64::MAX; w * h];
    for s in starts {
        if allowed(*s) {
            best[*s] = 0;
        }
    }
    let mut changed = true;
    while changed {
        changed = false;
        for i in 0..w * h {
            if best[i] == u64::MAX || !allowed(i) {
                continue;
            }
            for d in 0..8u8 {
                if let Some(m) = worldgen::grid::neighbor_of(i, d, w, h) {
                    if !allowed(m) {
                        continue;
                    }
                    let diagonal = d == 0 || d == 2 || d == 5 || d == 7;
                    let on = step_on(best[i], cost[m], diagonal);
                    if on < best[m] {
                        best[m] = on;
                        changed = true;
                    }
                }
            }
        }
    }
    best
}

#[test]
fn every_cell_belongs_to_a_plate_that_reaches_it_most_cheaply() {
    let w = 14;
    let h = 9;
    let seeds = vec![(1usize, 1usize), (9, 2), (4, 7), (12, 6)];
    let mut cost = vec![0u32; w * h];
    let mut state = 2024u64;
    for c in cost.iter_mut() {
        state = worldgen::rng::splitmix64(state);
        *c = 200 + (state % 5000) as u32;
    }
    let g = worldgen::plates::grow::grow_over(w, h, &seeds, &cost);
    let cells: Vec<usize> = seeds.iter().map(|s| s.1 * w + s.0).collect();
    let over_all = least_costs(w, h, &cost, &cells, &|_| true);
    for p in 0..seeds.len() {
        let own = least_costs(w, h, &cost, &cells[p..p + 1], &|c| g.data[c] as usize == p);
        for c in 0..w * h {
            if g.data[c] as usize == p {
                // reached over its own cells for what the cheapest walk of any plate costs
                assert_eq!(own[c], over_all[c]);
            }
        }
    }
}

#[test]
fn growth_follows_the_cost_field() {
    let w = 16;
    let h = 8;
    let seeds = vec![(2usize, 4usize), (13, 4)];
    let even = worldgen::plates::grow::grow_over(w, h, &seeds, &vec![1000u32; w * h]);
    // a wall of costly cells in front of plate 1 lets plate 0 take the middle
    let mut walled = vec![1000u32; w * h];
    for y in 0..h {
        walled[y * w + 11] = 60_000;
    }
    let bent = worldgen::plates::grow::grow_over(w, h, &seeds, &walled);
    assert_ne!(even.data, bent.data);
    assert_eq!(even.data[4 * w + 9], 1);
    assert_eq!(bent.data[4 * w + 9], 0);
}

#[test]
fn one_boundary_cell_in_a_corner_reaches_every_cell() {
    for (w, h) in [(1usize, 1usize), (1, 9), (9, 1), (5, 7), (33, 17), (64, 3)] {
        for corner in [0, w - 1, (h - 1) * w, w * h - 1] {
            let mut bt: Grid<u8> = Grid::new(w, h);
            bt.data[corner] = 3;
            let (d, nx, ny) = boundary_distance_field(&bt);
            for i in 0..w * h {
                assert_ne!(nx.data[i], UNSET);
                assert_eq!((nx.data[i] as usize, ny.data[i] as usize), (corner % w, corner / w));
                assert_ne!(d.data[i], UNREACHED);
            }
        }
    }
}
