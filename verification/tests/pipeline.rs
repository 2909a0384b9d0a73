use worldgen::grid::Grid;
use worldgen::noise::ONE;
use worldgen::plates::boundary::{extract_boundaries, INTERIOR};
use worldgen::plates::distance::{boundary_distance_field, dist_sq, UNSET};
use worldgen::plates::grow::{grow_plates, step_costs, UNCLAIMED};
use worldgen::plates::properties::{
    assign_continental, assign_macroplates, balance_momentum, continental_order,
    continental_target, count_cells, macro_cell_counts, PlateSet,
};
use worldgen::plates::seed::{point_gap_sq, poisson_plate_seeds, poisson_variable_seeds, Point};

const SALT_MACRO: u64 = 0xAC20_F1A7_E000_0001;

fn plates_of(seed: u64, w: usize, h: usize, macros: usize, micros: usize) -> (Vec<Point>, Vec<Point>, Grid<u16>) {
    let macro_seeds = poisson_plate_seeds(w, h, macros, seed ^ SALT_MACRO);
    let micro_seeds = poisson_variable_seeds(w, h, micros, seed, &macro_seeds);
    let plate_id = grow_plates(w, h, &micro_seeds, seed, 2 * ONE);
    (macro_seeds, micro_seeds, plate_id)
}

#[test]
fn step_costs_are_never_below_a_twentieth() {
    let cost = step_costs(32, 16, 42, 2 * ONE);
    assert_eq!(cost.len(), 32 * 16);
    assert!(cost.iter().all(|c| *c >= 3277));
    // with the noise switched off every step costs one
    assert_eq!(step_costs(8, 4, 42, 0), vec![65536u32; 32]);
    // the field depends on the seed
    assert_ne!(step_costs(32, 16, 42, 2 * ONE), step_costs(32, 16, 43, 2 * ONE));
}

#[test]
fn every_cell_names_a_microplate() {
    let (_, micro_seeds, plate_id) = plates_of(42, 128, 64, 8, 120);
    assert_eq!(plate_id.data.len(), 128 * 64);
    assert!(plate_id.data.iter().all(|p| (*p as usize) < micro_seeds.len()));
    assert!(plate_id.data.iter().all(|p| *p != UNCLAIMED));
}

#[test]
fn generation_is_reproducible() {
    let a = plates_of(42, 96, 48, 6, 80);
    let b = plates_of(42, 96, 48, 6, 80);
    assert_eq!(a.0, b.0);
    assert_eq!(a.1, b.1);
    assert_eq!(a.2.data, b.2.data);
}

#[test]
fn plates_differ_between_seeds() {
    let w = 256;
    let h = 128;
    let (_, _, one) = plates_of(1, w, h, 8, 600);
    let (_, _, two) = plates_of(2, w, h, 8, 600);
    let differing = one.data.iter().zip(&two.data).filter(|(a, b)| a != b).count();
    assert!(2 * differing > w * h);
}

#[test]
fn microplates_join_their_nearest_macroplate_where_noise_is_off() {
    let w = 64;
    let h = 32;
    let macros: Vec<Point> = vec![(10 * 256, 10 * 256), (40 * 256, 20 * 256), (60 * 256, 5 * 256)];
    let micros = poisson_plate_seeds(w, h, 40, 5);
    let macro_id = assign_macroplates(&micros, &macros, w, h, 0, 5);
    assert_eq!(macro_id.len(), 40);
    let span = (w * 256) as u64;
    for (p, j) in micros.iter().zip(&macro_id) {
        let own = point_gap_sq(*p, macros[*j], span);
        for (k, c) in macros.iter().enumerate() {
            let other = point_gap_sq(*p, *c, span);
            assert!(own <= other);
            if k < *j {
                assert!(own < other);
            }
        }
    }
}

#[test]
fn macroplates_are_joined_across_the_seam() {
    // a seed near the east edge is nearer to a centre just beyond the seam
    let macros: Vec<Point> = vec![(2 * 256, 8 * 256), (32 * 256, 8 * 256)];
    let micros: Vec<Point> = vec![(62 * 256, 8 * 256), (30 * 256, 8 * 256)];
    assert_eq!(assign_macroplates(&micros, &macros, 64, 16, 0, 1), vec![0, 1]);
}

#[test]
fn continental_order_lists_every_plate_once() {
    let micros = poisson_plate_seeds(64, 32, 50, 11);
    let order = continental_order(&micros, 64, 32, 11);
    let mut seen = order.clone();
    seen.sort();
    assert_eq!(seen, (0..50).collect::<Vec<usize>>());
    assert_eq!(order, continental_order(&micros, 64, 32, 11));
    assert_ne!(order, continental_order(&micros, 64, 32, 12));
}

#[test]
fn continental_order_runs_from_high_noise_to_low() {
    let w = 64;
    let h = 32;
    let seed = 3u64;
    let micros = poisson_plate_seeds(w, h, 30, seed);
    let order = continental_order(&micros, w, h, seed);
    let noise_seed = worldgen::rng::seed_u32(seed, 0xC017_1E17_FACE_0001);
    let noise: Vec<i64> = micros
        .iter()
        .map(|p| {
            let u = p.0 as i64 * 256 / w as i64;
            let v = p.1 as i64 * 256 / h as i64;
            worldgen::noise::fbm(u, v, noise_seed, 3, 163840, 131072, 32768)
        })
        .collect();
    for pair in order.windows(2) {
        let (a, b) = (pair[0], pair[1]);
        assert!(noise[a] > noise[b] || (noise[a] == noise[b] && a < b));
    }
}

#[test]
fn continental_target_is_a_share_of_all_cells() {
    assert_eq!(continental_target(32768, 540_000), 17694);
    assert_eq!(continental_target(32768, 0), 0);
    assert_eq!(continental_target(32768, 1_000_000), 32768);
    assert_eq!(continental_target(3, 500_000), 1);
    assert_eq!(continental_target(0, 700_000), 0);
    assert_eq!(continental_target(usize::MAX, 1_000_000), usize::MAX);
}

#[test]
fn no_continents_at_a_fraction_of_zero() {
    let (_, micro_seeds, plate_id) = plates_of(42, 64, 32, 4, 40);
    let counts = count_cells(&plate_id, micro_seeds.len());
    let order = continental_order(&micro_seeds, 64, 32, 42);
    let total: usize = counts.iter().sum();
    assert_eq!(total, 64 * 32);
    let flags = assign_continental(&order, &counts, continental_target(total, 0));
    assert!(flags.iter().all(|f| !*f));
}

#[test]
fn all_continents_at_a_fraction_of_one() {
    let (_, micro_seeds, plate_id) = plates_of(42, 64, 32, 4, 40);
    let counts = count_cells(&plate_id, micro_seeds.len());
    let order = continental_order(&micro_seeds, 64, 32, 42);
    let total: usize = counts.iter().sum();
    let flags = assign_continental(&order, &counts, continental_target(total, 1_000_000));
    for (i, f) in flags.iter().enumerate() {
        if counts[i] > 0 {
            assert!(*f);
        }
    }
    let continental: usize = (0..counts.len()).filter(|i| flags[*i]).map(|i| counts[i]).sum();
    assert_eq!(continental, total);
}

#[test]
fn continents_hold_about_the_share_asked_for() {
    let (_, micro_seeds, plate_id) = plates_of(42, 128, 64, 8, 200);
    let counts = count_cells(&plate_id, micro_seeds.len());
    let order = continental_order(&micro_seeds, 128, 64, 42);
    let total: usize = counts.iter().sum();
    let target = continental_target(total, 540_000);
    let flags = assign_continental(&order, &counts, target);
    let continental: usize = (0..counts.len()).filter(|i| flags[*i]).map(|i| counts[i]).sum();
    let largest = *counts.iter().max().unwrap();
    assert!(continental >= target);
    assert!(continental < target + largest);
}

#[test]
fn boundaries_and_distances_follow_from_the_plates() {
    let w = 96;
    let h = 48;
    let seed = 42u64;
    let (macro_seeds, micro_seeds, plate_id) = plates_of(seed, w, h, 6, 90);
    let macro_id = assign_macroplates(&micro_seeds, &macro_seeds, w, h, 2 * ONE, seed);
    let counts = count_cells(&plate_id, micro_seeds.len());
    let macro_counts = macro_cell_counts(&counts, &macro_id, macro_seeds.len());
    assert_eq!(macro_counts.iter().sum::<usize>(), w * h);

    let mut state = seed;
    let mut macro_velocity: Vec<(i64, i64)> = Vec::new();
    for _ in 0..macro_seeds.len() {
        state = worldgen::rng::splitmix64(state);
        let vx = (state % 2_000_001) as i64 - 1_000_000;
        state = worldgen::rng::splitmix64(state);
        let vy = (state % 2_000_001) as i64 - 1_000_000;
        macro_velocity.push((vx, vy));
    }
    balance_momentum(&mut macro_velocity, &macro_counts);
    let px: i128 = macro_velocity.iter().zip(&macro_counts).map(|(v, c)| v.0 as i128 * *c as i128).sum();
    assert!(0 <= px && px < (w * h) as i128);

    let plates = PlateSet {
        num_micro: micro_seeds.len(),
        num_macro: macro_seeds.len(),
        macro_id: macro_id.clone(),
        is_continental: vec![false; micro_seeds.len()],
        velocity: macro_id.iter().map(|m| (macro_velocity[*m].0 as i32, macro_velocity[*m].1 as i32)).collect(),
        base_elevation: vec![0; micro_seeds.len()],
    };
    let (btype, pa, pb, major) = extract_boundaries(&plate_id, &plates);
    let mut boundary_cells = 0;
    for i in 0..w * h {
        if btype.data[i] != INTERIOR {
            boundary_cells += 1;
            assert_eq!(pa.data[i], plate_id.data[i]);
            let differ = macro_id[pa.data[i] as usize] != macro_id[pb.data[i] as usize];
            assert_eq!(major.data[i] == 1, differ);
            // microplates of one macroplate move alike here, so only major boundaries show
            assert!(differ);
        }
    }
    assert!(boundary_cells > 0);

    let (dist, near_x, near_y) = boundary_distance_field(&btype);
    for y in 0..h {
        for x in 0..w {
            let i = y * w + x;
            assert_ne!(near_x.data[i], UNSET);
            let (bx, by) = (near_x.data[i], near_y.data[i]);
            assert_ne!(btype.get(bx as usize, by as usize), INTERIOR);
            assert_eq!(dist.data[i], dist_sq(x, y, bx, by, w));
        }
    }
    // no seam: the distance changes by little from the last column to the first
    for y in 0..h {
        let east = (dist.data[y * w + w - 1] as f64).sqrt();
        let west = (dist.data[y * w] as f64).sqrt();
        assert!((east - west).abs() <= 2.0);
    }
}
