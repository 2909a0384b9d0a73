use worldgen::plates::seed::{
    point_gap_sq, poisson_plate_seeds, poisson_variable_seeds, Point,
};

fn closest_pair(points: &[Point], span: u64) -> u64 {
    let mut best = u64::MAX;
    for i in 0..points.len() {
        for j in i + 1..points.len() {
            best = best.min(point_gap_sq(points[i], points[j], span));
        }
    }
    best
}

#[test]
fn gap_takes_the_shorter_way_round() {
    assert_eq!(point_gap_sq((0, 0), (0, 0), 2560), 0);
    assert_eq!(point_gap_sq((10, 0), (2550, 0), 2560), 400);
    assert_eq!(point_gap_sq((2550, 0), (10, 0), 2560), 400);
    assert_eq!(point_gap_sq((100, 50), (400, 450), 2560), 300 * 300 + 400 * 400);
    assert_eq!(point_gap_sq((0, 7), (1280, 7), 2560), 1280 * 1280);
}

#[test]
fn the_number_of_centres_asked_for_is_placed() {
    for count in [0usize, 1, 8, 100] {
        let points = poisson_plate_seeds(256, 128, count, 42);
        assert_eq!(points.len(), count);
        for p in &points {
            assert!(p.0 < 256 * 256);
            assert!(p.1 < 128 * 256);
        }
    }
}

#[test]
fn placement_is_reproducible_and_depends_on_the_seed() {
    let a = poisson_plate_seeds(256, 128, 8, 42);
    let b = poisson_plate_seeds(256, 128, 8, 42);
    let c = poisson_plate_seeds(256, 128, 8, 43);
    assert_eq!(a, b);
    assert_ne!(a, c);
}

#[test]
fn the_first_centre_is_the_first_draw() {
    // generator state 42 ^ salt; the column comes from the first draw, the row from
    // the second, each cut to 24 bits and spread over the grid
    let mut rng = worldgen::rng::Rng::new(42 ^ 0xA1B2_C3D4_E5F6_0789);
    let u1 = (rng.next_u32() >> 8) as u64;
    let u2 = (rng.next_u32() >> 8) as u64;
    let x = (u1 * (256 * 256) >> 24) as u32;
    let y = (u2 * (128 * 256) >> 24) as u32;
    let points = poisson_plate_seeds(256, 128, 3, 42);
    assert_eq!(points[0], (x, y));
}

#[test]
fn even_centres_keep_their_distance() {
    let w = 256;
    let h = 128;
    let count = 8;
    let points = poisson_plate_seeds(w, h, count, 42);
    // the first distance is 0.6 * sqrt(w * h / count) cells; eight centres find room
    // long before the distance has been relaxed ten times
    let first = (w * h * 65536 * 36 / (count * 100)) as u64;
    let mut least = first;
    for _ in 0..10 {
        least = least * 7225 / 10000;
    }
    assert!(closest_pair(&points, (w * 256) as u64) >= least);
    assert!(closest_pair(&points, (w * 256) as u64) >= first);
}

#[test]
fn crowded_centres_are_still_all_placed() {
    // far more centres than the distance allows: the shortfall is made up
    let points = poisson_plate_seeds(4, 4, 300, 7);
    assert_eq!(points.len(), 300);
    for p in &points {
        assert!(p.0 < 4 * 256 && p.1 < 4 * 256);
    }
}

#[test]
fn variable_centres_crowd_the_borders() {
    let w = 256;
    let h = 128;
    // two macro centres on one row: the border lies half way between them, both ways round
    let macros: Vec<Point> = vec![(64 * 256, 64 * 256), (192 * 256, 64 * 256)];
    let points = poisson_variable_seeds(w, h, 200, 9, &macros);
    assert_eq!(points.len(), 200);
    let span = (w * 256) as u64;
    let mut near_border = 0;
    let mut near_centre = 0;
    for p in &points {
        assert!(p.0 < 256 * 256 && p.1 < 128 * 256);
        let d0 = point_gap_sq(*p, macros[0], span);
        let d1 = point_gap_sq(*p, macros[1], span);
        let (lo, hi) = if d0 < d1 { (d0, d1) } else { (d1, d0) };
        // the nearer centre is at least 0.8 as far as the other: a border strip
        if lo * 100 >= hi * 64 {
            near_border += 1;
        }
        if lo * 100 <= hi * 4 {
            near_centre += 1;
        }
    }
    assert!(near_border > near_centre);
}

#[test]
fn variable_centres_are_reproducible() {
    let macros: Vec<Point> = vec![(1000, 1000), (30000, 20000), (50000, 5000)];
    let a = poisson_variable_seeds(256, 128, 50, 1, &macros);
    let b = poisson_variable_seeds(256, 128, 50, 1, &macros);
    let c = poisson_variable_seeds(256, 128, 50, 2, &macros);
    assert_eq!(a, b);
    assert_ne!(a, c);
    assert_eq!(poisson_variable_seeds(256, 128, 5, 1, &vec![]).len(), 5);
}
