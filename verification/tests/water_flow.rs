//! The hydraulic simulator: exact one-step flux values, nonnegative depths
//! and exact volume conservation over many ticks, equilibration, the
//! dry-edge reset, the depth ceiling, and the imperative water controls.

use watersim::terrain::HeightMap;
use watersim::water::Water;
use watersim::DIM;

fn flat_terrain() -> HeightMap {
    HeightMap::from_grid(vec![0i64; DIM * DIM]).unwrap()
}

fn depth_at(w: &Water, t: &HeightMap, x: usize, y: usize) -> i64 {
    // flat terrain: surface height equals depth
    w.get_height(t, x, y).unwrap()
}

fn total_depth(w: &Water, t: &HeightMap) -> i128 {
    let mut sum: i128 = 0;
    for y in 0..DIM {
        for x in 0..DIM {
            sum += depth_at(w, t, x, y) as i128;
        }
    }
    sum
}

#[test]
fn still_water_stays_still() {
    let t = flat_terrain();
    let mut w = Water::new();
    w.step(&t, 10);
    assert_eq!(w.get_avg_depth(), 0);
    assert_eq!(total_depth(&w, &t), 0);
}

#[test]
fn one_step_exact_flux() {
    // Inject 10 units at (50, 50) on flat terrain and step once with
    // dt = 0.01 s. Acceleration per edge:
    // upwind(5.0) * g(9.81) * head(10.0) * dt(0.01) = 4.905 flow units,
    // i.e. 4905 fixed-point steps; friction factor is exactly 1 here.
    let t = flat_terrain();
    let mut w = Water::new();
    w.add_depth(50, 50, 10_000_000);
    assert_eq!(depth_at(&w, &t, 50, 50), 10_000_000);
    w.step(&t, 10);
    assert_eq!(w.get_flow_x(50, 50).unwrap(), 4905);
    assert_eq!(w.get_flow_x(49, 50).unwrap(), -4905);
    assert_eq!(w.get_flow_y(50, 50).unwrap(), 4905);
    assert_eq!(w.get_flow_y(50, 49).unwrap(), -4905);
    // depth update: 10.0 - 0.01 * 4 * 4.905 = 9.8038
    assert_eq!(depth_at(&w, &t, 50, 50), 9_803_800);
    assert_eq!(depth_at(&w, &t, 51, 50), 49_050);
    assert_eq!(depth_at(&w, &t, 49, 50), 49_050);
    assert_eq!(depth_at(&w, &t, 50, 51), 49_050);
    assert_eq!(depth_at(&w, &t, 50, 49), 49_050);
    // the average is the exact total over the cell count
    assert_eq!(w.get_avg_depth(), 1000);
    assert_eq!(total_depth(&w, &t), 10_000_000);
}

#[test]
fn equilibration_conserves_volume_and_stays_nonnegative() {
    // A single injected column spreads out: volume is conserved exactly,
    // no cell ever goes negative, and the spread flattens the water, so
    // the depth variance falls over time.
    let t = flat_terrain();
    let mut w = Water::new();
    w.add_depth(50, 50, 10_000_000);
    let mut variances: Vec<f64> = Vec::new();
    for _ in 0..60 {
        w.step(&t, 10);
        assert_eq!(total_depth(&w, &t), 10_000_000);
        let mut min_depth: i64 = i64::MAX;
        let mut sum_sq: f64 = 0.0;
        let mean: f64 = 10_000_000.0 / (DIM * DIM) as f64;
        for y in 0..DIM {
            for x in 0..DIM {
                let d = depth_at(&w, &t, x, y);
                if d < min_depth {
                    min_depth = d;
                }
                let diff = d as f64 - mean;
                sum_sq += diff * diff;
            }
        }
        assert!(min_depth >= 0);
        variances.push(sum_sq);
    }
    // the spread flattens the water: after the initial transient the
    // variance trends down (averaged over windows, since the pipes carry
    // momentum and slosh a little tick to tick)
    let window = |lo: usize, hi: usize| -> f64 { variances[lo..hi].iter().sum::<f64>() / (hi - lo) as f64 };
    let early = window(1, 11);
    let middle = window(25, 35);
    let late = window(50, 60);
    assert!(middle < early);
    assert!(late < middle);
}

#[test]
fn dry_edge_resets_to_zero() {
    // A deep cell builds up outgoing pipe flow; draining it leaves the
    // outgoing pipes loaded while both ends of the pipe are now below the
    // dry threshold, and the next step must reset such a pipe to exactly
    // zero regardless of its prior value.
    let t = flat_terrain();
    let mut w = Water::new();
    w.add_depth(10, 10, 10_000_000);
    w.step(&t, 1);
    // upwind(5.0) * g(9.81) * head(10.0) * dt(0.001) = 0.4905 -> 490 steps
    assert_eq!(w.get_flow_x(10, 10).unwrap(), 490);
    // the neighbour got only 0.00049 units: still dry
    assert_eq!(depth_at(&w, &t, 11, 10), 490);
    // drain the source dry; its outgoing pipes keep their flow
    w.drain(&t, 10, 10, 1_000_000_000_000_000);
    assert_eq!(depth_at(&w, &t, 10, 10), 0);
    assert_eq!(w.get_flow_x(10, 10).unwrap(), 490);
    // both ends are now below the dry threshold: the reset zeroes the pipe
    w.step(&t, 1);
    assert_eq!(w.get_flow_x(10, 10).unwrap(), 0);
}

#[test]
fn depth_ceiling_blocks_additions() {
    // Once the recomputed average depth reaches the ceiling, add_depth
    // and the bulk controls are refused outright.
    let t = flat_terrain();
    let mut w = Water::new();
    w.add_depth(0, 0, 1_000_000_000_000_000);
    w.step(&t, 1);
    assert!(w.get_avg_depth() >= 50_000_000);
    let before = depth_at(&w, &t, 5, 5);
    w.add_depth(5, 5, 1_000_000);
    assert_eq!(depth_at(&w, &t, 5, 5), before);
    let row_before = depth_at(&w, &t, 3, 0);
    w.raise_water();
    assert_eq!(depth_at(&w, &t, 3, 0), row_before);
    let sea_before = depth_at(&w, &t, 7, 7);
    w.raise_sea(&t);
    assert_eq!(depth_at(&w, &t, 7, 7), sea_before);
}

#[test]
fn input_strength_is_bounded() {
    let mut w = Water::new();
    assert_eq!(w.input_str(), 1);
    w.increment_input();
    assert_eq!(w.input_str(), 2);
    w.increment_input();
    assert_eq!(w.input_str(), 2);
    w.decrement_input();
    w.decrement_input();
    assert_eq!(w.input_str(), 0);
    w.decrement_input();
    assert_eq!(w.input_str(), 0);
}

#[test]
fn raise_water_feeds_inlet_row() {
    let t = flat_terrain();
    let mut w = Water::new();
    // strength level 1: 0.5 + 0.5 = 1.0 world units on every inlet cell
    w.raise_water();
    assert_eq!(depth_at(&w, &t, 0, 0), 1_000_000);
    assert_eq!(depth_at(&w, &t, 99, 0), 1_000_000);
    assert_eq!(depth_at(&w, &t, 50, 1), 0);
}

#[test]
fn raise_sea_and_drain_on_sea_level_cells() {
    // terrain: flat zero except one raised cell at (3, 3)
    let mut grid = vec![0i64; DIM * DIM];
    grid[3 + 3 * DIM] = 30_000;
    let t = HeightMap::from_grid(grid).unwrap();
    let mut w = Water::new();
    // strength 1: 0.1 + 0.1 = 0.2 units on every sea-level cell
    w.raise_sea(&t);
    assert_eq!(w.get_height(&t, 7, 7).unwrap(), 200_000);
    // the raised cell is not at sea level, so it got nothing
    assert_eq!(w.get_height(&t, 3, 3).unwrap(), 30_000);
    // draining below the dry threshold snaps the cell to exactly zero
    w.drain(&t, 7, 7, 150_000);
    assert_eq!(w.get_height(&t, 7, 7).unwrap(), 50_000);
    w.drain(&t, 7, 7, 45_000);
    assert_eq!(w.get_height(&t, 7, 7).unwrap(), 0);
    // draining a cell above sea level does nothing
    w.drain(&t, 3, 3, 1_000_000);
    assert_eq!(w.get_height(&t, 3, 3).unwrap(), 30_000);
}
