//! The rain source: the droplet cap, backpressure from the depth ceiling,
//! deterministic fall, and absorption feeding the water field.

use watersim::rain::Rain;
use watersim::rain::MAX_COUNT;
use watersim::terrain::HeightMap;
use watersim::water::Water;
use watersim::DIM;

fn flat_terrain() -> HeightMap {
    HeightMap::from_grid(vec![0i64; DIM * DIM]).unwrap()
}

fn total_depth(w: &Water, t: &HeightMap) -> i128 {
    let mut sum: i128 = 0;
    for y in 0..DIM {
        for x in 0..DIM {
            sum += w.get_height(t, x, y).unwrap() as i128;
        }
    }
    sum
}

#[test]
fn droplet_count_never_exceeds_cap() {
    let w = Water::new();
    let mut rain = Rain::new();
    assert_eq!(rain.droplet_count(), 0);
    // strength 2 spawns 7 droplets per triggered tick
    for _ in 0..200 {
        rain.spawn_if_triggered(true, 2, &w);
        assert!(rain.droplet_count() <= MAX_COUNT);
    }
    assert_eq!(rain.droplet_count(), MAX_COUNT);
    // one more triggered tick at the cap admits nothing
    rain.spawn_if_triggered(true, 2, &w);
    assert_eq!(rain.droplet_count(), MAX_COUNT);
}

#[test]
fn spawn_counts_per_strength() {
    let w = Water::new();
    let mut rain = Rain::new();
    rain.spawn_if_triggered(true, 0, &w);
    assert_eq!(rain.droplet_count(), 3);
    rain.spawn_if_triggered(true, 1, &w);
    assert_eq!(rain.droplet_count(), 8);
    rain.spawn_if_triggered(true, 2, &w);
    assert_eq!(rain.droplet_count(), 15);
    rain.spawn_if_triggered(false, 2, &w);
    assert_eq!(rain.droplet_count(), 15);
}

#[test]
fn ceiling_blocks_spawning() {
    let t = flat_terrain();
    let mut w = Water::new();
    w.add_depth(0, 0, 1_000_000_000_000_000);
    w.step(&t, 1);
    assert!(w.get_avg_depth() >= 50_000_000);
    let mut rain = Rain::new();
    rain.spawn_if_triggered(true, 2, &w);
    assert_eq!(rain.droplet_count(), 0);
}

#[test]
fn droplets_fall_and_get_absorbed() {
    // A droplet starts 75 units up and falls g * 10 * dt per tick; with
    // dt = 1 s that is 98.1 units, so every droplet passes the flat water
    // surface in one tick and is absorbed, each distinct cell gaining
    // exactly one unit of depth.
    let t = flat_terrain();
    let mut w = Water::new();
    let mut rain = Rain::new();
    rain.spawn_if_triggered(true, 1, &w);
    let n = rain.droplet_count();
    assert_eq!(n, 5);
    rain.update_droplets(&mut w, &t, 1000);
    assert_eq!(rain.droplet_count(), 0);
    let gained = total_depth(&w, &t);
    assert!(gained >= 1_000_000);
    assert!(gained <= 5_000_000);
    assert_eq!(gained % 1_000_000, 0);
}

#[test]
fn high_droplets_keep_falling() {
    // With a small dt a droplet falls 0.981 units per tick and stays
    // airborne for many ticks; nothing is absorbed and the water stays
    // dry meanwhile.
    let t = flat_terrain();
    let mut w = Water::new();
    let mut rain = Rain::new();
    rain.spawn_if_triggered(true, 0, &w);
    assert_eq!(rain.droplet_count(), 3);
    for _ in 0..10 {
        rain.update_droplets(&mut w, &t, 10);
    }
    assert_eq!(rain.droplet_count(), 3);
    assert_eq!(total_depth(&w, &t), 0);
}

#[test]
fn ceiling_blocks_absorption_adds() {
    // Once the average depth sits at the ceiling, absorbed droplets are
    // removed but their depth addition is refused.
    let t = flat_terrain();
    let mut w = Water::new();
    w.add_depth(0, 0, 1_000_000_000_000_000);
    w.step(&t, 1);
    assert!(w.get_avg_depth() >= 50_000_000);
    let before = total_depth(&w, &t);
    let mut rain = Rain::new();
    // spawning is blocked at the ceiling, so no droplets and no change
    rain.spawn_if_triggered(true, 1, &w);
    assert_eq!(rain.droplet_count(), 0);
    rain.update_droplets(&mut w, &t, 1000);
    assert_eq!(rain.droplet_count(), 0);
    assert_eq!(total_depth(&w, &t), before);
}
