//! Terrain construction: exact interpolation at samples, forced-zero
//! borders, and builder validation.

use watersim::fixed::MAX_TERRAIN;
use watersim::terrain::HeightMap;
use watersim::terrain::InvalidPointError;
use watersim::terrain::SamplePoint;
use watersim::DIM;

fn flat_terrain() -> HeightMap {
    HeightMap::from_grid(vec![0i64; DIM * DIM]).unwrap()
}

#[test]
fn exact_interpolation_at_sample() {
    // One sample exactly on cell (10, 10), height 12.5 world units.
    let points = vec![SamplePoint { x: 10_000, y: 10_000, h: 12_500_000 }];
    let hm = HeightMap::new(&points).unwrap();
    assert_eq!(hm.height_at(10, 10), Some(12_500_000));
    assert_eq!(hm.height_points()[10 + 10 * DIM], 12_500_000);
}

#[test]
fn later_sample_wins_at_same_cell() {
    let points = vec![
        SamplePoint { x: 20_000, y: 30_000, h: 1_000_000 },
        SamplePoint { x: 20_000, y: 30_000, h: -2_000_000 },
    ];
    let hm = HeightMap::new(&points).unwrap();
    assert_eq!(hm.height_at(20, 30), Some(-2_000_000));
}

#[test]
fn border_cells_zero() {
    // A single interior sample: the border anchors force all four corners
    // (and the whole border) to exactly zero.
    let points = vec![SamplePoint { x: 50_000, y: 50_000, h: 25_000_000 }];
    let hm = HeightMap::new(&points).unwrap();
    assert_eq!(hm.height_at(0, 0), Some(0));
    assert_eq!(hm.height_at(DIM - 1, 0), Some(0));
    assert_eq!(hm.height_at(0, DIM - 1), Some(0));
    assert_eq!(hm.height_at(DIM - 1, DIM - 1), Some(0));
    assert_eq!(hm.height_at(37, 0), Some(0));
    assert_eq!(hm.height_at(0, 64), Some(0));
}

#[test]
fn interior_interpolation_between_bounds() {
    // With one positive sample every interpolated height stays inside the
    // sample range, and a cell next to the sample leans toward it.
    let points = vec![SamplePoint { x: 50_000, y: 50_000, h: 25_000_000 }];
    let hm = HeightMap::new(&points).unwrap();
    let grid = hm.height_points();
    for &h in grid.iter() {
        assert!(-MAX_TERRAIN < h && h < MAX_TERRAIN);
        assert!(h >= 0);
    }
    let near = grid[51 + 50 * DIM];
    let far = grid[90 + 50 * DIM];
    assert!(near > far);
}

#[test]
fn builder_rejects_out_of_range_sample() {
    let points = vec![
        SamplePoint { x: 10_000, y: 10_000, h: 1_000_000 },
        SamplePoint { x: 99_500, y: 10_000, h: 1_000_000 },
    ];
    match HeightMap::new(&points) {
        Err(InvalidPointError::PointOutOfRange { index }) => assert_eq!(index, 1),
        other => panic!("expected PointOutOfRange, got {:?}", other),
    }
    let heights_too_big = vec![SamplePoint { x: 10_000, y: 10_000, h: 50_000_000 }];
    assert!(matches!(
        HeightMap::new(&heights_too_big),
        Err(InvalidPointError::PointOutOfRange { index: 0 })
    ));
}

#[test]
fn builder_rejects_too_many_samples() {
    let points = vec![SamplePoint { x: 10_000, y: 10_000, h: 0 }; 10_001];
    assert!(matches!(HeightMap::new(&points), Err(InvalidPointError::TooManyPoints)));
}

#[test]
fn from_grid_validates() {
    assert!(HeightMap::from_grid(vec![0i64; DIM * DIM]).is_some());
    assert!(HeightMap::from_grid(vec![0i64; DIM]).is_none());
    assert!(HeightMap::from_grid(vec![50_000_000i64; DIM * DIM]).is_none());
    let hm = flat_terrain();
    assert_eq!(hm.height_at(42, 17), Some(0));
    assert_eq!(hm.height_at(DIM, 0), None);
}
