//! The point-file parser: exact decimal values, and one test per error
//! variant with its reported line, field and token.

use watersim::parse::load_height_map;
use watersim::parse::parse_points;
use watersim::terrain::InvalidPointError;
use watersim::terrain::SamplePoint;

#[test]
fn parse_exact_values() {
    let data = b"10 20 5.5\n0.5 99.25 -49.999999\n+3.0005 4. .5\n".to_vec();
    let pts = parse_points(&data).unwrap();
    assert_eq!(
        pts,
        vec![
            SamplePoint { x: 10_000, y: 20_000, h: 5_500_000 },
            SamplePoint { x: 500, y: 99_250, h: -49_999_999 },
            // coordinate scale keeps three decimals, so 3.0005 truncates
            SamplePoint { x: 3_000, y: 4_000, h: 500_000 },
        ]
    );
}

#[test]
fn parse_empty_file_is_empty() {
    assert_eq!(parse_points(&Vec::new()).unwrap(), Vec::new());
}

#[test]
fn parse_rejects_not_enough_values() {
    let data = b"1 2\n".to_vec();
    assert_eq!(
        parse_points(&data).unwrap_err(),
        InvalidPointError::NotEnoughValues { line: 1 }
    );
}

#[test]
fn parse_rejects_empty_line() {
    let data = b"1 2 3\n\n4 5 6\n".to_vec();
    assert_eq!(
        parse_points(&data).unwrap_err(),
        InvalidPointError::NotEnoughValues { line: 2 }
    );
}

#[test]
fn parse_rejects_too_many_values() {
    let data = b"1 2 3 4\n".to_vec();
    assert_eq!(
        parse_points(&data).unwrap_err(),
        InvalidPointError::TooManyValues { line: 1 }
    );
}

#[test]
fn parse_rejects_bad_number() {
    let data = b"1 x2 3\n".to_vec();
    assert_eq!(
        parse_points(&data).unwrap_err(),
        InvalidPointError::BadNumber { line: 1, pos: 2, token: b"x2".to_vec() }
    );
    let data2 = b"1 2 1.2.3\n".to_vec();
    assert_eq!(
        parse_points(&data2).unwrap_err(),
        InvalidPointError::BadNumber { line: 1, pos: 3, token: b"1.2.3".to_vec() }
    );
}

#[test]
fn parse_rejects_coordinate_out_of_range() {
    // 0 and 100 are rejected: the border anchors stay authoritative.
    let data = b"0 5 1\n".to_vec();
    assert_eq!(
        parse_points(&data).unwrap_err(),
        InvalidPointError::CoordOutOfRange { line: 1, pos: 1, token: b"0".to_vec() }
    );
    let data2 = b"5 100 1\n".to_vec();
    assert_eq!(
        parse_points(&data2).unwrap_err(),
        InvalidPointError::CoordOutOfRange { line: 1, pos: 2, token: b"100".to_vec() }
    );
}

#[test]
fn parse_rejects_height_out_of_range() {
    let data = b"5 5 50\n".to_vec();
    assert_eq!(
        parse_points(&data).unwrap_err(),
        InvalidPointError::HeightOutOfRange { line: 1, pos: 3, token: b"50".to_vec() }
    );
    let data2 = b"5 5 -50.000001\n".to_vec();
    assert_eq!(
        parse_points(&data2).unwrap_err(),
        InvalidPointError::HeightOutOfRange { line: 1, pos: 3, token: b"-50.000001".to_vec() }
    );
}

#[test]
fn parse_reports_second_line() {
    let data = b"1 1 1\nbad\n".to_vec();
    assert_eq!(
        parse_points(&data).unwrap_err(),
        InvalidPointError::BadNumber { line: 2, pos: 1, token: b"bad".to_vec() }
    );
}

#[test]
fn parse_huge_magnitude_is_out_of_range() {
    let data = b"99999999999999999999 5 1\n".to_vec();
    assert!(matches!(
        parse_points(&data).unwrap_err(),
        InvalidPointError::CoordOutOfRange { line: 1, pos: 1, token: _ }
    ));
}

#[test]
fn load_builds_terrain_from_file() {
    let data = b"10 10 12.5\n".to_vec();
    let hm = load_height_map(&data).unwrap();
    assert_eq!(hm.height_at(10, 10), Some(12_500_000));
    assert_eq!(hm.height_at(0, 0), Some(0));
}

#[test]
fn load_rejects_fractional_coordinate_off_grid() {
    // 99.5 passes the file's open interval but lies outside the grid's
    // last cell, so the builder refuses the sample.
    let data = b"99.5 10 1\n".to_vec();
    assert!(matches!(
        load_height_map(&data).unwrap_err(),
        InvalidPointError::PointOutOfRange { index: 0 }
    ));
}
