use omap::coord::{close_line, gap, line_is_closed, line_string_signed_area, within, Coord};
use omap::elevation::parse_elevation;
use omap::height::parse_hundredths;
use omap::geodetic::{
    grid_report, int_sqrt, subtract, Angle, Direction, GeodeticParameters, GridCross, GridPoint, GridReport,
};
use omap::map_coord::{to_map_coordinates, FACTOR_ONE, UNIT};
use omap::{OmapError, Scale};

fn c(x: i64, y: i64) -> Coord {
    Coord { x, y }
}

fn north() -> Direction {
    Direction { cos: 0, sin: UNIT }
}

fn quarter_turn() -> Angle {
    Angle { microdegrees: 90_000_000, direction: north() }
}

fn cross(e: (i64, i64), n: (i64, i64), w: (i64, i64), s: (i64, i64)) -> GridCross {
    GridCross {
        east: GridPoint { easting: e.0, northing: e.1 },
        north: GridPoint { easting: n.0, northing: n.1 },
        west: GridPoint { easting: w.0, northing: w.1 },
        south: GridPoint { easting: s.0, northing: s.1 },
    }
}

#[test]
fn distances_are_exact() {
    assert_eq!(gap(3, -4), 7);
    assert_eq!(gap(i64::MIN, i64::MAX), u64::MAX);
    assert!(within(c(0, 0), c(3, 4), 5));
    assert!(!within(c(0, 0), c(3, 4), 4));
    assert!(within(c(7, 7), c(7, 7), 0));
    assert!(!within(c(i64::MIN, 0), c(i64::MAX, 0), u64::MAX - 1));
    assert!(within(c(i64::MIN, 0), c(i64::MAX, 0), u64::MAX));
    assert!(!within(c(i64::MIN, i64::MIN), c(i64::MAX, i64::MAX), u64::MAX));
}

#[test]
fn a_line_is_closed_when_it_ends_where_it_starts() {
    assert!(line_is_closed(&vec![]));
    assert!(line_is_closed(&vec![c(1, 1)]));
    assert!(line_is_closed(&vec![c(1, 1), c(2, 2), c(1, 1)]));
    assert!(!line_is_closed(&vec![c(1, 1), c(2, 2), c(1, 2)]));
    let mut line = vec![c(1, 1), c(2, 2), c(1, 2)];
    close_line(&mut line);
    assert_eq!(line, vec![c(1, 1), c(2, 2), c(1, 2), c(1, 1)]);
    close_line(&mut line);
    assert_eq!(line.len(), 4);
}

#[test]
fn signed_area_tells_the_direction_of_a_ring() {
    let clockwise = vec![c(0, 0), c(0, 2), c(2, 0), c(0, 0)];
    assert_eq!(line_string_signed_area(&clockwise), -4);
    let counter = vec![c(0, 0), c(2, 0), c(0, 2), c(0, 0)];
    assert_eq!(line_string_signed_area(&counter), 4);
    let open = vec![c(0, 0), c(0, 2), c(2, 0), c(1, 0)];
    assert_eq!(line_string_signed_area(&open), 0);
    let short = vec![c(0, 0), c(0, 0)];
    assert_eq!(line_string_signed_area(&short), 0);
    let square = vec![c(-5, -5), c(5, -5), c(5, 5), c(-5, 5), c(-5, -5)];
    assert_eq!(line_string_signed_area(&square), 200);
}

#[test]
fn signed_area_of_a_huge_ring_keeps_its_sign() {
    let m = i64::MAX;
    let n = i64::MIN;
    let counter = vec![c(n, n), c(m, n), c(m, m), c(n, m), c(n, n)];
    assert_eq!(line_string_signed_area(&counter), i128::MAX);
    let clockwise = vec![c(n, n), c(n, m), c(m, m), c(m, n), c(n, n)];
    assert_eq!(line_string_signed_area(&clockwise), i128::MIN);
    let big = vec![c(0, 0), c(1 << 62, 0), c(0, 1 << 62), c(0, 0)];
    assert_eq!(line_string_signed_area(&big), 1i128 << 124);
}

#[test]
fn a_local_map_divides_by_the_scale() {
    let zero = Direction::zero();
    assert_eq!(to_map_coordinates(c(10_000, -20_000), Scale::S10_000, &zero, FACTOR_ONE), Ok((1000, -2000)));
    assert_eq!(to_map_coordinates(c(15_000, 30), Scale::S15_000, &zero, FACTOR_ONE), Ok((1000, 2)));
    assert_eq!(to_map_coordinates(c(0, 0), Scale::S15_000, &zero, FACTOR_ONE), Ok((0, 0)));
}

#[test]
fn paper_coordinates_round_halves_away_from_zero() {
    let zero = Direction::zero();
    assert_eq!(to_map_coordinates(c(5, -5), Scale::S10_000, &zero, FACTOR_ONE), Ok((1, -1)));
    assert_eq!(to_map_coordinates(c(4, -4), Scale::S10_000, &zero, FACTOR_ONE), Ok((0, 0)));
    assert_eq!(to_map_coordinates(c(14, 16), Scale::S10_000, &zero, FACTOR_ONE), Ok((1, 2)));
    assert_eq!(to_map_coordinates(c(7, 8), Scale::S15_000, &zero, FACTOR_ONE), Ok((0, 1)));
}

#[test]
fn grivation_turns_and_the_scale_factor_stretches() {
    let turn = north();
    assert_eq!(to_map_coordinates(c(1000, 0), Scale::S10_000, &turn, FACTOR_ONE), Ok((0, 100)));
    assert_eq!(to_map_coordinates(c(0, 1000), Scale::S10_000, &turn, FACTOR_ONE), Ok((-100, 0)));
    let zero = Direction::zero();
    assert_eq!(to_map_coordinates(c(1000, 2000), Scale::S10_000, &zero, 1_100_000_000), Ok((110, 220)));
    assert_eq!(to_map_coordinates(c(1000, 2000), Scale::S10_000, &zero, 999_600_000), Ok((100, 200)));
    assert_eq!(to_map_coordinates(c(100_000, 0), Scale::S10_000, &zero, 999_600_000), Ok((9996, 0)));
}

#[test]
fn a_position_off_the_paper_is_an_error() {
    let zero = Direction::zero();
    let edge = i32::MAX as i64 * 10;
    assert_eq!(to_map_coordinates(c(edge, 0), Scale::S10_000, &zero, FACTOR_ONE), Ok((i32::MAX, 0)));
    assert_eq!(
        to_map_coordinates(c(edge + 5, 0), Scale::S10_000, &zero, FACTOR_ONE),
        Err(OmapError::MapCoordinateOverflow)
    );
    let low = i32::MIN as i64 * 10;
    assert_eq!(to_map_coordinates(c(0, low), Scale::S10_000, &zero, FACTOR_ONE), Ok((0, i32::MIN)));
    assert_eq!(
        to_map_coordinates(c(0, low - 5), Scale::S10_000, &zero, FACTOR_ONE),
        Err(OmapError::MapCoordinateOverflow)
    );
    assert_eq!(
        to_map_coordinates(c(i64::MAX, i64::MIN), Scale::S15_000, &zero, u64::MAX),
        Err(OmapError::MapCoordinateOverflow)
    );
    let wild = Direction { cos: i32::MIN, sin: i32::MIN };
    assert_eq!(
        to_map_coordinates(c(i64::MIN, i64::MAX), Scale::S10_000, &wild, u64::MAX),
        Err(OmapError::MapCoordinateOverflow)
    );
}

#[test]
fn a_local_map_has_no_declination_and_no_grivation() {
    let p = GeodeticParameters::compose(c(1, 2), None, Scale::S15_000, Some(quarter_turn()), None).unwrap();
    assert_eq!(p, GeodeticParameters::local(c(1, 2), Scale::S15_000));
    assert_eq!(p.declination, Angle::zero());
    assert_eq!(p.grivation, Direction::zero());
    assert_eq!(p.combined_scale_factor, FACTOR_ONE);
    assert_eq!(p.elevation_scale_factor, FACTOR_ONE);
    assert_eq!(p.epsg, None);
    assert_eq!(p.ref_point, c(1, 2));
}

fn true_cross() -> GridCross {
    let half = 500_000_000;
    cross((half, 0), (0, half), (-half, 0), (0, -half))
}

fn turned_cross() -> GridCross {
    let half = 499_800_000;
    cross((0, half), (-half, 0), (0, -half), (half, 0))
}

#[test]
fn grivation_is_declination_less_convergence() {
    let p = GeodeticParameters::compose(c(0, 0), Some(25833), Scale::S10_000, None, Some(turned_cross()))
        .unwrap();
    assert_eq!(p.declination, Angle::zero());
    assert_eq!(p.grivation, Direction { cos: 0, sin: -UNIT });
    assert_eq!(p.combined_scale_factor, 999_600_000);
    assert_eq!(p.elevation_scale_factor, FACTOR_ONE);
    assert_eq!(p.epsg, Some(25833));
    let q = GeodeticParameters::compose(c(0, 0), Some(1), Scale::S10_000, Some(quarter_turn()), Some(true_cross()))
        .unwrap();
    assert_eq!(q.declination, quarter_turn());
    assert_eq!(q.grivation, north());
    assert_eq!(q.combined_scale_factor, FACTOR_ONE);
    let r = GeodeticParameters::compose(c(0, 0), Some(1), Scale::S10_000, Some(quarter_turn()), Some(turned_cross()))
        .unwrap();
    assert_eq!(r.grivation, Direction::zero());
    assert_eq!(subtract(&north(), &north()), Some(Direction::zero()));
    let half = Direction { cos: 759_250_125, sin: 759_250_125 };
    assert_eq!(subtract(&north(), &half), Some(half));
    assert_eq!(subtract(&half, &north()), Some(Direction { cos: 759_250_125, sin: -759_250_125 }));
}

#[test]
fn a_map_without_a_trusted_grid_is_an_error() {
    let r = GeodeticParameters::compose(c(0, 0), Some(25833), Scale::S10_000, Some(Angle::zero()), None);
    assert_eq!(r, Err(OmapError::Proj));
    let flat = cross((0, 0), (0, 0), (0, 0), (0, 0));
    let r = GeodeticParameters::compose(c(0, 0), Some(25833), Scale::S10_000, None, Some(flat));
    assert_eq!(r, Err(OmapError::Proj));
    let wild = Direction { cos: i32::MAX, sin: i32::MAX };
    let turned = Angle { microdegrees: 0, direction: wild };
    let eighth = cross(
        (300_000_000, 300_000_000),
        (-300_000_000, 300_000_000),
        (-300_000_000, -300_000_000),
        (300_000_000, -300_000_000),
    );
    let r = GeodeticParameters::compose(c(0, 0), Some(1), Scale::S10_000, Some(turned), Some(eighth));
    assert_eq!(r, Err(OmapError::Proj));
    assert_eq!(subtract(&wild, &wild), None);
}

#[test]
fn a_true_grid_has_a_scale_factor_of_one_and_no_convergence() {
    let half = 500_000_000;
    let plain = true_cross();
    assert_eq!(
        grid_report(&plain),
        Ok(GridReport { grid_scale_factor: FACTOR_ONE, convergence: Direction::zero() })
    );
    let moved = cross((half + 7, 9), (7, half + 9), (7 - half, 9), (7, 9 - half));
    assert_eq!(grid_report(&moved), grid_report(&plain));
}

#[test]
fn a_grid_that_shrinks_and_turns_is_told_so() {
    let half = 499_800_000;
    let shrunk = cross((half, 0), (0, half), (-half, 0), (0, -half));
    assert_eq!(
        grid_report(&shrunk),
        Ok(GridReport { grid_scale_factor: 999_600_000, convergence: Direction::zero() })
    );
    let turned = cross((0, half), (-half, 0), (0, -half), (half, 0));
    assert_eq!(
        grid_report(&turned),
        Ok(GridReport { grid_scale_factor: 999_600_000, convergence: north() })
    );
    let eighth = cross((300_000_000, 300_000_000), (-300_000_000, 300_000_000), (-300_000_000, -300_000_000), (300_000_000, -300_000_000));
    assert_eq!(
        grid_report(&eighth),
        Ok(GridReport {
            grid_scale_factor: 848_528_137,
            convergence: Direction { cos: 759_250_125, sin: 759_250_125 }
        })
    );
    let sheared = cross((500_000_000, 0), (100_000_000, 500_000_000), (-500_000_000, 0), (-100_000_000, -500_000_000));
    let report = grid_report(&sheared).unwrap();
    assert_eq!(report.grid_scale_factor, FACTOR_ONE);
    assert_eq!(report.convergence, Direction { cos: 1_068_413_048, sin: -106_841_305 });
}

#[test]
fn a_grid_that_has_broken_down_is_an_error() {
    let flat = cross((0, 0), (0, 0), (0, 0), (0, 0));
    assert_eq!(grid_report(&flat), Err(OmapError::Proj));
    let mirrored = cross((-500_000_000, 0), (0, 500_000_000), (500_000_000, 0), (0, -500_000_000));
    assert_eq!(grid_report(&mirrored), Err(OmapError::Proj));
    let least = cross((50_000_000, 0), (0, 50_000_000), (-50_000_000, 0), (0, -50_000_000));
    assert_eq!(
        grid_report(&least),
        Ok(GridReport { grid_scale_factor: 100_000_000, convergence: Direction::zero() })
    );
    let thin = cross((50_000_000, 0), (0, 49_999_999), (-50_000_000, 0), (0, -50_000_000));
    assert_eq!(grid_report(&thin), Err(OmapError::Proj));
    let far = cross((i64::MAX, i64::MAX), (i64::MIN, i64::MAX), (i64::MIN, i64::MIN), (i64::MAX, i64::MIN));
    assert_eq!(grid_report(&far), Err(OmapError::Proj));
}

#[test]
fn a_grid_that_stretches_is_told_so_however_far() {
    let half = 2_500_000_000;
    let fivefold = cross((half, 0), (0, half), (-half, 0), (0, -half));
    assert_eq!(
        grid_report(&fivefold),
        Ok(GridReport { grid_scale_factor: 5_000_000_000, convergence: Direction::zero() })
    );
    let turned = cross((0, half), (-half, 0), (0, -half), (half, 0));
    assert_eq!(
        grid_report(&turned),
        Ok(GridReport { grid_scale_factor: 5_000_000_000, convergence: north() })
    );
    let uneven = cross((2_000_000_000, 0), (0, 500_000_000), (-2_000_000_001, 0), (0, -500_000_000));
    assert_eq!(
        grid_report(&uneven),
        Ok(GridReport { grid_scale_factor: 2_000_000_000, convergence: Direction::zero() })
    );
    let skew = cross(
        (3_000_000_000, 1_000_000_000),
        (-1_000_000_000, 3_000_000_000),
        (-3_000_000_000, -1_000_000_000),
        (1_000_000_000, -3_000_000_000),
    );
    assert_eq!(
        grid_report(&skew),
        Ok(GridReport {
            grid_scale_factor: 6_324_555_320,
            convergence: Direction { cos: 1_018_640_935, sin: 339_546_978 }
        })
    );
    let most = 1i64 << 61;
    let widest = cross((most, 0), (0, most), (-most, 0), (0, -most));
    assert_eq!(
        grid_report(&widest),
        Ok(GridReport { grid_scale_factor: 1u64 << 62, convergence: Direction::zero() })
    );
    let beyond = cross((most + 1, 0), (0, most), (-most, 0), (0, -most));
    assert_eq!(grid_report(&beyond), Err(OmapError::Proj));
    let p = GeodeticParameters::compose(c(0, 0), Some(1), Scale::S10_000, None, Some(fivefold)).unwrap();
    assert_eq!(p.combined_scale_factor, 5_000_000_000);
    assert_eq!(to_map_coordinates(c(1000, -2000), Scale::S10_000, &p.grivation, p.combined_scale_factor), Ok((500, -1000)));
    let q = GeodeticParameters::compose(c(0, 0), Some(1), Scale::S10_000, None, Some(widest)).unwrap();
    assert_eq!(q.combined_scale_factor, 1u64 << 62);
    assert_eq!(to_map_coordinates(c(0, 0), Scale::S10_000, &q.grivation, q.combined_scale_factor), Ok((0, 0)));
    assert_eq!(
        to_map_coordinates(c(1, 0), Scale::S10_000, &q.grivation, q.combined_scale_factor),
        Ok((461_168_602, 0))
    );
    assert_eq!(
        to_map_coordinates(c(5, 0), Scale::S10_000, &q.grivation, q.combined_scale_factor),
        Err(OmapError::MapCoordinateOverflow)
    );
    assert_eq!(
        to_map_coordinates(c(i64::MAX, i64::MAX), Scale::S10_000, &q.grivation, u64::MAX),
        Err(OmapError::MapCoordinateOverflow)
    );
}

#[test]
fn square_roots_are_cut_to_whole_numbers() {
    assert_eq!(int_sqrt(0), 0);
    assert_eq!(int_sqrt(1), 1);
    assert_eq!(int_sqrt(2), 1);
    assert_eq!(int_sqrt(3), 1);
    assert_eq!(int_sqrt(4), 2);
    assert_eq!(int_sqrt(15), 3);
    assert_eq!(int_sqrt(16), 4);
    assert_eq!(int_sqrt(17), 4);
    assert_eq!(int_sqrt(999_999_999_999_999_999), 999_999_999);
    assert_eq!(int_sqrt(1_000_000_000_000_000_000), 1_000_000_000);
    assert_eq!(int_sqrt((1u128 << 126) - 1), (1u128 << 63) - 1);
    assert_eq!(int_sqrt(u128::MAX), (1u128 << 64) - 1);
    assert_eq!(int_sqrt(1u128 << 126), 1u128 << 63);
}

#[test]
fn heights_are_read_in_hundredths() {
    assert_eq!(parse_elevation("12.5"), Some(1250));
    assert_eq!(parse_elevation("-3"), Some(-300));
    assert_eq!(parse_elevation("+0.129"), Some(12));
    assert_eq!(parse_elevation("5."), Some(500));
    assert_eq!(parse_elevation(".5"), Some(50));
    assert_eq!(parse_elevation("007"), Some(700));
    assert_eq!(parse_elevation("-0.0"), Some(0));
    assert_eq!(parse_elevation("9999999999999999"), Some(999_999_999_999_999_900));
    assert_eq!(parse_elevation("10000000000000000"), Some(1_000_000_000_000_000_000));
    assert_eq!(parse_hundredths(b"100.25"), Some(10025));
}

#[test]
fn an_exponent_moves_the_point() {
    assert_eq!(parse_elevation("1e3"), Some(100_000));
    assert_eq!(parse_elevation("1E2"), Some(10_000));
    assert_eq!(parse_elevation("1e+2"), Some(10_000));
    assert_eq!(parse_elevation("1e0"), Some(100));
    assert_eq!(parse_elevation("1.5e-1"), Some(15));
    assert_eq!(parse_elevation("129e-3"), Some(12));
    assert_eq!(parse_elevation("12e-5"), Some(0));
    assert_eq!(parse_elevation("-2.5e1"), Some(-2500));
    assert_eq!(parse_elevation("1.e5"), Some(10_000_000));
    assert_eq!(parse_elevation(".5e1"), Some(500));
    assert_eq!(parse_elevation("0.009e1"), Some(9));
    assert_eq!(parse_elevation("1234.5678e2"), Some(12_345_678));
    assert_eq!(parse_elevation("1234.5678e-2"), Some(1234));
    assert_eq!(parse_elevation("1234.5678e-4"), Some(12));
    assert_eq!(parse_elevation("1234.5678e-6"), Some(0));
    assert_eq!(parse_elevation("0e99999999999999999999999"), Some(0));
    assert_eq!(parse_elevation("0.000e99999999999999999999999"), Some(0));
    assert_eq!(parse_elevation("5e-99999999999999999999999"), Some(0));
    assert_eq!(parse_elevation("1e000000000000000000000002"), Some(10_000));
}

#[test]
fn a_height_beyond_the_limit_counts_as_the_limit() {
    assert_eq!(parse_elevation("92233720368547758.07"), Some(i64::MAX));
    assert_eq!(parse_elevation("92233720368547758.06"), Some(i64::MAX - 1));
    assert_eq!(parse_elevation("92233720368547758.08"), Some(i64::MAX));
    assert_eq!(parse_elevation("1e99"), Some(i64::MAX));
    assert_eq!(parse_elevation("-1e99"), Some(-i64::MAX));
    assert_eq!(parse_elevation("1e99999999999999999999999"), Some(i64::MAX));
    assert_eq!(parse_elevation("999999999999999999999999999999"), Some(i64::MAX));
    assert_eq!(parse_elevation("-999999999999999999999999999999.5"), Some(-i64::MAX));
    assert_eq!(parse_elevation("0.0000000001e30"), Some(i64::MAX));
    assert_eq!(parse_elevation("0.0000000001e26"), Some(1_000_000_000_000_000_000));
}

#[test]
fn what_is_no_height_is_read_as_none() {
    assert_eq!(parse_elevation(""), None);
    assert_eq!(parse_elevation("."), None);
    assert_eq!(parse_elevation("-"), None);
    assert_eq!(parse_elevation("abc"), None);
    assert_eq!(parse_elevation("1.2.3"), None);
    assert_eq!(parse_elevation("--1"), None);
    assert_eq!(parse_elevation(" 1"), None);
    assert_eq!(parse_elevation("1 "), None);
    assert_eq!(parse_elevation("1,5"), None);
    assert_eq!(parse_elevation("12\u{b0}"), None);
    assert_eq!(parse_elevation("1e"), None);
    assert_eq!(parse_elevation("1e+"), None);
    assert_eq!(parse_elevation("1e-"), None);
    assert_eq!(parse_elevation("e5"), None);
    assert_eq!(parse_elevation("+e1"), None);
    assert_eq!(parse_elevation(".e1"), None);
    assert_eq!(parse_elevation("1e2.5"), None);
    assert_eq!(parse_elevation("1e5e"), None);
    assert_eq!(parse_elevation("1e++5"), None);
    assert_eq!(parse_elevation("inf"), None);
    assert_eq!(parse_elevation("-Infinity"), None);
    assert_eq!(parse_elevation("infinity"), None);
    assert_eq!(parse_elevation("nan"), None);
    assert_eq!(parse_elevation("NaN"), None);
    assert_eq!(parse_elevation("in"), None);
    assert_eq!(parse_elevation("infinit"), None);
    assert_eq!(parse_elevation("infinityy"), None);
    assert_eq!(parse_elevation("nane"), None);
    assert_eq!(parse_elevation("na"), None);
    assert_eq!(parse_elevation("-+inf"), None);
    assert_eq!(parse_hundredths(b"1.x"), None);
}
