use omap::area_object::AreaObject;
use omap::coord::Coord;
use omap::decimal::{push_fixed, push_fraction, push_int, push_nat, push_padded};
use omap::document::{Catalog, GeoPoint};
use omap::geodetic::{Angle, Direction, GridCross, GridPoint};
use omap::line_object::LineObject;
use omap::map_coord::{FACTOR_ONE, UNIT};
use omap::map_object::MapObject;
use omap::point_object::PointObject;
use omap::symbol::{Geometry, Symbol};
use omap::tag::Tag;
use omap::text::{
    count_curve, push_coords, push_curve, push_polyline, push_tags, push_vertex, Layout, PaperSegment,
    Segment,
};
use omap::{Omap, OmapError, Scale};

fn at(x: i64, y: i64) -> Coord {
    Coord { x, y }
}

fn plain() -> Layout {
    Layout { scale: Scale::S10_000, grivation: Direction::zero(), combined_scale_factor: FACTOR_ONE }
}

fn catalog() -> Catalog {
    Catalog {
        colors: String::from("<colors/>\n"),
        symbols_10_000: String::from("<symbols id=\"10\"/>\n"),
        symbols_15_000: String::from("<symbols id=\"15\"/>\n"),
    }
}

fn line_symbol() -> Symbol {
    Symbol::new(12, Geometry::Line)
}

const OPENING: &str = "<?xml version=\"1.0\" encoding=\"UTF-8\"?>\n<map xmlns=\"http://openorienteering.org/apps/mapper/xml/v2\" version=\"9\">\n<notes></notes>\n";

const CLOSING: &str = "<templates count=\"0\" first_front_template=\"0\">\n<defaults use_meters_per_pixel=\"true\" meters_per_pixel=\"0\" dpi=\"0\" scale=\"0\"/></templates>\n<view>\n<grid color=\"#646464\" display=\"0\" alignment=\"0\" additional_rotation=\"0\" unit=\"1\" h_spacing=\"500\" v_spacing=\"500\" h_offset=\"0\" v_offset=\"0\" snapping_enabled=\"true\"/>\n<map_view zoom=\"1\" position_x=\"0\" position_y=\"0\"><map opacity=\"1\" visible=\"true\"/><templates count=\"0\"/></map_view>\n</view>\n</map>";

#[test]
fn whole_numbers_are_written_in_decimal() {
    let mut s = String::from(">");
    push_int(&mut s, 0);
    s.push(' ');
    push_int(&mut s, -7);
    s.push(' ');
    push_int(&mut s, 1203);
    s.push(' ');
    push_int(&mut s, i64::MIN);
    s.push(' ');
    push_int(&mut s, i64::MAX);
    s.push(' ');
    push_nat(&mut s, u128::MAX);
    assert_eq!(
        s,
        ">0 -7 1203 -9223372036854775808 9223372036854775807 340282366920938463463374607431768211455"
    );
}

#[test]
fn fixed_point_numbers_are_written_in_their_shortest_form() {
    let mut s = String::new();
    push_fixed(&mut s, 1_500_000, 6);
    s.push(' ');
    push_fixed(&mut s, -1, 3);
    s.push(' ');
    push_fixed(&mut s, 0, 2);
    s.push(' ');
    push_fixed(&mut s, 12, 0);
    s.push(' ');
    push_fixed(&mut s, 1_000_000_000, 9);
    s.push(' ');
    push_fixed(&mut s, -90_000_001, 6);
    s.push(' ');
    push_fixed(&mut s, i64::MIN, 30);
    s.push(' ');
    push_fixed(&mut s, 12_500, 3);
    s.push(' ');
    push_fixed(&mut s, -120, 2);
    s.push(' ');
    push_fixed(&mut s, 100, 2);
    s.push(' ');
    push_fixed(&mut s, 1_010, 3);
    s.push(' ');
    push_fixed(&mut s, -5, 1);
    assert_eq!(
        s,
        "1.5 -0.001 0 12 1 -90.000001 -0.000000000009223372036854775808 12.5 -1.2 1 1.01 -0.5"
    );
}

#[test]
fn fractions_lose_the_zeros_at_their_end() {
    let mut s = String::new();
    push_padded(&mut s, 1234, 2);
    s.push(' ');
    push_padded(&mut s, 5, 3);
    s.push(' ');
    push_fraction(&mut s, 1_500, 3);
    s.push(' ');
    push_fraction(&mut s, 7_050, 6);
    s.push(' ');
    push_fraction(&mut s, 3_000, 3);
    s.push(' ');
    push_fraction(&mut s, 9, 0);
    s.push(' ');
    push_fraction(&mut s, 1, 3);
    assert_eq!(s, "34 005 5 00705   001");
}

#[test]
fn positions_are_written_with_their_flags() {
    let mut s = String::new();
    push_vertex(&mut s, (1, -2), None);
    push_vertex(&mut s, (30, 40), Some(18));
    push_vertex(&mut s, (-5, 0), Some(1));
    assert_eq!(s, "1 -2;30 40 18;-5 0 1;");
}

#[test]
fn an_open_line_ends_plain_and_a_closed_one_with_the_flag() {
    let points = vec![(0, 0), (10, 0), (10, 10)];
    let mut s = String::new();
    push_polyline(&mut s, &points, false);
    assert_eq!(s, "0 0;10 0;10 10;");
    let mut s = String::new();
    push_polyline(&mut s, &points, true);
    assert_eq!(s, "0 0;10 0;10 10 18;");
    let mut s = String::from("x");
    push_polyline(&mut s, &Vec::new(), true);
    assert_eq!(s, "x");
}

#[test]
fn a_curve_writes_its_pieces_and_the_end_of_the_last() {
    let pieces = vec![
        PaperSegment::Line { start: (0, 0), end: (10, 0) },
        PaperSegment::Bezier { start: (10, 0), handle1: (12, 3), handle2: (15, 5), end: (20, 5) },
    ];
    let mut s = String::new();
    push_curve(&mut s, &pieces, false);
    assert_eq!(s, "0 0;10 0 1;12 3;15 5;20 5;");
    assert_eq!(count_curve(&pieces), Some(5));
    let turned = vec![
        PaperSegment::Bezier { start: (10, 0), handle1: (12, 3), handle2: (15, 5), end: (20, 5) },
        PaperSegment::Line { start: (20, 5), end: (10, 0) },
    ];
    let mut s = String::new();
    push_curve(&mut s, &turned, true);
    assert_eq!(s, "10 0 1;12 3;15 5;20 5;10 0 18;");
    assert_eq!(count_curve(&turned), Some(5));
    assert_eq!(count_curve(&Vec::new()), Some(0));
}

#[test]
fn tags_are_written_only_where_there_are_any() {
    let mut s = String::new();
    push_tags(&mut s, &Vec::new());
    assert_eq!(s, "");
    let tags = vec![
        Tag { key: String::from("Elevation"), value: String::from("105") },
        Tag { key: String::from("navn"), value: String::from("Bl\u{e5}fjell") },
    ];
    push_tags(&mut s, &tags);
    assert_eq!(s, "<tags><t k=\"Elevation\">105</t><t k=\"navn\">Bl\u{e5}fjell</t></tags>");
    let mut s = String::new();
    push_coords(&mut s, 3, "1 2;");
    assert_eq!(s, "<coords count=\"3\">1 2;</coords>");
}

#[test]
fn a_line_is_written_position_by_position() {
    let mut line = LineObject::from_symbol(line_symbol(), vec![at(0, 0), at(1000, 0), at(1000, 2000)]);
    line.add_tag("Elevation", "50");
    let mut s = String::new();
    assert_eq!(line.write_to_map(&mut s, None, &plain()), Ok(()));
    assert_eq!(
        s,
        "<object type=\"1\" symbol=\"12\"><tags><t k=\"Elevation\">50</t></tags><coords count=\"3\">0 0;100 0;100 200;</coords></object>\n"
    );
    let ring = LineObject::from_symbol(line_symbol(), vec![at(0, 0), at(1000, 0), at(0, 1000), at(0, 0)]);
    let mut s = String::new();
    assert_eq!(ring.write_polyline(&mut s, &plain()), Ok(()));
    assert_eq!(s, "<coords count=\"4\">0 0;100 0;0 100;0 0 18;</coords>");
}

#[test]
fn a_line_is_written_as_the_curve_fitted_to_it() {
    let line = LineObject::from_symbol(line_symbol(), vec![at(0, 0), at(500, 300), at(1000, 0)]);
    let fit = vec![
        Segment::Bezier { start: at(0, 0), handle1: at(200, 400), handle2: at(800, 400), end: at(1000, 0) },
    ];
    let mut s = String::new();
    assert_eq!(line.write_bezier(&mut s, &fit, &plain()), Ok(()));
    assert_eq!(s, "<coords count=\"4\">0 0 1;20 40;80 40;100 0;</coords>");
    let ring = LineObject::from_symbol(line_symbol(), vec![at(0, 0), at(1000, 0), at(0, 1000), at(0, 0)]);
    let fit = vec![
        Segment::Line { start: at(0, 0), end: at(1000, 0) },
        Segment::Bezier { start: at(1000, 0), handle1: at(900, 500), handle2: at(500, 900), end: at(0, 1000) },
        Segment::Line { start: at(0, 1000), end: at(0, 0) },
    ];
    let mut s = String::new();
    assert_eq!(ring.write_coords(&mut s, Some(&fit), &plain()), Ok(()));
    assert_eq!(s, "<coords count=\"6\">0 0;100 0 1;90 50;50 90;0 100;0 0 18;</coords>");
}

#[test]
fn a_line_that_cannot_be_written_writes_nothing() {
    let far = LineObject::from_symbol(line_symbol(), vec![at(0, 0), at(i64::MAX, 0)]);
    let mut s = String::from("before");
    assert_eq!(far.write_to_map(&mut s, None, &plain()), Err(OmapError::MapCoordinateOverflow));
    assert_eq!(s, "before");
    let short = LineObject::from_symbol(line_symbol(), vec![at(0, 0)]);
    assert_eq!(short.write_to_map(&mut s, None, &plain()), Err(OmapError::MismatchedGeometry));
    let wrong = LineObject::from_symbol(Symbol::new(1, Geometry::Area), vec![at(0, 0), at(1, 1)]);
    assert_eq!(wrong.write_to_map(&mut s, None, &plain()), Err(OmapError::MismatchedGeometry));
    let line = LineObject::from_symbol(line_symbol(), vec![at(0, 0), at(1, 1)]);
    assert_eq!(line.write_bezier(&mut s, &Vec::new(), &plain()), Err(OmapError::MismatchedGeometry));
    let fit = vec![Segment::Line { start: at(0, 0), end: at(0, i64::MIN) }];
    assert_eq!(line.write_bezier(&mut s, &fit, &plain()), Err(OmapError::MapCoordinateOverflow));
    assert_eq!(s, "before");
}

#[test]
fn an_area_is_written_ring_by_ring_under_one_count() {
    let symbol = Symbol::new(30, Geometry::Area);
    let area = AreaObject::from_polygon(
        symbol,
        vec![at(0, 0), at(10_000, 0), at(10_000, 10_000), at(0, 10_000)],
        vec![vec![at(2000, 2000), at(4000, 2000), at(2000, 4000), at(2000, 2000)]],
    );
    assert_eq!(area.exterior.len(), 5);
    assert_eq!(area.exterior[4], at(0, 0));
    assert_eq!(area.interiors[0].len(), 4);
    let mut s = String::new();
    assert_eq!(area.write_to_map(&mut s, None, &plain()), Ok(()));
    assert_eq!(
        s,
        "<object type=\"1\" symbol=\"30\"><coords count=\"9\">0 0;1000 0;1000 1000;0 1000;0 0 18;200 200;400 200;200 400;200 200 18;</coords></object>\n"
    );
}

#[test]
fn an_area_is_written_as_the_curves_fitted_to_its_rings() {
    let symbol = Symbol::new(30, Geometry::Area);
    let area = AreaObject::from_polygon(
        symbol,
        vec![at(0, 0), at(1000, 0), at(0, 1000)],
        vec![vec![at(100, 100), at(200, 100), at(100, 200)]],
    );
    let fits = vec![
        vec![
            Segment::Line { start: at(0, 0), end: at(1000, 0) },
            Segment::Line { start: at(1000, 0), end: at(0, 1000) },
            Segment::Line { start: at(0, 1000), end: at(0, 0) },
        ],
        vec![Segment::Bezier {
            start: at(100, 100),
            handle1: at(300, 100),
            handle2: at(100, 300),
            end: at(100, 100),
        }],
    ];
    let mut s = String::new();
    assert_eq!(area.write_bezier(&mut s, &fits, &plain()), Ok(()));
    assert_eq!(
        s,
        "<coords count=\"8\">0 0;100 0;0 100;0 0 18;10 10 1;30 10;10 30;10 10 18;</coords>"
    );
    let mut s = String::from("kept");
    let one = vec![fits[0].clone()];
    assert_eq!(area.write_bezier(&mut s, &one, &plain()), Err(OmapError::MismatchedGeometry));
    let hollow = vec![fits[0].clone(), Vec::new()];
    assert_eq!(area.write_bezier(&mut s, &hollow, &plain()), Err(OmapError::MismatchedGeometry));
    let line_like = AreaObject::from_polygon(line_symbol(), vec![at(0, 0), at(1, 0), at(0, 1)], Vec::new());
    assert_eq!(line_like.write_polyline(&mut s, &plain()), Err(OmapError::MismatchedGeometry));
    let empty = AreaObject::from_polygon(symbol, Vec::new(), Vec::new());
    assert_eq!(empty.write_polyline(&mut s, &plain()), Err(OmapError::MismatchedGeometry));
    let far = AreaObject::from_polygon(symbol, vec![at(0, 0), at(0, i64::MAX), at(1, 1)], Vec::new());
    assert_eq!(far.write_polyline(&mut s, &plain()), Err(OmapError::MapCoordinateOverflow));
    assert_eq!(s, "kept");
}

#[test]
fn a_point_is_written_with_its_turn() {
    let symbol = Symbol::new(4, Geometry::Point);
    let mut point = PointObject::from_point(at(12_340, -50), symbol, 1_570_796);
    point.add_tag("kind", "boulder");
    let mut s = String::new();
    assert_eq!(point.write_to_map(&mut s, &plain()), Ok(()));
    assert_eq!(
        s,
        "<object type=\"0\" symbol=\"4\" rotation=\"1.570796\"><tags><t k=\"kind\">boulder</t></tags><coords count=\"1\">1234 -5;</coords></object>\n"
    );
    let object = MapObject::PointObject(PointObject::from_point(at(0, 0), symbol, -250_000));
    let fits = vec![vec![Segment::Line { start: at(0, 0), end: at(1, 1) }]];
    let mut s = String::new();
    assert_eq!(object.write_to_map(&mut s, Some(&fits), &plain()), Ok(()));
    assert_eq!(
        s,
        "<object type=\"0\" symbol=\"4\" rotation=\"-0.25\"><coords count=\"1\">0 0;</coords></object>\n"
    );
    let wrong = PointObject::from_point(at(0, 0), line_symbol(), 0);
    assert_eq!(wrong.write_to_map(&mut s, &plain()), Err(OmapError::MismatchedGeometry));
    let far = PointObject::from_point(at(i64::MIN, 0), symbol, 0);
    assert_eq!(far.write_to_map(&mut s, &plain()), Err(OmapError::MapCoordinateOverflow));
}

#[test]
fn a_local_map_is_written_whole() {
    let mut map = Omap::new(at(569_123_450, 6_640_000_000), None, Scale::S15_000, None, None).unwrap();
    let mut contour = LineObject::from_symbol(line_symbol(), vec![at(0, 0), at(15_000, 0), at(15_000, 30_000)]);
    contour.add_tag("Elevation", "120");
    map.add_object(MapObject::LineObject(contour));
    map.add_object(MapObject::PointObject(PointObject::from_point(
        at(-1500, 3000),
        Symbol::new(4, Geometry::Point),
        0,
    )));
    let text = map.into_text(None, &catalog(), None).unwrap();
    let expected = String::from(OPENING)
        + "<georeferencing scale=\"15000\"><projected_crs id=\"Local\"><ref_point x=\"569123.45\" y=\"6640000\"/></projected_crs></georeferencing>\n"
        + "<colors/>\n<symbols id=\"15\"/>\n"
        + "<parts count=\"1\" current=\"0\">\n<part name=\"map\"><objects count=\"2\">\n"
        + "<object type=\"1\" symbol=\"12\"><tags><t k=\"Elevation\">120</t></tags><coords count=\"3\">0 0;1000 0;1000 2000;</coords></object>\n"
        + "<object type=\"0\" symbol=\"4\" rotation=\"0\"><coords count=\"1\">-100 200;</coords></object>\n"
        + "</objects></part>\n</parts>\n"
        + CLOSING;
    assert_eq!(text, expected);
}

#[test]
fn a_projected_map_is_written_with_its_georeferencing() {
    let declination = Angle { microdegrees: 4_250_000, direction: Direction { cos: UNIT, sin: 0 } };
    let grid = GridCross {
        east: GridPoint { easting: 499_800_000, northing: 0 },
        north: GridPoint { easting: 0, northing: 499_800_000 },
        west: GridPoint { easting: -499_800_000, northing: 0 },
        south: GridPoint { easting: 0, northing: -499_800_000 },
    };
    let map = Omap::new(at(500_000_000, 6_000_000_500), Some(25832), Scale::S10_000, Some(declination), Some(grid))
        .unwrap();
    assert_eq!(map.get_crs(), Some(25832));
    assert_eq!(map.get_ref_point(), at(500_000_000, 6_000_000_500));
    let place = GeoPoint { lat: 54_123_456, lon: -9_000_001 };
    let missing = Omap::new(at(0, 0), Some(25832), Scale::S10_000, None, Some(grid))
        .unwrap()
        .into_text(None, &catalog(), None);
    assert_eq!(missing, Err(OmapError::Proj));
    let text = map.into_text(None, &catalog(), Some(place)).unwrap();
    let expected = String::from(OPENING)
        + "<georeferencing scale=\"10000\" auxiliary_scale_factor=\"1\" declination=\"4.25\">"
        + "<projected_crs id=\"EPSG\"><spec language=\"PROJ.4\">+init=epsg:25832</spec><parameter>25832</parameter>"
        + "<ref_point x=\"500000\" y=\"6000000.5\"/></projected_crs>"
        + "<geographic_crs id=\"Geographic coordinates\"><spec language=\"PROJ.4\">+proj=latlong +datum=WGS84</spec>"
        + "<ref_point_deg lat=\"54.123456\" lon=\"-9.000001\"/></geographic_crs></georeferencing>"
        + "<colors/>\n<symbols id=\"10\"/>\n"
        + "<parts count=\"1\" current=\"0\">\n<part name=\"map\"><objects count=\"0\">\n"
        + "</objects></part>\n</parts>\n"
        + CLOSING;
    assert_eq!(text, expected);
}

#[test]
fn a_map_is_written_as_curves_for_the_fits_it_asked_for() {
    let mut map = Omap::new(at(0, 0), None, Scale::S10_000, None, None).unwrap();
    let area_symbol = Symbol::new(30, Geometry::Area);
    map.add_object(MapObject::LineObject(LineObject::from_symbol(
        line_symbol(),
        vec![at(0, 0), at(1000, 0)],
    )));
    map.add_object(MapObject::PointObject(PointObject::from_point(
        at(10, 10),
        Symbol::new(4, Geometry::Point),
        0,
    )));
    map.add_object(MapObject::AreaObject(AreaObject::from_polygon(
        area_symbol,
        vec![at(0, 0), at(100, 0), at(0, 100)],
        vec![vec![at(10, 10), at(20, 10), at(10, 20)]],
    )));
    map.add_object(MapObject::LineObject(LineObject::from_symbol(
        line_symbol(),
        vec![at(50, 50), at(60, 60), at(50, 50)],
    )));
    let asked = map.curve_requests();
    assert_eq!(
        asked,
        vec![
            vec![at(0, 0), at(1000, 0)],
            vec![at(50, 50), at(60, 60), at(50, 50)],
            vec![at(0, 0), at(100, 0), at(0, 100), at(0, 0)],
            vec![at(10, 10), at(20, 10), at(10, 20), at(10, 10)],
        ]
    );
    let fits: Vec<Vec<Segment>> = asked
        .iter()
        .map(|l| vec![Segment::Line { start: l[0], end: l[l.len() - 1] }])
        .collect();
    let text = map.into_text(Some(&fits), &catalog(), None).unwrap();
    let expected = String::from(OPENING)
        + "<georeferencing scale=\"10000\"><projected_crs id=\"Local\"><ref_point x=\"0\" y=\"0\"/></projected_crs></georeferencing>\n"
        + "<colors/>\n<symbols id=\"10\"/>\n"
        + "<parts count=\"1\" current=\"0\">\n<part name=\"map\"><objects count=\"4\">\n"
        + "<object type=\"1\" symbol=\"12\"><coords count=\"2\">0 0;100 0;</coords></object>\n"
        + "<object type=\"1\" symbol=\"12\"><coords count=\"2\">5 5;5 5 18;</coords></object>\n"
        + "<object type=\"0\" symbol=\"4\" rotation=\"0\"><coords count=\"1\">1 1;</coords></object>\n"
        + "<object type=\"1\" symbol=\"30\"><coords count=\"4\">0 0;0 0 18;1 1;1 1 18;</coords></object>\n"
        + "</objects></part>\n</parts>\n"
        + CLOSING;
    assert_eq!(text, expected);
}

#[test]
fn a_map_with_the_wrong_number_of_fits_is_not_written() {
    let mut map = Omap::new(at(0, 0), None, Scale::S10_000, None, None).unwrap();
    map.add_object(MapObject::LineObject(LineObject::from_symbol(
        line_symbol(),
        vec![at(0, 0), at(1000, 0)],
    )));
    let none: Vec<Vec<Segment>> = Vec::new();
    assert_eq!(map.into_text(Some(&none), &catalog(), None), Err(OmapError::MismatchedGeometry));
    let mut map = Omap::new(at(0, 0), None, Scale::S10_000, None, None).unwrap();
    map.add_object(MapObject::LineObject(LineObject::from_symbol(
        line_symbol(),
        vec![at(0, 0), at(i64::MAX, 0)],
    )));
    assert_eq!(map.into_text(None, &catalog(), None), Err(OmapError::MapCoordinateOverflow));
}

#[test]
fn a_local_map_at_the_origin_names_it_plainly() {
    let map = Omap::new(at(0, 0), None, Scale::S15_000, None, None).unwrap();
    let empty = Catalog {
        colors: String::new(),
        symbols_10_000: String::new(),
        symbols_15_000: String::new(),
    };
    let text = map.into_text(None, &empty, None).unwrap();
    let header = String::from(OPENING)
        + "<georeferencing scale=\"15000\"><projected_crs id=\"Local\"><ref_point x=\"0\" y=\"0\"/></projected_crs></georeferencing>\n";
    assert!(text.starts_with(&header));
    let point = PointObject::from_point(at(0, 0), Symbol::new(8, Geometry::Point), 0);
    let mut s = String::new();
    let layout = Layout { scale: Scale::S15_000, grivation: Direction::zero(), combined_scale_factor: FACTOR_ONE };
    assert_eq!(point.write_to_map(&mut s, &layout), Ok(()));
    assert_eq!(
        s,
        "<object type=\"0\" symbol=\"8\" rotation=\"0\"><coords count=\"1\">0 0;</coords></object>\n"
    );
}
