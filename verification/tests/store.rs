use omap::calendar::model_date_from;
use omap::coord::Coord;
use omap::line_object::LineObject;
use omap::map_object::MapObject;
use omap::point_object::PointObject;
use omap::symbol::{Geometry, Symbol, BASEMAP_CONTOUR, NEG_BASEMAP_CONTOUR};
use omap::tag::{find_tag, set_tag, str_equal, Tag};
use omap::{Omap, OmapError, Scale};

fn at(x: i64, y: i64) -> Coord {
    Coord { x, y }
}

fn local_map() -> Omap {
    Omap::new(at(0, 0), None, Scale::S10_000, None, None).unwrap()
}

fn contour(points: &[(i64, i64)]) -> MapObject {
    MapObject::LineObject(LineObject::from_symbol(
        Symbol::basemap_contour(),
        points.iter().map(|p| at(p.0, p.1)).collect(),
    ))
}

fn points_of(o: &MapObject) -> Vec<(i64, i64)> {
    match o {
        MapObject::LineObject(l) => l.line.iter().map(|p| (p.x, p.y)).collect(),
        _ => panic!("a feature that is no line"),
    }
}

#[test]
fn features_are_kept_by_symbol_in_the_order_they_came() {
    let mut map = local_map();
    let a = Symbol::new(10, Geometry::Line);
    let b = Symbol::new(20, Geometry::Point);
    map.add_object(MapObject::LineObject(LineObject::from_symbol(a, vec![at(0, 0), at(1, 1)])));
    map.add_object(MapObject::PointObject(PointObject::from_point(at(5, 5), b, 0)));
    map.add_object(MapObject::LineObject(LineObject::from_symbol(a, vec![at(2, 2), at(3, 3)])));
    assert_eq!(map.bucket_count(), 2);
    assert_eq!(map.bucket(0).symbol, a);
    assert_eq!(map.bucket(1).symbol, b);
    assert_eq!(map.bucket(0).objects.len(), 2);
    assert_eq!(points_of(&map.bucket(0).objects[0]), vec![(0, 0), (1, 1)]);
    assert_eq!(points_of(&map.bucket(0).objects[1]), vec![(2, 2), (3, 3)]);
    assert_eq!(map.bucket(1).objects.len(), 1);
    assert_eq!(map.bucket(1).objects[0].symbol(), b);
    assert_eq!(map.bucket_count(), map.bucket_count());
}

#[test]
fn reserving_makes_an_empty_bucket_once() {
    let mut map = local_map();
    let a = Symbol::new(10, Geometry::Line);
    map.reserve_capacity(a, 100);
    assert_eq!(map.bucket_count(), 1);
    assert_eq!(map.bucket(0).objects.len(), 0);
    assert!(map.bucket(0).objects.capacity() >= 100);
    map.add_object(MapObject::LineObject(LineObject::from_symbol(a, vec![at(0, 0), at(1, 1)])));
    map.reserve_capacity(a, 5);
    assert_eq!(map.bucket_count(), 1);
    assert_eq!(map.bucket(0).objects.len(), 1);
}

#[test]
fn a_new_map_is_empty_and_a_map_without_grid_is_none() {
    let map = local_map();
    assert_eq!(map.bucket_count(), 0);
    assert_eq!(map.get_crs(), None);
    assert_eq!(map.get_ref_point(), at(0, 0));
    assert_eq!(map.parameters().scale, Scale::S10_000);
    assert_eq!(Scale::S10_000.denominator(), 10_000);
    assert_eq!(Scale::S15_000.denominator(), 15_000);
    assert_eq!(Scale::S10_000.to_text(), "10000");
    assert_eq!(Scale::S15_000.to_text(), "15000");
    let failed = Omap::new(at(0, 0), Some(25833), Scale::S10_000, None, None);
    assert!(matches!(failed, Err(OmapError::Proj)));
}

#[test]
fn a_clockwise_ring_is_marked_as_a_depression() {
    let mut map = local_map();
    map.add_object(contour(&[(0, 0), (0, 2), (2, 0), (0, 0)]));
    map.mark_basemap_depressions();
    assert_eq!(map.bucket_count(), 2);
    assert_eq!(map.bucket(0).symbol.code, BASEMAP_CONTOUR);
    assert_eq!(map.bucket(0).objects.len(), 0);
    assert_eq!(map.bucket(1).symbol, Symbol::neg_basemap_contour());
    assert_eq!(map.bucket(1).symbol.code, NEG_BASEMAP_CONTOUR);
    assert_eq!(map.bucket(1).objects.len(), 1);
    assert_eq!(map.bucket(1).objects[0].symbol(), Symbol::neg_basemap_contour());
    assert_eq!(points_of(&map.bucket(1).objects[0]), vec![(0, 0), (0, 2), (2, 0), (0, 0)]);
    let catalog = omap::document::Catalog {
        colors: String::new(),
        symbols_10_000: String::new(),
        symbols_15_000: String::new(),
    };
    let text = map.into_text(None, &catalog, None).unwrap();
    assert!(text.contains("<object type=\"1\" symbol=\"3\"><coords count=\"4\">"));
    assert!(!text.contains("symbol=\"2\""));
}

#[test]
fn hills_open_lines_and_other_symbols_stay() {
    let mut map = local_map();
    let other = Symbol::new(9, Geometry::Line);
    map.add_object(contour(&[(0, 0), (2, 0), (0, 2), (0, 0)]));
    map.add_object(contour(&[(10, 10), (10, 12), (12, 10), (10, 10)]));
    map.add_object(contour(&[(0, 0), (0, 2), (2, 0), (1, 0)]));
    map.add_object(MapObject::LineObject(LineObject::from_symbol(
        other,
        vec![at(0, 0), at(0, 2), at(2, 0), at(0, 0)],
    )));
    map.add_object(contour(&[(5, 5), (6, 6), (5, 5)]));
    map.add_object(contour(&[(20, 20), (20, 30), (30, 20), (20, 20)]));
    map.mark_basemap_depressions();
    assert_eq!(map.bucket_count(), 3);
    let kept: Vec<_> = map.bucket(0).objects.iter().map(points_of).collect();
    assert_eq!(
        kept,
        vec![
            vec![(0, 0), (2, 0), (0, 2), (0, 0)],
            vec![(0, 0), (0, 2), (2, 0), (1, 0)],
            vec![(5, 5), (6, 6), (5, 5)]
        ]
    );
    assert_eq!(map.bucket(1).symbol, other);
    assert_eq!(map.bucket(1).objects.len(), 1);
    let moved: Vec<_> = map.bucket(2).objects.iter().map(points_of).collect();
    assert_eq!(
        moved,
        vec![
            vec![(10, 10), (10, 12), (12, 10), (10, 10)],
            vec![(20, 20), (20, 30), (30, 20), (20, 20)]
        ]
    );
    assert_eq!(map.bucket_count(), map.bucket_count());
}

#[test]
fn depressions_join_those_already_marked() {
    let mut map = local_map();
    map.add_object(MapObject::LineObject(LineObject::from_symbol(
        Symbol::neg_basemap_contour(),
        vec![at(0, 0), at(1, 1)],
    )));
    map.add_object(contour(&[(0, 0), (0, 2), (2, 0), (0, 0)]));
    map.mark_basemap_depressions();
    assert_eq!(map.bucket_count(), 2);
    assert_eq!(map.bucket(0).objects.len(), 2);
    assert_eq!(points_of(&map.bucket(0).objects[0]), vec![(0, 0), (1, 1)]);
    assert_eq!(points_of(&map.bucket(0).objects[1]), vec![(0, 0), (0, 2), (2, 0), (0, 0)]);
    assert_eq!(map.bucket(1).objects.len(), 0);
    let mut none = local_map();
    none.add_object(MapObject::LineObject(LineObject::from_symbol(
        Symbol::new(9, Geometry::Line),
        vec![at(0, 0), at(0, 2), at(2, 0), at(0, 0)],
    )));
    none.mark_basemap_depressions();
    assert_eq!(none.bucket_count(), 1);
    assert_eq!(none.bucket(0).objects.len(), 1);
}

#[test]
fn a_ring_made_by_merging_is_marked_too() {
    let mut map = local_map();
    map.add_object(contour(&[(0, 0), (0, 2000), (2000, 0), (10, 10)]));
    map.merge_lines(100, &vec![vec![0]]);
    assert_eq!(
        points_of(&map.bucket(0).objects[0]),
        vec![(0, 0), (0, 2000), (2000, 0), (10, 10), (0, 0)]
    );
    map.mark_basemap_depressions();
    assert_eq!(map.bucket(0).objects.len(), 0);
    assert_eq!(map.bucket(1).objects.len(), 1);
    assert_eq!(map.bucket(1).objects[0].symbol().code, NEG_BASEMAP_CONTOUR);
}

#[test]
fn a_tag_keeps_its_place_when_its_value_changes() {
    let mut line = LineObject::from_symbol(Symbol::new(1, Geometry::Line), vec![at(0, 0), at(1, 1)]);
    line.add_tag("a", "1");
    line.add_tag("b", "2");
    line.add_tag("a", "3");
    line.add_tag("A", "4");
    let pairs: Vec<(String, String)> = line.tags.iter().map(|t| (t.key.clone(), t.value.clone())).collect();
    assert_eq!(
        pairs,
        vec![
            (String::from("a"), String::from("3")),
            (String::from("b"), String::from("2")),
            (String::from("A"), String::from("4"))
        ]
    );
    assert_eq!(find_tag(&line.tags, "b"), Some(1));
    assert_eq!(find_tag(&line.tags, "c"), None);
    assert!(str_equal("abc", "abc"));
    assert!(!str_equal("abc", "abd"));
    let mut tags: Vec<Tag> = Vec::new();
    set_tag(&mut tags, "k", "v");
    assert_eq!(tags.len(), 1);
    assert_eq!(tags[0].value, "v");
    let mut object = MapObject::PointObject(PointObject::from_point(at(1, 1), Symbol::new(2, Geometry::Point), 5));
    object.add_tag("x", "y");
    match &object {
        MapObject::PointObject(p) => {
            assert_eq!(p.tags.len(), 1);
            assert_eq!(p.rotation, 5);
        }
        _ => panic!("a feature that is no point"),
    }
}

#[test]
fn symbols_know_what_they_draw() {
    let s = Symbol::new(77, Geometry::Area);
    assert_eq!(s.id(), 77);
    assert!(s.is_area_symbol());
    assert!(!s.is_line_symbol());
    assert!(!s.is_point_symbol());
    assert!(Symbol::basemap_contour().is_line_symbol());
    assert_eq!(Symbol::basemap_contour().id(), BASEMAP_CONTOUR);
    assert_eq!(Symbol::neg_basemap_contour().id(), NEG_BASEMAP_CONTOUR);
    assert_ne!(BASEMAP_CONTOUR, NEG_BASEMAP_CONTOUR);
    assert_eq!(Symbol::new(5, Geometry::Line), Symbol::new(5, Geometry::Area));
    assert_ne!(Symbol::new(5, Geometry::Line), Symbol::new(6, Geometry::Line));
}

#[test]
fn features_with_one_code_share_a_bucket() {
    let mut map = local_map();
    map.add_object(MapObject::LineObject(LineObject::from_symbol(
        Symbol::new(5, Geometry::Line),
        vec![at(0, 0), at(1, 1)],
    )));
    map.add_object(MapObject::PointObject(PointObject::from_point(at(5, 5), Symbol::new(5, Geometry::Point), 0)));
    assert_eq!(map.bucket_count(), 1);
    assert_eq!(map.bucket(0).objects.len(), 2);
    assert!(map.bucket(0).symbol.is_line_symbol());
}

#[test]
fn the_model_is_asked_for_today_or_for_the_fixed_day() {
    assert_eq!(model_date_from(2020, 366), (2020, 366));
    assert_eq!(model_date_from(2019, 366), (2025, 180));
    assert_eq!(model_date_from(2019, 365), (2019, 365));
    assert_eq!(model_date_from(1900, 366), (2025, 180));
    assert_eq!(model_date_from(2000, 366), (2000, 366));
    assert_eq!(model_date_from(2024, 0), (2025, 180));
    assert_eq!(model_date_from(2024, 1), (2024, 1));
    assert_eq!(model_date_from(10_000, 1), (2025, 180));
    assert_eq!(model_date_from(-9999, 1), (-9999, 1));
    assert_eq!(model_date_from(-10_000, 1), (2025, 180));
    assert_eq!(model_date_from(2024, 70_000), (2025, 180));
    assert_eq!(model_date_from(2024, 65_537), (2025, 180));
}

#[test]
fn errors_say_what_went_wrong() {
    assert_eq!(
        OmapError::MapCoordinateOverflow.message(),
        "map coordinate overflow: check that all positions lie in one area and share one coordinate reference system"
    );
    assert_eq!(OmapError::MismatchedGeometry.message(), "the geometry of a feature does not fit its symbol");
    assert_eq!(OmapError::Proj.message(), "the projection failed at the reference point");
    assert_eq!(OmapError::IO.message(), "the map file could not be written");
    assert_eq!(OmapError::GeoMagnetic.message(), "the geomagnetic model gave no declination");
}

#[test]
fn lines_too_short_to_be_open_are_left_alone() {
    let mut map = local_map();
    let symbol = Symbol::new(9, Geometry::Line);
    map.add_object(MapObject::LineObject(LineObject::from_symbol(symbol, vec![])));
    map.add_object(MapObject::LineObject(LineObject::from_symbol(symbol, vec![at(1, 1)])));
    map.add_object(MapObject::LineObject(LineObject::from_symbol(symbol, vec![at(1, 1), at(2, 2)])));
    let plan = map.merge_plan();
    assert_eq!(plan.len(), 1);
    assert_eq!(plan[0].tails, vec![at(1, 1)]);
    assert_eq!(plan[0].heads, vec![at(2, 2)]);
    map.merge_lines(10, &vec![vec![0]]);
    assert_eq!(map.bucket(0).objects.len(), 3);
    assert_eq!(points_of(&map.bucket(0).objects[0]), vec![]);
    assert_eq!(points_of(&map.bucket(0).objects[1]), vec![(1, 1)]);
    assert_eq!(points_of(&map.bucket(0).objects[2]), vec![(1, 1), (2, 2), (1, 1)]);
}
