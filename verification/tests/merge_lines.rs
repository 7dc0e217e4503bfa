use omap::coord::Coord;
use omap::line_object::LineObject;
use omap::links::Links;
use omap::map_object::MapObject;
use omap::assembly::assemble;
use omap::merge::{find_merges, merge_fragments};
use omap::line_merger::Endpoints;
use omap::symbol::{Geometry, Symbol};
use omap::{Omap, Scale};

fn c(x: i64, y: i64) -> Coord {
    Coord { x, y }
}

fn trail() -> Symbol {
    Symbol::new(50, Geometry::Line)
}

fn line(points: &[(i64, i64)]) -> LineObject {
    LineObject::from_symbol(trail(), points.iter().map(|p| c(p.0, p.1)).collect())
}

fn tagged(points: &[(i64, i64)], key: &str, value: &str) -> LineObject {
    let mut l = line(points);
    l.add_tag(key, value);
    l
}

fn points(l: &LineObject) -> Vec<(i64, i64)> {
    l.line.iter().map(|p| (p.x, p.y)).collect()
}

fn nearest_heads(ends: &Endpoints) -> Vec<usize> {
    let mut answers = Vec::new();
    for t in &ends.tails {
        let mut best = 0;
        let mut best_d = i128::MAX;
        for (i, h) in ends.heads.iter().enumerate() {
            let dx = (h.x - t.x) as i128;
            let dy = (h.y - t.y) as i128;
            let d = dx * dx + dy * dy;
            if d < best_d {
                best_d = d;
                best = i;
            }
        }
        answers.push(best);
    }
    answers
}

fn local_map() -> Omap {
    Omap::new(c(0, 0), None, Scale::S10_000, None, None).unwrap()
}

fn merged_map(lines: Vec<LineObject>, delta: u64) -> Omap {
    let mut map = local_map();
    for l in lines {
        map.add_object(MapObject::LineObject(l));
    }
    let plan = map.merge_plan();
    let nearest: Vec<Vec<usize>> = plan.iter().map(nearest_heads).collect();
    map.merge_lines(delta, &nearest);
    map
}

fn lines_of(map: &Omap, bucket: usize) -> Vec<Vec<(i64, i64)>> {
    map.bucket(bucket)
        .objects
        .iter()
        .map(|o| match o {
            MapObject::LineObject(l) => points(l),
            _ => panic!("a feature that is no line"),
        })
        .collect()
}

#[test]
fn two_fragments_become_one_line() {
    let first = tagged(&[(0, 0), (1000, 0), (2000, 0)], "name", "first");
    let second = tagged(&[(2000, 300), (3000, 0), (4000, 0)], "name", "second");
    let map = merged_map(vec![first, second], 500);
    assert_eq!(map.bucket_count(), 1);
    assert_eq!(
        lines_of(&map, 0),
        vec![vec![(0, 0), (1000, 0), (2000, 0), (3000, 0), (4000, 0)]]
    );
    match &map.bucket(0).objects[0] {
        MapObject::LineObject(l) => {
            assert_eq!(l.symbol, trail());
            assert_eq!(l.tags.len(), 1);
            assert_eq!(l.tags[0].key, "name");
            assert_eq!(l.tags[0].value, "first");
        }
        _ => panic!("a feature that is no line"),
    }
}

#[test]
fn fragments_beyond_the_tolerance_stay_apart() {
    let first = line(&[(0, 0), (1000, 0), (2000, 0)]);
    let second = line(&[(2000, 501), (3000, 0), (4000, 0)]);
    let map = merged_map(vec![first, second], 500);
    assert_eq!(
        lines_of(&map, 0),
        vec![
            vec![(0, 0), (1000, 0), (2000, 0)],
            vec![(2000, 501), (3000, 0), (4000, 0)]
        ]
    );
}

#[test]
fn the_tolerance_itself_is_within() {
    let first = line(&[(0, 0), (1000, 0), (2000, 0)]);
    let second = line(&[(2300, 400), (3000, 0), (4000, 0)]);
    let map = merged_map(vec![first, second], 500);
    assert_eq!(lines_of(&map, 0).len(), 1);
}

#[test]
fn a_fragment_that_meets_itself_becomes_a_ring() {
    let loop_line = tagged(&[(0, 0), (1000, 0), (1000, 1000), (0, 100)], "kind", "pond");
    let map = merged_map(vec![loop_line], 200);
    let lines = lines_of(&map, 0);
    assert_eq!(
        lines,
        vec![vec![(0, 0), (1000, 0), (1000, 1000), (0, 100), (0, 0)]]
    );
    assert_eq!(lines[0].first(), lines[0].last());
    match &map.bucket(0).objects[0] {
        MapObject::LineObject(l) => assert_eq!(l.tags[0].value, "pond"),
        _ => panic!("a feature that is no line"),
    }
}

#[test]
fn closed_lines_are_left_alone() {
    let ring = line(&[(0, 0), (10, 0), (10, 10), (0, 0)]);
    let open = line(&[(0, 1), (50, 50), (90, 90)]);
    let map = merged_map(vec![ring, open], 5);
    assert_eq!(
        lines_of(&map, 0),
        vec![
            vec![(0, 0), (10, 0), (10, 10), (0, 0)],
            vec![(0, 1), (50, 50), (90, 90)]
        ]
    );
}

#[test]
fn different_elevations_are_never_joined() {
    let low = tagged(&[(0, 0), (1000, 0), (2000, 0)], "Elevation", "100");
    let high = tagged(&[(2000, 0), (3000, 0), (4000, 0)], "Elevation", "105");
    let map = merged_map(vec![low, high], 500);
    assert_eq!(
        lines_of(&map, 0),
        vec![
            vec![(0, 0), (1000, 0), (2000, 0)],
            vec![(2000, 0), (3000, 0), (4000, 0)]
        ]
    );
}

#[test]
fn equal_elevations_are_joined() {
    let a = tagged(&[(0, 0), (1000, 0), (2000, 0)], "Elevation", "100.0");
    let b = tagged(&[(2000, 0), (3000, 0), (4000, 0)], "Elevation", "100");
    let other = tagged(&[(4000, 0), (5000, 0)], "Elevation", "95");
    let map = merged_map(vec![a, other, b], 500);
    assert_eq!(
        lines_of(&map, 0),
        vec![
            vec![(0, 0), (1000, 0), (2000, 0), (3000, 0), (4000, 0)],
            vec![(4000, 0), (5000, 0)]
        ]
    );
}

#[test]
fn one_line_without_elevation_puts_all_in_one_group() {
    let a = tagged(&[(0, 0), (1000, 0), (2000, 0)], "Elevation", "100");
    let b = tagged(&[(2000, 0), (3000, 0), (4000, 0)], "Elevation", "none");
    let map = merged_map(vec![a, b], 500);
    assert_eq!(
        lines_of(&map, 0),
        vec![vec![(0, 0), (1000, 0), (2000, 0), (3000, 0), (4000, 0)]]
    );
}

#[test]
fn the_plan_lists_ends_by_group() {
    let mut map = local_map();
    map.add_object(MapObject::LineObject(tagged(&[(0, 0), (5, 5)], "Elevation", "1")));
    map.add_object(MapObject::LineObject(tagged(&[(6, 6), (7, 7)], "Elevation", "2")));
    map.add_object(MapObject::LineObject(tagged(&[(8, 8), (9, 9)], "Elevation", "1.00")));
    map.add_object(MapObject::LineObject(line(&[(1, 1), (2, 2), (1, 1)])));
    let plan = map.merge_plan();
    assert_eq!(plan.len(), 2);
    assert_eq!(plan[0].tails, vec![c(0, 0), c(8, 8)]);
    assert_eq!(plan[0].heads, vec![c(5, 5), c(9, 9)]);
    assert_eq!(plan[1].tails, vec![c(6, 6)]);
    assert_eq!(plan[1].heads, vec![c(7, 7)]);
}

#[test]
fn merging_without_reports_changes_no_line() {
    let mut map = local_map();
    map.add_object(MapObject::LineObject(line(&[(0, 0), (5, 5)])));
    map.add_object(MapObject::LineObject(line(&[(5, 5), (9, 9)])));
    map.merge_lines(100, &Vec::new());
    assert_eq!(
        lines_of(&map, 0),
        vec![vec![(0, 0), (5, 5)], vec![(5, 5), (9, 9)]]
    );
}

#[test]
fn a_wrong_report_makes_no_false_join() {
    let frags = vec![line(&[(0, 0), (10, 0)]), line(&[(500, 0), (600, 0)])];
    let out = merge_fragments(&frags, &vec![1, 0], 20);
    assert_eq!(out.len(), 2);
    let out = merge_fragments(&frags, &vec![7, 9], 20);
    assert_eq!(out.len(), 2);
}

#[test]
fn three_fragments_in_a_row_become_one_line() {
    let frags = vec![
        line(&[(20, 0), (30, 0)]),
        line(&[(0, 0), (10, 0)]),
        line(&[(10, 0), (20, 0)]),
    ];
    let out = merge_fragments(&frags, &vec![2, 0, 1], 1);
    assert_eq!(out.len(), 1);
    assert_eq!(points(&out[0]), vec![(0, 0), (10, 0), (20, 0), (30, 0)]);
}

#[test]
fn two_fragments_round_a_pond_become_one_ring() {
    let frags = vec![
        tagged(&[(0, 0), (10, 0), (10, 10)], "side", "south"),
        tagged(&[(10, 10), (0, 10), (0, 0)], "side", "north"),
    ];
    let out = merge_fragments(&frags, &vec![1, 0], 1);
    assert_eq!(out.len(), 1);
    assert_eq!(
        points(&out[0]),
        vec![(0, 0), (10, 0), (10, 10), (0, 10), (0, 0)]
    );
    assert_eq!(out[0].tags[0].value, "south");
}

#[test]
fn of_two_starts_at_one_end_the_later_wins() {
    let frags = vec![
        line(&[(0, 0), (10, 0)]),
        line(&[(10, 1), (20, 5)]),
        line(&[(10, -1), (20, -5)]),
    ];
    let queue = find_merges(&frags, &vec![0, 0, 0], 2);
    assert_eq!(queue, vec![(1, 0), (2, 0)]);
    let out = merge_fragments(&frags, &vec![0, 0, 0], 2);
    assert_eq!(out.len(), 2);
    assert_eq!(points(&out[0]), vec![(10, 1), (20, 5)]);
    assert_eq!(points(&out[1]), vec![(0, 0), (10, 0), (20, -5)]);
}

#[test]
fn vertex_count_drops_by_one_for_each_joint() {
    let frags = vec![
        line(&[(0, 0), (10, 0), (20, 0)]),
        line(&[(20, 0), (30, 0), (40, 0)]),
        line(&[(100, 100), (110, 100), (100, 101)]),
        line(&[(500, 500), (600, 600)]),
    ];
    let out = merge_fragments(&frags, &vec![2, 0, 2, 3], 2);
    let before: usize = frags.iter().map(|l| l.line.len()).sum();
    let after: usize = out.iter().map(|l| l.line.len()).sum();
    assert_eq!(before, 11);
    assert_eq!(out.len(), 3);
    assert_eq!(after, 11);
    assert_eq!(after + frags.len(), before + out.len() + 1);
}

#[test]
fn vertex_count_stays_where_nothing_is_joined() {
    let frags = vec![line(&[(0, 0), (10, 0)]), line(&[(50, 0), (60, 0), (70, 0)])];
    let out = merge_fragments(&frags, &vec![1, 0], 3);
    let after: usize = out.iter().map(|l| l.line.len()).sum();
    assert_eq!(after, 5);
}

#[test]
fn the_order_of_the_queue_does_not_matter() {
    let frags = vec![
        line(&[(0, 0), (10, 0)]),
        line(&[(10, 0), (20, 0)]),
        line(&[(20, 0), (30, 0)]),
        line(&[(50, 50), (60, 50), (50, 51)]),
    ];
    let one = vec![(1, 0), (2, 1), (3, 3)];
    let other = vec![(3, 3), (1, 0), (2, 1)];
    let third = vec![(2, 1), (3, 3), (1, 0)];
    let a = assemble(&frags, &Links::link_all(4, &one));
    let b = assemble(&frags, &Links::link_all(4, &other));
    let d = assemble(&frags, &Links::link_all(4, &third));
    let pa: Vec<_> = a.iter().map(points).collect();
    let pb: Vec<_> = b.iter().map(points).collect();
    let pd: Vec<_> = d.iter().map(points).collect();
    assert_eq!(pa, pb);
    assert_eq!(pa, pd);
    assert_eq!(
        pa,
        vec![
            vec![(0, 0), (10, 0), (20, 0), (30, 0)],
            vec![(50, 50), (60, 50), (50, 51), (50, 50)]
        ]
    );
}

#[test]
fn links_refuse_a_second_join_at_one_end() {
    let mut links = Links::new(3);
    assert!(links.link(1, 0));
    assert!(!links.link(2, 0));
    assert!(!links.link(1, 2));
    assert!(!links.link(3, 0));
    assert!(links.link(2, 1));
    assert_eq!(links.next, vec![1, 2, 3]);
    assert_eq!(links.prev, vec![3, 0, 1]);
}

#[test]
fn buckets_of_other_symbols_are_not_merged() {
    let mut map = local_map();
    let area_symbol = Symbol::new(7, Geometry::Area);
    map.add_object(MapObject::LineObject(LineObject::from_symbol(
        area_symbol,
        vec![c(0, 0), c(10, 0)],
    )));
    map.add_object(MapObject::LineObject(LineObject::from_symbol(
        area_symbol,
        vec![c(10, 0), c(20, 0)],
    )));
    let plan = map.merge_plan();
    assert_eq!(plan.len(), 0);
    map.merge_lines(5, &vec![vec![1, 0]]);
    assert_eq!(lines_of(&map, 0), vec![vec![(0, 0), (10, 0)], vec![(10, 0), (20, 0)]]);
}

#[test]
fn groups_are_numbered_through_all_buckets() {
    let mut map = local_map();
    let road = Symbol::new(60, Geometry::Line);
    map.add_object(MapObject::LineObject(line(&[(0, 0), (10, 0)])));
    map.add_object(MapObject::LineObject(LineObject::from_symbol(road, vec![c(0, 50), c(10, 50)])));
    map.add_object(MapObject::LineObject(line(&[(10, 0), (20, 0)])));
    map.add_object(MapObject::LineObject(LineObject::from_symbol(road, vec![c(10, 50), c(20, 50)])));
    let plan = map.merge_plan();
    assert_eq!(plan.len(), 2);
    assert_eq!(plan[0].tails, vec![c(0, 0), c(10, 0)]);
    assert_eq!(plan[1].tails, vec![c(0, 50), c(10, 50)]);
    map.merge_lines(1, &vec![vec![9, 9], vec![1, 0]]);
    assert_eq!(lines_of(&map, 0), vec![vec![(0, 0), (10, 0)], vec![(10, 0), (20, 0)]]);
    assert_eq!(lines_of(&map, 1), vec![vec![(0, 50), (10, 50), (20, 50)]]);
}

#[test]
fn reports_that_are_too_few_leave_the_rest_alone() {
    let frags = vec![line(&[(10, 0), (20, 0)]), line(&[(0, 0), (10, 0)])];
    assert_eq!(find_merges(&frags, &vec![1], 0), vec![(0, 1)]);
    assert_eq!(find_merges(&frags, &vec![], 0), vec![]);
    let out = merge_fragments(&frags, &vec![1], 0);
    assert_eq!(out.len(), 1);
    assert_eq!(points(&out[0]), vec![(0, 0), (10, 0), (20, 0)]);
    let none: Vec<LineObject> = Vec::new();
    assert_eq!(merge_fragments(&none, &vec![0, 1], 5).len(), 0);
}

#[test]
fn linking_a_queue_tries_the_last_join_first() {
    let links = Links::link_all(3, &vec![(1, 0), (2, 0), (0, 2)]);
    assert_eq!(links.next, vec![2, 3, 0]);
    assert_eq!(links.prev, vec![2, 3, 0]);
    let links = Links::link_all(2, &vec![(5, 0), (0, 7)]);
    assert_eq!(links.next, vec![2, 2]);
    assert_eq!(links.prev, vec![2, 2]);
}

#[test]
fn heights_written_with_an_exponent_are_heights() {
    let low = tagged(&[(0, 0), (1000, 0), (2000, 0)], "Elevation", "1e2");
    let high = tagged(&[(2000, 0), (3000, 0), (4000, 0)], "Elevation", "105");
    let map = merged_map(vec![low, high], 500);
    assert_eq!(
        lines_of(&map, 0),
        vec![
            vec![(0, 0), (1000, 0), (2000, 0)],
            vec![(2000, 0), (3000, 0), (4000, 0)]
        ]
    );
    let a = tagged(&[(0, 0), (1000, 0), (2000, 0)], "Elevation", "1e2");
    let b = tagged(&[(2000, 0), (3000, 0), (4000, 0)], "Elevation", "100.00");
    let map = merged_map(vec![a, b], 500);
    assert_eq!(
        lines_of(&map, 0),
        vec![vec![(0, 0), (1000, 0), (2000, 0), (3000, 0), (4000, 0)]]
    );
}
