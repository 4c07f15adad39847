use advent2018::coordinates;
use advent2018::license_tree;
use advent2018::polymer;
use advent2018::stars;
use advent2018::stars::Sighting;

#[test]
fn polymer_reacts_to_ten_units() {
    assert_eq!(polymer::react(b"dabAcCaCBAcCcaDA"), 10);
    assert_eq!(polymer::part1("dabAcCaCBAcCcaDA"), 10);
    assert_eq!(polymer::react(b"aA"), 0);
    assert_eq!(polymer::react(b"abBA"), 0);
    assert_eq!(polymer::react(b"abAB"), 4);
    assert_eq!(polymer::react(b"aabAAB"), 6);
    assert_eq!(polymer::react(b""), 0);
    // not letters, but 32 apart
    assert_eq!(polymer::react(b"0P"), 0);
}

#[test]
fn polymer_without_unit_drops_both_polarities() {
    assert_eq!(polymer::polymer_without_unit("dabAcCaCBAcCcaDA", b'a'), b"dbcCCBcCcD".to_vec());
    assert_eq!(polymer::polymer_without_unit("dabAcCaCBAcCcaDA", b'd'), b"abAcCaCBAcCcaA".to_vec());
    assert_eq!(polymer::polymer_without_unit("abc", b'A'), b"abc".to_vec());
    assert_eq!(polymer::polymer_without_unit("", b'a'), Vec::<u8>::new());
}

#[test]
fn polymer_shortest_without_one_unit() {
    assert_eq!(polymer::part2("dabAcCaCBAcCcaDA"), 4);
    assert_eq!(polymer::part2("a"), 0);
    assert_eq!(polymer::to_lower(b'Q'), b'q');
    assert_eq!(polymer::to_lower(b'q'), b'q');
    assert_eq!(polymer::to_lower(b'['), b'[');
}

fn coordinates_example() -> Vec<coordinates::Point> {
    [(1, 1), (1, 6), (8, 3), (3, 4), (5, 5), (8, 9)].iter().map(|&(x, y)| coordinates::Point { x, y }).collect()
}

#[test]
fn manhattan_distance() {
    let p = coordinates::Point { x: 3, y: 4 };
    assert_eq!(p.get_manhattan_distance(3, 4), 0);
    assert_eq!(p.get_manhattan_distance(0, 0), 7);
    assert_eq!(p.get_manhattan_distance(5, 1), 5);
}

#[test]
fn bounds_reach_one_beyond_the_largest() {
    assert_eq!(coordinates::compute_bounds(&coordinates_example()), (9, 10));
    assert_eq!(coordinates::compute_bounds(&vec![coordinates::Point { x: 0, y: 0 }]), (1, 1));
}

#[test]
fn closest_point_is_none_on_ties() {
    let points = coordinates_example();
    assert_eq!(coordinates::get_closest_point(&points, 0, 0), Some(0));
    assert_eq!(coordinates::get_closest_point(&points, 3, 4), Some(3));
    assert_eq!(coordinates::get_closest_point(&points, 5, 0), None);
    assert_eq!(coordinates::get_closest_point(&points, 1, 4), None);
    assert_eq!(coordinates::get_closest_point(&Vec::new(), 1, 4), None);
    let twice = vec![coordinates::Point { x: 2, y: 2 }, coordinates::Point { x: 2, y: 2 }];
    assert_eq!(coordinates::get_closest_point(&twice, 2, 2), None);
}

#[test]
fn largest_finite_area_is_seventeen() {
    assert_eq!(coordinates::part1(&coordinates_example()), 17);
    assert_eq!(coordinates::part1(&vec![coordinates::Point { x: 4, y: 4 }]), 0);
}

#[test]
fn safe_cells() {
    let points = coordinates_example();
    assert!(coordinates::is_safe_cell(&points, 4, 3));
    // every cell of the grid is less than 10000 from six points
    assert_eq!(coordinates::part2(&points), 90);
    let far = vec![coordinates::Point { x: 0, y: 0 }, coordinates::Point { x: 9999, y: 0 }];
    assert!(!coordinates::is_safe_cell(&far, 9999, 1));
    assert!(coordinates::is_safe_cell(&far, 5, 0));
}

fn stars_example() -> Vec<stars::Point> {
    [(0, 0, 1, 1), (4, 0, -1, 1), (0, 4, 1, -1), (4, 4, -1, -1)]
        .iter()
        .map(|&(x, y, vel_x, vel_y)| stars::Point { x, y, vel_x, vel_y })
        .collect()
}

#[test]
fn star_steps_by_its_velocity() {
    let mut p = stars::Point { x: 3, y: 9, vel_x: 1, vel_y: -2 };
    assert!(p.can_step());
    p.step();
    assert_eq!(p, stars::Point { x: 4, y: 7, vel_x: 1, vel_y: -2 });
    assert!(!stars::Point { x: i32::MAX, y: 0, vel_x: 1, vel_y: 0 }.can_step());
    assert!(!stars::Point { x: 0, y: i32::MIN, vel_x: 0, vel_y: -1 }.can_step());
    let mut all = stars_example();
    assert!(stars::can_step_all(&all));
    stars::step_all(&mut all);
    assert_eq!(all[1], stars::Point { x: 3, y: 1, vel_x: -1, vel_y: 1 });
    assert_eq!(all[3], stars::Point { x: 3, y: 3, vel_x: -1, vel_y: -1 });
}

#[test]
fn bounding_box_of_stars() {
    assert_eq!(stars::compute_bounding_box_size(&stars_example()), (0, 4, 0, 4));
    let one = vec![stars::Point { x: -7, y: 3, vel_x: 0, vel_y: 0 }];
    assert_eq!(stars::compute_bounding_box_size(&one), (-7, -7, 3, 3));
}

#[test]
fn stars_are_shown_until_they_drift_apart() {
    let mut points = stars_example();
    assert_eq!(stars::observe(&points, 0, 0), Sighting::Show { xmin: 0, width: 4, ymin: 0, height: 4 });
    stars::step_all(&mut points);
    assert_eq!(stars::observe(&points, 4, 4), Sighting::Show { xmin: 1, width: 2, ymin: 1, height: 2 });
    stars::step_all(&mut points);
    // all four on one cell: the box has no width, and the next one counts as the first
    assert_eq!(stars::observe(&points, 2, 2), Sighting::Show { xmin: 2, width: 0, ymin: 2, height: 0 });
    stars::step_all(&mut points);
    assert_eq!(stars::observe(&points, 0, 0), Sighting::Show { xmin: 1, width: 2, ymin: 1, height: 2 });
    stars::step_all(&mut points);
    assert_eq!(stars::observe(&points, 2, 2), Sighting::Done);
    let wide = vec![
        stars::Point { x: 0, y: 0, vel_x: 0, vel_y: 0 },
        stars::Point { x: 100, y: 5, vel_x: 0, vel_y: 0 },
    ];
    assert_eq!(stars::observe(&wide, 0, 0), Sighting::Pass { width: 100, height: 5 });
    let far = vec![
        stars::Point { x: i32::MIN, y: 0, vel_x: 0, vel_y: 0 },
        stars::Point { x: i32::MAX, y: 0, vel_x: 0, vel_y: 0 },
    ];
    assert_eq!(stars::observe(&far, 7, 7), Sighting::Pass { width: u32::MAX as usize, height: 0 });
}

#[test]
fn picture_of_the_stars() {
    let rows = stars::display_points(&stars_example(), 0, 4, 0, 4);
    let lines: Vec<String> = rows.iter().map(|r| r.iter().collect()).collect();
    assert_eq!(lines, vec!["#...#", ".....", ".....", ".....", "#...#"]);
    let shifted = vec![stars::Point { x: -1, y: 7, vel_x: 0, vel_y: 0 }, stars::Point { x: 1, y: 8, vel_x: 0, vel_y: 0 }];
    let rows = stars::display_points(&shifted, -1, 2, 7, 1);
    let lines: Vec<String> = rows.iter().map(|r| r.iter().collect()).collect();
    assert_eq!(lines, vec!["#..", "..#"]);
}

fn license_example() -> Vec<u32> {
    vec![2, 3, 0, 3, 10, 11, 12, 1, 1, 0, 1, 99, 2, 1, 1, 2]
}

#[test]
fn license_tree_is_read_from_numbers() {
    let (root, after) = license_tree::Node::new(&license_example(), 0).unwrap();
    assert_eq!(after, 16);
    assert_eq!(root.metadatas, vec![1, 1, 2]);
    assert_eq!(root.children.len(), 2);
    assert_eq!(root.children[0].metadatas, vec![10, 11, 12]);
    assert_eq!(root.children[1].children[0].metadatas, vec![99]);
    let (inner, after) = license_tree::Node::new(&license_example(), 2).unwrap();
    assert_eq!(after, 7);
    assert_eq!(inner.children.len(), 0);
}

#[test]
fn license_tree_needs_all_its_numbers() {
    assert!(license_tree::Node::new(&Vec::new(), 0).is_none());
    assert!(license_tree::Node::new(&vec![0], 0).is_none());
    assert!(license_tree::Node::new(&vec![0, 1], 0).is_none());
    assert!(license_tree::Node::new(&vec![1, 0], 0).is_none());
    assert!(license_tree::Node::new(&vec![1, 0, 0, 2, 5], 0).is_none());
    assert!(license_tree::Node::new(&license_example(), 16).is_none());
    assert!(license_tree::Node::new(&license_example(), 17).is_none());
    let (leaf, after) = license_tree::Node::new(&vec![0, 0], 0).unwrap();
    assert_eq!(after, 2);
    assert_eq!(leaf.metadatas.len(), 0);
}

#[test]
fn license_metadata_sums_to_138() {
    let (root, _) = license_tree::Node::new(&license_example(), 0).unwrap();
    assert_eq!(license_tree::part1(&root), Some(138));
    assert_eq!(license_tree::checked_sum(&vec![1, 2, 3]), Some(6));
    assert_eq!(license_tree::checked_sum(&vec![u32::MAX, 1]), None);
    let (big, _) = license_tree::Node::new(&vec![1, 1, 0, 1, u32::MAX, 1], 0).unwrap();
    assert_eq!(license_tree::part1(&big), None);
}

#[test]
fn license_value_is_66() {
    let (root, _) = license_tree::Node::new(&license_example(), 0).unwrap();
    assert_eq!(root.value(), Some(66));
    assert_eq!(root.children[0].value(), Some(33));
    assert_eq!(root.children[1].value(), Some(0));
    // an entry 0 refers to no child
    let (zero, _) = license_tree::Node::new(&vec![1, 2, 0, 1, 7, 0, 1], 0).unwrap();
    assert_eq!(zero.value(), Some(7));
    let (twice, _) = license_tree::Node::new(&vec![1, 2, 0, 1, u32::MAX, 1, 1], 0).unwrap();
    assert_eq!(twice.value(), None);
}
