use rand::rngs::SmallRng;
use rand::SeedableRng;
use trails::create;
use trails::decimal::{i16_to_string, usize_to_string};
use trails::input::Input;
use trails::map::{Position, TrailMap};
use trails::quadtree::Leaf;
use trails::svg::{LineCommand, Svg, SvgCommand};

#[test]
fn rating_counts_every_trail() {
    let input = "89010123
          78121874
          87430965
          96549874
          45678903
          32019012
          01329801
          10456732";
    let map = TrailMap::parse(&input);
    assert_eq!(map.rating(), 81);
}

#[test]
fn rating_of_single_trail() {
    let input = "0123456789";
    let map = TrailMap::parse(&input);
    assert_eq!(map.rating(), 1);
}

#[test]
fn draw_of_empty_path_list_is_bare_wrapper() {
    let input = "11\n11";
    let mut map = TrailMap::parse(&input);
    map.find_all_paths();
    assert_eq!(map.paths, Vec::<Vec<Position>>::new());
    let svg = Svg::new(64, 32, map.width, map.height, 2, "black", 10);
    let output = svg.draw(&map);
    assert_eq!(
        output,
        "<svg viewBox=\"0 0 128 128\" xmlns=\"http://www.w3.org/2000/svg\"></svg>"
    );
}

#[test]
fn create_is_deterministic_per_seed() {
    let seed = String::from("stripy zebra");
    let first = create(&seed, 20, 3, 2);
    let second = create(&seed, 20, 3, 2);
    assert_eq!(first, second);
    assert!(first.starts_with("<svg viewBox=\"0 0 1280 1280\""));
    assert!(first.ends_with("</svg>"));
}

#[test]
fn create_with_degenerate_partition() {
    // a minimum leaf size of at least half the canvas stops partitioning at
    // the root: the run still succeeds, only sparser
    let seed = String::from("sparse");
    let out = create(&seed, 9, 9, 2);
    assert!(out.starts_with("<svg viewBox=\"0 0 576 576\""));
    assert!(out.ends_with("</svg>"));
}

#[test]
fn try_parse_accepts_only_digit_grids() {
    assert!(TrailMap::try_parse("012\n345").is_some());
    // a non-digit character is a fatal parse error
    assert!(TrailMap::try_parse("012\n3a5").is_none());
    // ragged row widths are a fatal parse error
    assert!(TrailMap::try_parse("012\n34").is_none());
    // an empty text has no grid
    assert!(TrailMap::try_parse("").is_none());
    // blank lines between rows are not tolerated
    assert!(TrailMap::try_parse("012\n\n345").is_none());
}

#[test]
fn try_parse_matches_parse() {
    let input = "0123\n1234\n8765\n9876";
    let parsed = TrailMap::try_parse(input).unwrap();
    assert_eq!(parsed, TrailMap::parse(input));
}

#[test]
fn carving_is_deterministic_per_seed() {
    let starting_points = vec![Position { x: 1, y: 0 }, Position { x: 2, y: 4 }];
    let mut first = Input::new(6, 6);
    let mut rng = SmallRng::seed_from_u64(7);
    first.add_trails(&starting_points, &mut rng);
    first.fill(&mut rng);
    let mut second = Input::new(6, 6);
    let mut rng = SmallRng::seed_from_u64(7);
    second.add_trails(&starting_points, &mut rng);
    second.fill(&mut rng);
    assert_eq!(first.to_text(), second.to_text());
}

#[test]
fn filled_grid_is_all_digits() {
    let mut input = Input::new(8, 8);
    let starting_points = vec![Position { x: 0, y: 0 }, Position { x: 7, y: 7 }];
    let mut rng = SmallRng::seed_from_u64(99);
    input.add_trails(&starting_points, &mut rng);
    input.fill(&mut rng);
    assert!(input.map.iter().all(|c| c.is_ascii_digit()));
}

#[test]
fn generated_leaves_admit_no_further_split() {
    fn check(leaf: &Leaf) {
        if leaf.children.is_empty() {
            assert!(leaf.depth > 2 || leaf.width / 2 < leaf.min_size || leaf.height / 2 < leaf.min_size);
        } else {
            assert_eq!(leaf.children.len(), 4);
            for child in &leaf.children {
                check(child);
            }
        }
    }
    let mut root = Leaf::new(0, 0, 32, 32, 2, 0);
    let mut rng = SmallRng::seed_from_u64(5);
    root.generate(&mut rng);
    check(&root);
}

#[test]
fn children_tile_their_parent() {
    fn check(leaf: &Leaf) {
        if !leaf.children.is_empty() {
            let w2 = leaf.width / 2;
            let h2 = leaf.height / 2;
            let frames: Vec<(usize, usize)> =
                leaf.children.iter().map(|c| (c.x, c.y)).collect();
            assert_eq!(
                frames,
                vec![
                    (leaf.x, leaf.y),
                    (leaf.x + w2, leaf.y),
                    (leaf.x + w2, leaf.y + h2),
                    (leaf.x, leaf.y + h2),
                ]
            );
            for c in &leaf.children {
                assert_eq!(c.width, w2);
                assert_eq!(c.height, h2);
                assert_eq!(c.depth, leaf.depth + 1);
                check(c);
            }
        }
    }
    let mut root = Leaf::new(0, 0, 16, 16, 2, 0);
    let mut rng = SmallRng::seed_from_u64(123);
    root.generate(&mut rng);
    check(&root);
}

#[test]
fn start_points_fall_inside_the_canvas() {
    let mut root = Leaf::new(0, 0, 24, 24, 3, 0);
    let mut rng = SmallRng::seed_from_u64(11);
    root.generate(&mut rng);
    let mut starting_points = Vec::new();
    root.add_start(&mut starting_points, &mut rng, 3);
    assert!(!starting_points.is_empty());
    for p in &starting_points {
        assert!(p.x < 24 && p.y < 24);
    }
}

#[test]
fn discovered_paths_climb_zero_to_nine() {
    let input = "890\n781\n874\n965\n456\n320\n013\n104";
    let mut map = TrailMap::parse(&input);
    map.find_all_paths();
    assert!(!map.paths.is_empty());
    for path in &map.paths {
        assert_eq!(path.len(), 10);
        for (i, pos) in path.iter().enumerate() {
            assert_eq!(map.map[pos.y * map.width + pos.x], i as u8);
        }
        for w in path.windows(2) {
            let dx = w[0].x.abs_diff(w[1].x);
            let dy = w[0].y.abs_diff(w[1].y);
            assert_eq!(dx + dy, 1);
        }
    }
}

#[test]
fn merging_twice_equals_merging_once() {
    let svg = Svg::new(64, 32, 10, 10, 2, "black", 10);
    let path = vec![
        SvgCommand { command: LineCommand::Horizontal, distance: 10 },
        SvgCommand { command: LineCommand::Horizontal, distance: 20 },
        SvgCommand { command: LineCommand::Vertical, distance: -5 },
        SvgCommand { command: LineCommand::Vertical, distance: 7 },
        SvgCommand { command: LineCommand::Horizontal, distance: 4 },
    ];
    let once = svg.merge_commands(path);
    let twice = svg.merge_commands(once.clone());
    assert_eq!(once, twice);
    // the total displacement on each axis is unchanged by merging
    let h: i32 = once
        .iter()
        .filter(|c| c.command == LineCommand::Horizontal)
        .map(|c| c.distance as i32)
        .sum();
    let v: i32 = once
        .iter()
        .filter(|c| c.command == LineCommand::Vertical)
        .map(|c| c.distance as i32)
        .sum();
    assert_eq!(h, 34);
    assert_eq!(v, 2);
}

#[test]
fn pixel_scaling_formula() {
    let svg = Svg::new(64, 32, 10, 10, 2, "black", 10);
    assert_eq!(svg.to_pixel(0), 32);
    assert_eq!(svg.to_pixel(3), 224);
    assert_eq!(svg.width, 640);
    assert_eq!(svg.height, 640);
}

#[test]
fn decimal_rendering() {
    assert_eq!(usize_to_string(0), "0");
    assert_eq!(usize_to_string(2880), "2880");
    assert_eq!(i16_to_string(-64), "-64");
    assert_eq!(i16_to_string(118), "118");
    assert_eq!(i16_to_string(i16::MIN), "-32768");
}

#[test]
fn grid_text_round_trip() {
    let mut input = Input::new(3, 2);
    // carve nothing; fill deterministically by writing digits by hand is not
    // possible through the public surface, so parse the rendered empty grid's
    // shape instead
    let mut rng = SmallRng::seed_from_u64(1);
    input.fill(&mut rng);
    let text = input.to_text();
    let map = TrailMap::parse(&text);
    assert_eq!(map.width, 3);
    assert_eq!(map.height, 2);
    for y in 0..2usize {
        for x in 0..3usize {
            let c = input.map[y * 3 + x];
            assert_eq!(map.map[y * 3 + x], c.to_digit(10).unwrap() as u8);
        }
    }
}

#[test]
fn first_walk_on_a_fresh_grid_commits() {
    // on an all-unset grid the walk cannot dead-end, so the first start
    // point always carves a full ten-cell trail
    let mut input = Input::new(5, 5);
    let mut rng = SmallRng::seed_from_u64(3);
    input.add_trails(&[Position { x: 2, y: 2 }], &mut rng);
    let digits = input.map.iter().filter(|c| c.is_ascii_digit()).count();
    assert_eq!(digits, 10);
    assert_eq!(input.map[2 * 5 + 2], '0');
}

#[test]
fn fill_of_a_full_grid_changes_nothing() {
    let mut input = Input::new(4, 4);
    let mut rng = SmallRng::seed_from_u64(21);
    input.fill(&mut rng);
    let once = input.to_text();
    let mut other_rng = SmallRng::seed_from_u64(99);
    input.fill(&mut other_rng);
    assert_eq!(input.to_text(), once);
}

#[test]
fn regenerating_draws_nothing_from_the_generator() {
    // generate on an already generated tree is a no-op that leaves the
    // generator untouched: the points sampled afterwards are the same as
    // without the second call
    let mut first = Leaf::new(0, 0, 16, 16, 2, 0);
    let mut rng = SmallRng::seed_from_u64(9);
    first.generate(&mut rng);
    first.generate(&mut rng);
    let mut points_twice = Vec::new();
    first.add_start(&mut points_twice, &mut rng, 2);

    let mut second = Leaf::new(0, 0, 16, 16, 2, 0);
    let mut rng = SmallRng::seed_from_u64(9);
    second.generate(&mut rng);
    let mut points_once = Vec::new();
    second.add_start(&mut points_once, &mut rng, 2);

    assert_eq!(first, second);
    assert_eq!(points_twice, points_once);
}
