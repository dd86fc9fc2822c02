use aoc::day01;
use aoc::day02::{check_report, check_report_part2, parse_reports};
use aoc::day18::{parse_walls, Maze};
use aoc::text::{chars_of, fields, lines, parse_i64};

#[test]
fn location_lists_from_text() {
    let (mut left, mut right) = day01::parse_lists("3   4\n4   3\n2   5\n1   3\n3   9\n3   3\n").unwrap();
    assert_eq!(day01::part2(&left, &right), 31);
    left.sort();
    right.sort();
    assert_eq!(day01::part1(&left, &right), 11);
    assert_eq!(day01::parse_lists("3 4\n5\n"), None);
    assert_eq!(day01::parse_lists("3 x\n"), None);
}

#[test]
fn reports_from_text() {
    let reports = parse_reports("7 6 4 2 1\n1 2 7 8 9\n9 7 6 2 1\n1 3 2 4 5\n8 6 4 4 1\n1 3 6 7 9\n").unwrap();
    assert_eq!(reports.iter().filter(|r| check_report(r)).count(), 2);
    assert_eq!(reports.iter().filter(|r| check_report_part2(r)).count(), 4);
    assert_eq!(parse_reports("1 2 99999999999\n"), None);
}

#[test]
fn memory_bytes_from_text() {
    let walls = parse_walls("5,4\n4,2\n4,5\n3,0\n2,1\n6,3\n2,4\n1,5\n0,6\n3,3\n2,6\n5,1\n1,2\n").unwrap();
    assert_eq!(walls.len(), 13);
    let maze = Maze::from_slice(7, 7, &walls[0..12]);
    assert_eq!(maze.shortest_path_len(), Some(22));
    assert_eq!(parse_walls("5;4\n"), None);
}

#[test]
fn text_pieces() {
    let v = chars_of("-42");
    assert_eq!(parse_i64(&v), Some(-42));
    assert_eq!(parse_i64(&chars_of("9223372036854775807")), Some(i64::MAX));
    assert_eq!(parse_i64(&chars_of("-9223372036854775808")), Some(i64::MIN));
    assert_eq!(parse_i64(&chars_of("9223372036854775808")), None);
    assert_eq!(parse_i64(&chars_of("-")), None);
    assert_eq!(parse_i64(&chars_of("4a")), None);
    let f = fields(&chars_of("  ab c\td  "), &[' ', '\t']);
    assert_eq!(f, vec![vec!['a', 'b'], vec!['c'], vec!['d']]);
    assert_eq!(lines("a\n\nbc\r\n"), vec![vec!['a'], vec!['b', 'c']]);
}

#[test]
fn equations_from_text() {
    let text = "190: 10 19\n3267: 81 40 27\n83: 17 5\n156: 15 6\n7290: 6 8 6 15\n161011: 16 10 13\n192: 17 8 14\n21037: 9 7 18 13\n292: 11 6 16 20\n";
    let eqs = aoc::day07::parse_equations(text).unwrap();
    assert_eq!(eqs.len(), 9);
    let part1: u64 = eqs.iter().filter(|e| aoc::day07::is_valid(e, false)).map(|e| e.0).sum();
    let part2: u64 = eqs.iter().filter(|e| aoc::day07::is_valid(e, true)).map(|e| e.0).sum();
    assert_eq!(part1, 3749);
    assert_eq!(part2, 11387);
    assert!(aoc::day07::parse_equations("12:\n").is_none());
    assert!(aoc::day07::parse_equations("12: -3 4\n").is_none());
}

#[test]
fn robots_from_text() {
    let text = "p=0,4 v=3,-3\np=6,3 v=-1,-3\np=10,3 v=-1,2\np=2,0 v=2,-1\np=0,0 v=1,3\np=3,0 v=-2,-2\np=7,6 v=-1,-3\np=3,0 v=-1,-2\np=9,3 v=2,3\np=7,3 v=-1,2\np=2,4 v=2,-3\np=9,5 v=-3,-3\n";
    let robots = aoc::day14::parse_robots(text).unwrap();
    assert_eq!(robots.len(), 12);
    assert_eq!((robots[0].x_pos, robots[0].y_pos, robots[0].x_velocity, robots[0].y_velocity), (0, 4, 3, -3));
    let mut floor = aoc::day14::Bathroom { x_size: 11, y_size: 7, robots };
    floor.run_n_seconds(100);
    let product: usize = (0..4).map(|q| floor.robots_in_quadrant(q)).product();
    assert_eq!(product, 12);
    assert!(aoc::day14::parse_robots("p=1,2 v=3\n").is_none());
}

#[test]
fn height_map_from_text() {
    let m = aoc::day10::TopoMap::parse("89010123\n78121874\n87430965\n96549874\n45678903\n32019012\n01329801\n10456732\n").unwrap();
    assert_eq!(m.trailheads.len(), 9);
    assert_eq!(m.part1(), 36);
    assert_eq!(m.part2(), 81);
    assert!(aoc::day10::TopoMap::parse("12\n3\n").is_none());
    assert!(aoc::day10::TopoMap::parse("1a\n").is_none());
}
