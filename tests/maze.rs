use aoc::day16::{turn_cost, Direction, Maze, MazeError};

const FIXTURE_ONE: &str = "###############
#.......#....E#
#.#.###.#.###.#
#.....#.#...#.#
#.###.#####.#.#
#.#.#.......#.#
#.#.#####.###.#
#...........#.#
###.#.#####.#.#
#...#.....#.#.#
#.#.#.###.#.#.#
#.....#...#.#.#
#.###.#.#.#.#.#
#S..#.....#...#
###############
";

const FIXTURE_TWO: &str = "#################
#...#...#...#..E#
#.#.#.#.#.#.#.#.#
#.#.#.#...#...#.#
#.#.#.#.###.#.#.#
#...#.#.#.....#.#
#.#.#.#.#.#####.#
#.#...#.#.#.....#
#.#.#####.#.###.#
#.#.#.......#...#
#.#.###.#####.###
#.#.#...#.....#.#
#.#.#.#####.###.#
#.#.#.........#.#
#.#.#.#########.#
#S#.............#
#################
";

fn solve(text: &str) -> (u64, usize) {
    Maze::parse(text).unwrap().solve().unwrap()
}

#[test]
fn test_turns_to() {
    assert_eq!(Direction::North.turns_to(&Direction::North), 0);
    assert_eq!(Direction::North.turns_to(&Direction::East), 1);
    assert_eq!(Direction::North.turns_to(&Direction::South), 2);
    assert_eq!(Direction::North.turns_to(&Direction::West), 1);
    assert_eq!(Direction::East.turns_to(&Direction::West), 2);
    assert_eq!(Direction::East.turns_to(&Direction::South), 1);
    assert_eq!(Direction::East.turns_to(&Direction::North), 1);
}

#[test]
fn test1_part1() {
    let (part1, _) = solve(FIXTURE_ONE);
    assert_eq!(part1, 7036);
}

#[test]
fn test2_part1() {
    let (part1, _) = solve(FIXTURE_TWO);
    assert_eq!(part1, 11048);
}

#[test]
fn test1_part2() {
    let (_, part2) = solve(FIXTURE_ONE);
    assert_eq!(part2, 45);
}

#[test]
fn test2_part2() {
    let (_, part2) = solve(FIXTURE_TWO);
    assert_eq!(part2, 64);
}

#[test]
fn turn_cost_from_north() {
    assert_eq!(turn_cost(Direction::North, Direction::North), 0);
    assert_eq!(turn_cost(Direction::North, Direction::East), 1000);
    assert_eq!(turn_cost(Direction::North, Direction::South), 2000);
    assert_eq!(turn_cost(Direction::North, Direction::West), 1000);
}

#[test]
fn turn_cost_all_pairs() {
    let dirs = [Direction::North, Direction::East, Direction::South, Direction::West];
    for (i, a) in dirs.iter().enumerate() {
        for (j, b) in dirs.iter().enumerate() {
            let gap = (i as i32 - j as i32).rem_euclid(4);
            let expected = match gap {
                0 => 0,
                2 => 2000,
                _ => 1000,
            };
            assert_eq!(turn_cost(*a, *b), expected);
        }
    }
}

#[test]
fn straight_corridor_costs_length_minus_one() {
    for n in 2..12usize {
        let mut row = String::from("S");
        row.push_str(&".".repeat(n - 2));
        row.push('E');
        assert_eq!(solve(&row), ((n - 1) as u64, n));
    }
}

#[test]
fn walled_corridor() {
    let text = "#######\n#S...E#\n#######\n";
    assert_eq!(solve(text), (4, 5));
}

#[test]
fn tile_count_at_least_two() {
    assert!(solve(FIXTURE_ONE).1 >= 2);
    assert_eq!(solve("SE"), (1, 2));
}

#[test]
fn mirrored_symmetric_layout_keeps_cost() {
    let text = "#######\n#..E..#\n#.#.#.#\n#.....#\n#.#.#.#\n#..S..#\n#######\n";
    let mirrored: String = text
        .lines()
        .map(|l| l.chars().rev().collect::<String>() + "\n")
        .collect();
    assert_eq!(solve(text).0, solve(&mirrored).0);
}

#[test]
fn two_disjoint_routes_share_only_endpoints() {
    let text = "#######\n#.....#\n#S###E#\n#.....#\n#######\n";
    // Each route visits seven cells; together they cover 7 + 7 - 2.
    assert_eq!(solve(text), (3006, 12));
}

#[test]
fn no_route_is_an_error() {
    let text = "#####\n#S#E#\n#####\n";
    assert_eq!(Maze::parse(text).unwrap().solve(), Err(MazeError::NoPath));
}

#[test]
fn malformed_grids_are_rejected() {
    assert_eq!(Maze::parse("S..\n..E.\n").err(), Some(MazeError::MalformedGrid));
    assert_eq!(Maze::parse("S..\n...\n").err(), Some(MazeError::MalformedGrid));
    assert_eq!(Maze::parse("...\n..E\n").err(), Some(MazeError::MalformedGrid));
    assert_eq!(Maze::parse("").err(), Some(MazeError::MalformedGrid));
}

#[test]
fn parse_reads_walls_and_markers() {
    let m = Maze::parse("\n#S#\n\r\n.E.\n").unwrap();
    assert_eq!((m.width, m.height), (3, 2));
    assert_eq!(m.walls, vec![true, false, true, false, false, false]);
    assert_eq!((m.start.row, m.start.col), (0, 1));
    assert_eq!((m.end.row, m.end.col), (1, 1));
}

#[test]
fn next_options_lists_open_neighbours() {
    let m = Maze::parse("#####\n#...#\n#.S.#\n#..E#\n#####\n").unwrap();
    let start = m.start;
    let opts = m.next_options(start, Direction::East);
    let dirs: Vec<Direction> = opts.iter().map(|o| o.1).collect();
    assert_eq!(dirs, vec![Direction::East, Direction::West, Direction::North, Direction::South]);
    let costs: Vec<u64> = opts.iter().map(|o| o.2).collect();
    assert_eq!(costs, vec![1, 2001, 1001, 1001]);
    assert!(m.is_wall(aoc::day16::Cell { row: 0, col: 0 }));
    assert!(!m.is_wall(start));
}
