use aoc::day04::{check_for_x, count_xmas, diag_string, vertical_string};
use aoc::day06::Direction;
use aoc::day08::{find_antinodes, find_harmonic_antinodes, AntennaMap, Position};
use aoc::day10::Point;
use aoc::day12;

fn grid(text: &str) -> Vec<Vec<char>> {
    text.lines().map(|l| l.chars().collect()).collect()
}

#[test]
fn test_find_antinodes() {
    assert_eq!(find_antinodes(&Position(4, 3), &Position(5, 5)), (Position(3, 1), Position(6, 7)));
    assert_eq!(find_antinodes(&Position(4, 3), &Position(8, 4)), (Position(0, 2), Position(12, 5)));
    assert_eq!(find_antinodes(&Position(8, 4), &Position(5, 5)), (Position(11, 3), Position(2, 6)));
    assert_eq!(find_antinodes(&Position(6, 5), &Position(8, 8)), (Position(4, 2), Position(10, 11)));
    assert_eq!(find_antinodes(&Position(8, 8), &Position(6, 5)), (Position(10, 11), Position(4, 2)));
}

#[test]
fn harmonic_antinodes_run_to_the_edge() {
    let map = AntennaMap { x_size: 9, y_size: 9 };
    let v = find_harmonic_antinodes(&Position(0, 0), &Position(3, 1), &map);
    assert_eq!(v, vec![Position(0, 0), Position(3, 1), Position(6, 2), Position(9, 3)]);
    assert!(map.in_map(&Position(9, 9)));
    assert!(!map.in_map(&Position(10, 0)));
    assert!(!map.in_map(&Position(0, -1)));
}

#[test]
fn word_search_pieces() {
    let g = grid("XMAS\nMASA\nAXMS\nSAMX\n");
    assert_eq!(count_xmas(&"XMASAMXMAS".chars().collect::<Vec<_>>()), 3);
    assert_eq!(count_xmas(&['X', 'M', 'A']), 0);
    assert_eq!(vertical_string(0, &g), vec!['X', 'M', 'A', 'S']);
    assert_eq!(diag_string(0, 0, true, &g), vec!['X', 'A', 'M', 'X']);
    assert_eq!(diag_string(0, 3, false, &g), vec!['S', 'X', 'S', 'S']);
    assert_eq!(diag_string(2, 1, true, &g), vec!['S', 'S']);
    let x = grid("M.S\n.A.\nM.S\n");
    assert!(check_for_x(1, 1, &x));
    assert!(!check_for_x(0, 1, &x));
    let y = grid("M.M\n.A.\nM.S\n");
    assert!(!check_for_x(1, 1, &y));
}

#[test]
fn guard_turns_clockwise() {
    let mut d = Direction::North;
    d.turn_right();
    assert_eq!(d, Direction::East);
    d.turn_right();
    d.turn_right();
    d.turn_right();
    assert_eq!(d, Direction::North);
}

#[test]
fn points_and_regions() {
    let p = Point { x: 3, y: -2 };
    assert_eq!(p.clone(), Point { x: 3, y: -2 });
    let a = day12::Point { x: 1, y: 1 };
    assert!(a.adjacent(&day12::Point { x: 2, y: 1 }));
    assert!(!a.adjacent(&day12::Point { x: 2, y: 2 }));
    let square = vec![
        day12::Point { x: 0, y: 0 },
        day12::Point { x: 1, y: 0 },
        day12::Point { x: 0, y: 1 },
        day12::Point { x: 1, y: 1 },
    ];
    assert_eq!(day12::area(&square), 4);
    assert_eq!(day12::perimeter(&square), 8);
    let line = vec![day12::Point { x: 0, y: 0 }, day12::Point { x: 1, y: 0 }, day12::Point { x: 2, y: 0 }];
    assert_eq!(day12::perimeter(&line), 8);
}

const WORD_SEARCH: &str = "MMMSXXMASM
MSAMXMSMSA
AMXSXMAAMM
MSAMASMSMX
XMASAMXAMM
XXAMMXXAMA
SMSMSASXSS
SAXAMASAAA
MAMMMXMMMM
MXMXAXMASX
";

#[test]
fn main_test_part1() {
    let xword = grid(WORD_SEARCH);
    assert_eq!(aoc::day04::part1(&xword), 18);
}

#[test]
fn main_test_part2() {
    let xword = grid(WORD_SEARCH);
    assert_eq!(aoc::day04::part2(&xword), 9);
}

#[test]
fn lab_guard_moves() {
    use_lab();
}

fn use_lab() {
    let lab_text = "....#.....\n.........#\n..........\n..#.......\n.......#..\n..........\n.#..^.....\n........#.\n#.........\n......#...\n";
    let mut obstacles = Vec::new();
    let mut guard = (0, 0);
    for (y, line) in lab_text.lines().enumerate() {
        for (x, c) in line.chars().enumerate() {
            if c == '#' {
                obstacles.push((x as i32, y as i32));
            } else if c == '^' {
                guard = (x as i32, y as i32);
            }
        }
    }
    let mut lab = aoc::day06::Lab::new(10, 10, guard, &obstacles);
    assert_eq!(lab.visited_count, 1);
    while lab.move_guard() {}
    assert_eq!(lab.visited_count, 41);
    let mut boxed = aoc::day06::Lab::new(3, 3, (1, 1), &vec![(1, 0), (2, 1), (1, 2), (0, 1)]);
    assert!(!boxed.move_guard());
    assert_eq!(boxed.guard_pos, (1, 1));
}
