use aoc::day05;
use aoc::day10::{Point, TopoMap};
use aoc::day14::{Bathroom, Robot};
use aoc::day18;
use aoc::day19::{is_possible, Searcher};

#[test]
fn print_queue_middle_pages() {
    let rules_text = "47|53 97|13 97|61 97|47 75|29 61|13 75|53 29|13 97|29 53|29 61|53 97|53 61|29 47|13 75|47 97|75 47|61 75|61 47|29 75|13 53|13";
    let rules: Vec<(usize, usize)> = rules_text
        .split(' ')
        .map(|r| {
            let mut it = r.split('|').map(|s| s.parse::<usize>().unwrap());
            (it.next().unwrap(), it.next().unwrap())
        })
        .collect();
    let pages = vec![
        vec![75, 47, 61, 53, 29],
        vec![97, 61, 53, 29, 13],
        vec![75, 29, 13],
        vec![75, 97, 47, 61, 53],
        vec![61, 13, 29],
        vec![97, 13, 75, 29, 47],
    ];
    let valid: Vec<bool> = pages.iter().map(|p| day05::is_valid(p, &rules)).collect();
    assert_eq!(valid, vec![true, true, true, false, false, false]);
    assert_eq!(day05::part1(&pages, &rules), 143);
}

fn topo(text: &str) -> TopoMap {
    let map: Vec<Vec<u32>> = text.lines().map(|l| l.chars().map(|c| c.to_digit(10).unwrap()).collect()).collect();
    let mut trailheads = Vec::new();
    for (y, row) in map.iter().enumerate() {
        for (x, h) in row.iter().enumerate() {
            if *h == 0 {
                trailheads.push(Point { x: x as i32, y: y as i32 });
            }
        }
    }
    TopoMap { map, trailheads }
}

#[test]
fn trail_scores_and_ratings() {
    let m = topo("89010123\n78121874\n87430965\n96549874\n45678903\n32019012\n01329801\n10456732\n");
    assert_eq!(m.part1(), 36);
    assert_eq!(m.part2(), 81);
    let p = Point { x: 2, y: 0 };
    assert!(m.in_bounds(&p));
    assert!(!m.in_bounds(&Point { x: 8, y: 0 }));
    assert_eq!(m.lookup(&p), 0);
    assert!(m.passable(&p, &Point { x: 3, y: 0 }));
    assert_eq!(m.get_neighbors(&Point { x: 0, y: 0 }), vec![Point { x: 1, y: 0 }, Point { x: 0, y: 1 }]);
    assert_eq!(m.explore(&p).len(), 5);
    assert_eq!(m.explore_part2(&p), 20);
}

fn robot(x: i32, y: i32, vx: i32, vy: i32) -> Robot {
    Robot { x_pos: x, y_pos: y, x_velocity: vx, y_velocity: vy }
}

#[test]
fn robots_after_a_hundred_seconds() {
    let robots = vec![
        robot(0, 4, 3, -3),
        robot(6, 3, -1, -3),
        robot(10, 3, -1, 2),
        robot(2, 0, 2, -1),
        robot(0, 0, 1, 3),
        robot(3, 0, -2, -2),
        robot(7, 6, -1, -3),
        robot(3, 0, -1, -2),
        robot(9, 3, 2, 3),
        robot(7, 3, -1, 2),
        robot(2, 4, 2, -3),
        robot(9, 5, -3, -3),
    ];
    let mut floor = Bathroom { x_size: 11, y_size: 7, robots };
    floor.run_n_seconds(100);
    let product: usize = (0..4).map(|q| floor.robots_in_quadrant(q)).product();
    assert_eq!(product, 12);
    assert!(!floor.no_overlaps());
    let mut one = Bathroom { x_size: 11, y_size: 7, robots: vec![robot(2, 4, 2, -3)] };
    one.run_n_seconds(5);
    assert_eq!((one.robots[0].x_pos, one.robots[0].y_pos), (1, 3));
    assert_eq!(one.robots_at(1, 3), 1);
    assert!(one.no_overlaps());
    one.run_one_second();
    assert_eq!((one.robots[0].x_pos, one.robots[0].y_pos), (3, 0));
}

#[test]
fn memory_grid_shortest_path() {
    let bytes = [(5, 4), (4, 2), (4, 5), (3, 0), (2, 1), (6, 3), (2, 4), (1, 5), (0, 6), (3, 3), (2, 6), (5, 1)];
    let walls: Vec<day18::Position> = bytes.iter().map(|&(x, y)| day18::Position { x, y }).collect();
    let maze = day18::Maze::from_slice(7, 7, &walls);
    assert_eq!(maze.shortest_path_len(), Some(22));
    let open = day18::Maze::from_slice(3, 2, &[]);
    assert_eq!(open.shortest_path_len(), Some(3));
    let blocked = day18::Maze::from_slice(3, 3, &[day18::Position { x: 1, y: 0 }, day18::Position { x: 0, y: 1 }]);
    assert_eq!(blocked.shortest_path_len(), None);
    assert!(maze.is_valid(&day18::Position { x: 6, y: 6 }));
    assert!(!maze.is_valid(&day18::Position { x: 7, y: 0 }));
    let n = maze.get_neighbors(&day18::Position { x: 0, y: 0 });
    assert_eq!(n, vec![day18::Position { x: 1, y: 0 }, day18::Position { x: 0, y: 1 }]);
}

#[test]
fn towel_arrangements() {
    let towels: Vec<String> = "r, wr, b, g, bwu, rb, gb, br".split(", ").map(String::from).collect();
    let patterns = ["brwrr", "bggr", "gbbr", "rrbgbr", "ubwu", "bwurrg", "brgr", "bbrgwb"];
    let possible = patterns.iter().filter(|p| is_possible(p, &towels)).count();
    assert_eq!(possible, 6);
    let mut searcher = Searcher::new();
    let counts: Vec<usize> = patterns.iter().map(|p| searcher.possibilities(p, &towels)).collect();
    assert_eq!(counts, vec![2, 1, 4, 6, 0, 1, 2, 0]);
    assert_eq!(counts.iter().sum::<usize>(), 16);
}

