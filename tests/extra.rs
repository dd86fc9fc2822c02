use aoc::day11::update_one_num;
use aoc::day13::Machine;
use aoc::day15::{Position, Warehouse, WarehouseError};
use aoc::day21::{enter_direction, NumericKey, NumericKeypadRobot, TClusterKey};
use std::collections::HashMap;

#[test]
fn claw_machines() {
    let machines = [
        Machine { button_a: (94, 34), button_b: (22, 67), prize: (8400, 5400) },
        Machine { button_a: (26, 66), button_b: (67, 21), prize: (12748, 12176) },
        Machine { button_a: (17, 86), button_b: (84, 37), prize: (7870, 6450) },
        Machine { button_a: (69, 23), button_b: (27, 71), prize: (18641, 20285) },
    ];
    let costs: Vec<i64> = machines.iter().map(|m| m.min_tokens_to_win()).collect();
    assert_eq!(costs, vec![280, 0, 200, 0]);
    assert_eq!(costs.iter().sum::<i64>(), 480);
}

fn counts(pairs: &[(u64, u64)]) -> HashMap<u64, u64> {
    pairs.iter().cloned().collect()
}

#[test]
fn single_stone_blinks() {
    assert_eq!(update_one_num(0), counts(&[(1, 1)]));
    assert_eq!(update_one_num(1), counts(&[(2024, 1)]));
    assert_eq!(update_one_num(1000), counts(&[(10, 1), (0, 1)]));
    assert_eq!(update_one_num(99), counts(&[(9, 2)]));
    assert_eq!(update_one_num(253000), counts(&[(253, 1), (0, 1)]));
}

#[test]
fn keypad_paths_and_presses() {
    let robot = NumericKeypadRobot::new();
    assert_eq!(robot.moves_to_digit(&NumericKey::Zero), vec![vec![TClusterKey::Left, TClusterKey::A]]);
    let at_two = NumericKeypadRobot { position: NumericKey::Two };
    let paths = at_two.moves_to_digit(&NumericKey::Nine);
    assert_eq!(paths.len(), 3);
    assert!(paths.iter().all(|p| p.len() == 4 && p[3] == TClusterKey::A));
    let typed: String = enter_direction(&TClusterKey::A, &TClusterKey::Left, 0).into_iter().collect();
    assert_eq!(typed, "v<<A");
    let typed: String = enter_direction(&TClusterKey::A, &TClusterKey::Left, 1).into_iter().collect();
    assert_eq!(typed, "v<<AAA<A");
    let mut r = NumericKeypadRobot::new();
    let presses: String = r.enter_digit(&NumericKey::Zero).into_iter().collect();
    assert_eq!(r.position, NumericKey::Zero);
    let left: String = enter_direction(&TClusterKey::A, &TClusterKey::Left, 1).into_iter().collect();
    let press: String = enter_direction(&TClusterKey::A, &TClusterKey::A, 1).into_iter().collect();
    assert_eq!(presses, left + &press);
}

const SMALL_WAREHOUSE: &str = "########
#..O.O.#
##@.O..#
#...O..#
#.#.O..#
#...O..#
#......#
########
";

#[test]
fn main_test1_part1() {
    let mut w = Warehouse::from_str(SMALL_WAREHOUSE).unwrap();
    w.run_moves("<^^>>>vv<v>>v<<").unwrap();
    assert_eq!(w.gps_sum(), 2028);
}

#[test]
fn warehouse_pieces() {
    let mut w = Warehouse::from_str(SMALL_WAREHOUSE).unwrap();
    assert_eq!(w.robot, Position { x: 2, y: 2 });
    assert!(w.is_wall(&Position { x: 1, y: 2 }));
    assert!(w.is_box(&Position { x: 3, y: 1 }));
    assert!(w.is_valid(&Position { x: 7, y: 7 }));
    assert!(!w.is_valid(&Position { x: 8, y: 0 }));
    assert_eq!(Warehouse::new_pos(&Position { x: 2, y: 2 }, 'v'), Position { x: 2, y: 3 });
    assert!(w.can_move_box(&Position { x: 4, y: 2 }, 'v'));
    assert!(!w.can_move_box(&Position { x: 3, y: 1 }, '^'));
    assert!(w.move_box(&Position { x: 4, y: 2 }, '>'));
    assert!(w.is_box(&Position { x: 5, y: 2 }));
    assert!(!w.is_box(&Position { x: 4, y: 2 }));
    w.move_robot('<');
    assert_eq!(w.robot, Position { x: 2, y: 2 });
    assert_eq!(w.run_moves("^x"), Err(WarehouseError::BadMove));
    assert_eq!(w.robot, Position { x: 2, y: 2 });
    assert_eq!(Warehouse::from_str("###\n#.#\n###\n").err(), Some(WarehouseError::Malformed));
}

const RACE: &str = "###############
#...#...#.....#
#.#.#.#.#.###.#
#S#...#.#.#...#
#######.#.#.###
#######.#.#...#
#######.#.###.#
###..E#...#...#
###.#######.###
#...###...#...#
#.#####.#.###.#
#.#...#.#.#...#
#.#.#.#.#.#.###
#...#...#...###
###############
";

#[test]
fn race_shortcuts() {
    let mut maze = aoc::day20::Maze::parse(RACE).unwrap();
    assert_eq!(maze.shortest_nocheat(), 84);
    assert_eq!(maze.cheats_faster_than(2, 1), 44);
    assert_eq!(maze.cheats_faster_than(20, 50), 285);
    let a = aoc::day20::Position { x: 1, y: 3 };
    let b = aoc::day20::Position { x: 5, y: 7 };
    assert_eq!(maze.manhattan_distance(&a, &b), 8);
    assert!(maze.is_wall(&aoc::day20::Position { x: 0, y: 0 }));
    assert!(!maze.is_wall(&a));
    assert_eq!(maze.cheatable(&aoc::day20::Position { x: 7, y: 1 }, &aoc::day20::Position { x: 9, y: 1 }, 2), Some(12));
    let opts = maze.next_options(&a);
    assert_eq!(opts, vec![aoc::day20::Position { x: 1, y: 2 }]);
}
