use aoc::day01;
use aoc::day02::{check_report, check_report_part2};
use aoc::day07::{is_valid, Equation};
use aoc::day09::{checksum, is_compact, Block};
use aoc::day17::{Instruction, Machine, MachineError};
use aoc::day22::{find_first_occurrence, iterations, mix, prune};
use aoc::day24::Gate;
use aoc::day25::{Key, Lock};

#[test]
fn test_concat() {
    assert_eq!(aoc::day07::concat(11, 12), 1112);
    assert_eq!(aoc::day07::concat(123, 45), 12345);
}

#[test]
fn equations_with_and_without_concatenation() {
    let cases = [
        (190u64, vec![10u64, 19], true, true),
        (3267, vec![81, 40, 27], true, true),
        (83, vec![17, 5], false, false),
        (156, vec![15, 6], false, true),
        (7290, vec![6, 8, 6, 15], false, true),
        (161011, vec![16, 10, 13], false, false),
        (192, vec![17, 8, 14], false, true),
        (21037, vec![9, 7, 18, 13], false, false),
        (292, vec![11, 6, 16, 20], true, true),
    ];
    let mut sum1 = 0;
    let mut sum2 = 0;
    for (target, nums, one, two) in cases.iter() {
        let e = Equation(*target, nums.clone());
        assert_eq!(is_valid(&e, false), *one);
        assert_eq!(is_valid(&e, true), *two);
        if *one {
            sum1 += target;
        }
        if *two {
            sum2 += target;
        }
    }
    assert_eq!(sum1, 3749);
    assert_eq!(sum2, 11387);
}

#[test]
fn location_lists() {
    let mut left = vec![3, 4, 2, 1, 3, 3];
    let mut right = vec![4, 3, 5, 3, 9, 3];
    assert_eq!(day01::part2(&left, &right), 31);
    left.sort();
    right.sort();
    assert_eq!(day01::part1(&left, &right), 11);
}

#[test]
fn reports() {
    let reports = [
        vec![7, 6, 4, 2, 1],
        vec![1, 2, 7, 8, 9],
        vec![9, 7, 6, 2, 1],
        vec![1, 3, 2, 4, 5],
        vec![8, 6, 4, 4, 1],
        vec![1, 3, 6, 7, 9],
    ];
    let safe: Vec<bool> = reports.iter().map(|r| check_report(r)).collect();
    assert_eq!(safe, vec![true, false, false, false, false, true]);
    let damp: Vec<bool> = reports.iter().map(|r| check_report_part2(r)).collect();
    assert_eq!(damp, vec![true, false, false, true, true, true]);
}

#[test]
fn disk_checksum_and_compactness() {
    let v = vec![Some(0), Some(0), Some(9), None, Some(1)];
    assert_eq!(checksum(&v), 2 * 9 + 4);
    assert!(!is_compact(&v));
    assert!(is_compact(&vec![Some(3), Some(1), None, None]));
    let b = Block { id: 4, start: 7, len: 2 };
    let c = b.clone();
    assert_eq!((c.id, c.start, c.len), (4, 7, 2));
}

#[test]
fn three_bit_machine() {
    let mut m = Machine { reg_a: 729, reg_b: 0, reg_c: 0, program: vec![0, 1, 5, 4, 3, 0] };
    let out = m.run(10_000).unwrap();
    assert_eq!(out, vec![4, 6, 3, 5, 6, 3, 5, 2, 1, 0]);
    assert_eq!(m.reg_a, 0);
    let mut m = Machine { reg_a: 0, reg_b: 0, reg_c: 9, program: vec![2, 6] };
    m.run(10).unwrap();
    assert_eq!(m.reg_b, 1);
    let mut m = Machine { reg_a: 1, reg_b: 0, reg_c: 0, program: vec![3, 0] };
    assert_eq!(m.run(5), Err(MachineError::StepLimit));
    let mut m = Machine { reg_a: 1, reg_b: 0, reg_c: 0, program: vec![5, 7] };
    assert_eq!(m.run(5), Err(MachineError::BadOperand));
    assert_eq!(Instruction::from_val(5), Some(Instruction::Out));
    assert_eq!(Instruction::from_val(8), None);
    assert_eq!(m.combo_operand(4), 1);
}

#[test]
fn secret_numbers() {
    assert_eq!(mix(42, 15), 37);
    assert_eq!(prune(100000000), 16113920);
    assert_eq!(iterations(123, 1), 15887950);
    assert_eq!(iterations(123, 2), 16495136);
    assert_eq!(iterations(1, 2000), 8685429);
    assert_eq!(find_first_occurrence(&vec![-3, 6, -1, -1, 0, 2], &vec![-1, -1, 0, 2]), Some(6));
    assert_eq!(find_first_occurrence(&vec![1, 2, 3], &vec![1, 2, 3]), None);
}

#[test]
fn gates() {
    assert_eq!(Gate::from_str("AND"), Some(Gate::AND));
    assert_eq!(Gate::from_str("XOR"), Some(Gate::XOR));
    assert_eq!(Gate::from_str("NOR"), None);
    assert!(Gate::XOR.evaluate(true, false));
    assert!(!Gate::AND.evaluate(true, false));
    assert!(Gate::OR.evaluate(true, false));
}

#[test]
fn locks_and_keys() {
    let lock = Lock::from_str("#####\n.####\n.####\n.####\n.#.#.\n.#...\n.....\n").unwrap();
    assert_eq!(lock.heights, vec![0, 5, 3, 4, 3]);
    let key = Key::from_str(".....\n#....\n#....\n#...#\n#.#.#\n#.###\n#####\n").unwrap();
    assert_eq!(key.heights, vec![5, 0, 2, 1, 3]);
    let key2 = Key::from_str(".....\n.....\n#.#..\n###..\n###.#\n###.#\n#####\n").unwrap();
    assert_eq!(key2.heights, vec![4, 3, 4, 0, 2]);
    let key3 = Key::from_str(".....\n.....\n.....\n#....\n#.#..\n#.#.#\n#####\n").unwrap();
    assert!(!lock.accepts(&key));
    assert!(!lock.accepts(&key2));
    assert!(lock.accepts(&key3));
    assert!(Key::from_str("").is_err());
}

#[test]
fn fitting_lock_and_key_pairs() {
    let locks = vec![
        Lock::from_str("#####\n.####\n.####\n.####\n.#.#.\n.#...\n.....\n").unwrap(),
        Lock::from_str("#####\n##.##\n.#.##\n...##\n...#.\n...#.\n.....\n").unwrap(),
    ];
    let keys = vec![
        Key::from_str(".....\n#....\n#....\n#...#\n#.#.#\n#.###\n#####\n").unwrap(),
        Key::from_str(".....\n.....\n#.#..\n###..\n###.#\n###.#\n#####\n").unwrap(),
        Key::from_str(".....\n.....\n.....\n#....\n#.#..\n#.#.#\n#####\n").unwrap(),
    ];
    assert_eq!(locks[1].heights, vec![1, 2, 0, 5, 3]);
    assert_eq!(aoc::day25::fitting_pairs(&locks, &keys), 3);
}
