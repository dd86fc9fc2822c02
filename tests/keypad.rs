use aoc::day21::{moves_to_key, NumericKey, NumericKeypadRobot, TClusterKey};

#[test]
fn test_manhattan_distance() {
    assert_eq!(NumericKeypadRobot::manhattan_distance(&NumericKey::A, &NumericKey::Zero), 1);
    assert_eq!(NumericKeypadRobot::manhattan_distance(&NumericKey::A, &NumericKey::One), 3);
    assert_eq!(NumericKeypadRobot::manhattan_distance(&NumericKey::A, &NumericKey::Seven), 5);
}

#[test]
fn keys_round_trip_through_positions() {
    for c in "A0123456789".chars() {
        let k = NumericKey::from_char(c);
        let (x, y) = k.position();
        assert_eq!(NumericKey::from_position((x as i32, y as i32)), Some(k));
    }
    assert_eq!(NumericKey::from_position((0, 3)), None);
}

#[test]
fn stepping_on_the_keypad() {
    assert_eq!(NumericKey::Zero.next(&TClusterKey::Up), Some(NumericKey::Two));
    assert_eq!(NumericKey::Zero.next(&TClusterKey::Left), None);
    assert_eq!(NumericKey::A.next(&TClusterKey::Right), None);
    assert_eq!(NumericKey::One.next(&TClusterKey::A), None);
}

#[test]
fn moves_toward_avoid_the_gap() {
    let moves = NumericKeypadRobot::get_moves_toward(&NumericKey::A, &NumericKey::One);
    assert_eq!(moves, vec![TClusterKey::Up, TClusterKey::Left]);
    let moves = NumericKeypadRobot::get_moves_toward(&NumericKey::Zero, &NumericKey::One);
    assert_eq!(moves, vec![TClusterKey::Up]);
}

#[test]
fn directional_moves() {
    let keys: String = moves_to_key(&TClusterKey::A, &TClusterKey::Left)
        .iter()
        .map(|k| k.to_char())
        .collect();
    assert_eq!(keys, "v<<A");
    let keys: String = moves_to_key(&TClusterKey::Left, &TClusterKey::A)
        .iter()
        .map(|k| k.to_char())
        .collect();
    assert_eq!(keys, ">>^A");
    assert_eq!(NumericKeypadRobot::new().position, NumericKey::A);
}
