use aoc::day23::Triangle;
use aoc::day24::{evaluate, CircuitError, DigitalCircuit, Gate, Value};

fn lit(name: &str, b: bool) -> (String, Value) {
    (String::from(name), Value::Literal(b))
}

fn gate(out: &str, a: &str, g: Gate, b: &str) -> (String, Value) {
    (String::from(out), Value::Expr(String::from(a), g, String::from(b)))
}

#[test]
fn small_circuit() {
    let wires = vec![
        lit("x00", true),
        lit("x01", true),
        lit("x02", true),
        lit("y00", false),
        lit("y01", true),
        lit("y02", false),
        gate("z00", "x00", Gate::AND, "y00"),
        gate("z01", "x01", Gate::XOR, "y01"),
        gate("z02", "x02", Gate::OR, "y02"),
        gate("w", "z02", Gate::AND, "missing"),
        gate("p", "q", Gate::OR, "x00"),
        gate("q", "p", Gate::OR, "x00"),
    ];
    assert_eq!(evaluate("z00", &wires), Ok(false));
    assert_eq!(evaluate("z01", &wires), Ok(false));
    assert_eq!(evaluate("z02", &wires), Ok(true));
    assert_eq!(evaluate("w", &wires), Err(CircuitError::Unresolved));
    assert_eq!(evaluate("p", &wires), Err(CircuitError::Unresolved));
    let mut c = DigitalCircuit { wires };
    c.evaluate_all();
    let z: u64 = ["z02", "z01", "z00"]
        .iter()
        .map(|n| match &c.wires.iter().find(|w| w.0 == *n).unwrap().1 {
            Value::Literal(b) => *b as u64,
            _ => panic!("unevaluated"),
        })
        .fold(0, |acc, b| (acc << 1) | b);
    assert_eq!(z, 4);
    assert!(matches!(c.wires[9].1, Value::Expr(_, _, _)));
}

#[test]
fn triangles_with_t() {
    let t = Triangle { nodes: vec![String::from("co"), String::from("de"), String::from("ta")] };
    assert!(t.one_starts_with_t());
    let u = Triangle { nodes: vec![String::from("co"), String::from("de"), String::from("ka")] };
    assert!(!u.one_starts_with_t());
}

#[test]
fn garden_neighbours() {
    use_garden();
}

fn use_garden() {
    let g = aoc::day12::Garden { map: vec!["AAAA".chars().collect(), "BBCD".chars().collect(), "BBCC".chars().collect(), "EEEC".chars().collect()] };
    let p = |x: i32, y: i32| aoc::day12::Point { x, y };
    assert_eq!(g.size(), 16);
    assert_eq!(g.get(&p(2, 1)), 'C');
    assert!(g.in_bounds(&p(3, 3)));
    assert!(!g.in_bounds(&p(4, 0)));
    assert_eq!(g.get_neighbors_nodiag(&p(0, 0)), vec![p(1, 0), p(0, 1)]);
    assert_eq!(g.get_neighbors(&p(0, 0)), vec![p(1, 0), p(0, 1), p(1, 1)]);
    assert_eq!(g.get_neighbors_diag(&p(3, 3)), vec![p(2, 2)]);
}
