//! Logic gates of a wiring diagram.
use vstd::prelude::*;
use crate::text::chars_of;

verus! {

/// A two-input gate.
#[derive(Debug, Clone, Copy, PartialEq, Eq, Structural)]
pub enum Gate {
    AND,
    OR,
    XOR,
}

/// What `g` outputs for two inputs.
pub open spec fn gate_output(g: Gate, left: bool, right: bool) -> bool {
    match g {
        Gate::AND => left && right,
        Gate::OR => left || right,
        Gate::XOR => left != right,
    }
}

/// Which kind `s` names, if any.
pub open spec fn gate_named(s: Seq<char>) -> Option<Gate> {
    if s == seq!['A', 'N', 'D'] {
        Some(Gate::AND)
    } else if s == seq!['O', 'R'] {
        Some(Gate::OR)
    } else if s == seq!['X', 'O', 'R'] {
        Some(Gate::XOR)
    } else {
        None
    }
}

fn chars_equal(a: &Vec<char>, b: &Vec<char>) -> (r: bool)
    ensures
        r == (a@ == b@),
{
    if a.len() != b.len() {
        return false;
    }
    let mut i: usize = 0;
    while i < a.len()
        invariant
            a@.len() == b@.len(),
            i <= a@.len(),
            forall|j: int| 0 <= j < i ==> a@[j] == b@[j],
        decreases a@.len() - i,
    {
        if a[i] != b[i] {
            return false;
        }
        i = i + 1;
    }
    assert(a@ =~= b@);
    true
}

impl Gate {
    /// Reads the kind from its name: `AND`, `OR` or `XOR`.
    pub fn from_str(s: &str) -> (r: Option<Gate>)
        ensures
            r == gate_named(s@),
    {
        let cs = chars_of(s);
        if chars_equal(&cs, &vec!['A', 'N', 'D']) {
            Some(Gate::AND)
        } else if chars_equal(&cs, &vec!['O', 'R']) {
            Some(Gate::OR)
        } else if chars_equal(&cs, &vec!['X', 'O', 'R']) {
            Some(Gate::XOR)
        } else {
            None
        }
    }

    /// What this kind outputs for two inputs.
    pub fn evaluate(&self, left: bool, right: bool) -> (r: bool)
        ensures
            r == gate_output(*self, left, right),
    {
        match self {
            Gate::AND => left && right,
            Gate::OR => left || right,
            Gate::XOR => left ^ right,
        }
    }
}


/// What a wire carries: a known bit, or a gate over two other wires.
#[derive(Debug, Clone)]
pub enum Value {
    Literal(bool),
    Expr(String, Gate, String),
}

/// Why a wire has no value.
#[derive(Debug, Clone, Copy, PartialEq, Eq, Structural)]
pub enum CircuitError {
    /// A wire that is not in the circuit, or a loop of gates.
    Unresolved,
}

/// Wires by name, each with its value.
#[derive(Debug, Clone)]
pub struct DigitalCircuit {
    pub wires: Vec<(String, Value)>,
}

/// Index of the first wire named `name` among the first `n`, if any.
pub open spec fn find(ws: Seq<(String, Value)>, name: Seq<char>, n: int) -> Option<int>
    decreases n,
{
    if n <= 0 {
        None
    } else {
        match find(ws, name, n - 1) {
            Some(k) => Some(k),
            None => if ws[n - 1].0@ == name {
                Some(n - 1)
            } else {
                None
            },
        }
    }
}

/// The bit on wire `name`, following gates at most `fuel` deep.
pub open spec fn signal(ws: Seq<(String, Value)>, name: Seq<char>, fuel: nat) -> Option<bool>
    decreases fuel,
{
    match find(ws, name, ws.len() as int) {
        None => None,
        Some(k) => match ws[k].1 {
            Value::Literal(b) => Some(b),
            Value::Expr(a, g, c) => if fuel == 0 {
                None
            } else {
                match (signal(ws, a@, (fuel - 1) as nat), signal(ws, c@, (fuel - 1) as nat)) {
                    (Some(x), Some(y)) => Some(gate_output(g, x, y)),
                    _ => None,
                }
            },
        },
    }
}

fn find_wire(ws: &Vec<(String, Value)>, name: &Vec<char>) -> (r: Option<usize>)
    ensures
        match r {
            Some(k) => find(ws@, name@, ws@.len() as int) == Some(k as int) && k < ws@.len(),
            None => find(ws@, name@, ws@.len() as int) is None,
        },
{
    let mut k: usize = 0;
    while k < ws.len()
        invariant
            k <= ws@.len(),
            find(ws@, name@, k as int) is None,
        decreases ws@.len() - k,
    {
        let n = chars_of(ws[k].0.as_str());
        if chars_equal(&n, name) {
            proof {
                lemma_find_stable(ws@, name@, k as int + 1, ws@.len() as int);
            }
            return Some(k);
        }
        k = k + 1;
    }
    None
}

proof fn lemma_find_stable(ws: Seq<(String, Value)>, name: Seq<char>, i: int, n: int)
    requires
        0 <= i <= n,
        find(ws, name, i) is Some,
    ensures
        find(ws, name, n) == find(ws, name, i),
    decreases n - i,
{
    if i < n {
        lemma_find_stable(ws, name, i, n - 1);
    }
}

fn signal_of(ws: &Vec<(String, Value)>, name: &Vec<char>, fuel: usize) -> (r: Option<bool>)
    ensures
        r == signal(ws@, name@, fuel as nat),
    decreases fuel,
{
    let k = match find_wire(ws, name) {
        Some(k) => k,
        None => {
            return None;
        },
    };
    match &ws[k].1 {
        Value::Literal(b) => Some(*b),
        Value::Expr(a, g, c) => {
            if fuel == 0 {
                return None;
            }
            let left = signal_of(ws, &chars_of(a.as_str()), fuel - 1);
            let right = signal_of(ws, &chars_of(c.as_str()), fuel - 1);
            match (left, right) {
                (Some(x), Some(y)) => Some(g.evaluate(x, y)),
                _ => None,
            }
        },
    }
}

/// The bit on `wire`, following gates no deeper than there are wires.
pub fn evaluate(wire: &str, map: &Vec<(String, Value)>) -> (r: Result<bool, CircuitError>)
    ensures
        match r {
            Ok(b) => signal(map@, wire@, map@.len() as nat) == Some(b),
            Err(e) => e == CircuitError::Unresolved && signal(map@, wire@, map@.len() as nat) is None,
        },
{
    match signal_of(map, &chars_of(wire), map.len()) {
        Some(b) => Ok(b),
        None => Err(CircuitError::Unresolved),
    }
}

impl DigitalCircuit {
    /// Replaces every wire whose bit can be worked out by that bit as a literal.
    pub fn evaluate_all(&mut self)
        ensures
            final(self).wires@.len() == old(self).wires@.len(),
            forall|k: int|
                0 <= k < old(self).wires@.len() ==> {
                    let (name, v) = #[trigger] old(self).wires@[k];
                    &&& final(self).wires@[k].0@ == name@
                    &&& match signal(old(self).wires@, name@, old(self).wires@.len() as nat) {
                        Some(b) => final(self).wires@[k].1 == Value::Literal(b),
                        None => final(self).wires@[k].1 == v,
                    }
                },
    {
        let n = self.wires.len();
        let mut bits: Vec<Option<bool>> = Vec::new();
        let mut k: usize = 0;
        while k < n
            invariant
                n == self.wires@.len(),
                self.wires@ == old(self).wires@,
                k <= n,
                bits@.len() == k,
                forall|j: int| 0 <= j < k ==> #[trigger] bits@[j] == signal(old(self).wires@, old(self).wires@[j].0@, n as nat),
            decreases n - k,
        {
            let bit = evaluate(self.wires[k].0.as_str(), &self.wires);
            bits.push(
                match bit {
                    Ok(b) => Some(b),
                    Err(_) => None,
                },
            );
            k = k + 1;
        }
        let mut k: usize = 0;
        while k < n
            invariant
                n == self.wires@.len(),
                n == old(self).wires@.len(),
                k <= n,
                bits@.len() == n,
                forall|j: int| 0 <= j < n ==> #[trigger] bits@[j] == signal(old(self).wires@, old(self).wires@[j].0@, n as nat),
                forall|j: int| k <= j < n ==> #[trigger] self.wires@[j] == old(self).wires@[j],
                forall|j: int|
                    0 <= j < k ==> {
                        let (name, v) = #[trigger] old(self).wires@[j];
                        &&& self.wires@[j].0@ == name@
                        &&& match signal(old(self).wires@, name@, n as nat) {
                            Some(b) => self.wires@[j].1 == Value::Literal(b),
                            None => self.wires@[j].1 == v,
                        }
                    },
            decreases n - k,
        {
            if let Some(b) = bits[k] {
                let name = self.wires[k].0.clone();
                self.wires.set(k, (name, Value::Literal(b)));
            }
            k = k + 1;
        }
    }
}

} // verus!
