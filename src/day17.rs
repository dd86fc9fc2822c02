//! A three-bit computer: eight instructions over three registers, printing values mod 8.
use vstd::prelude::*;

verus! {

/// An opcode.
#[derive(Debug, Clone, Copy, PartialEq, Eq, Structural)]
pub enum Instruction {
    Adv,
    Bxl,
    Bst,
    Jnz,
    Bxc,
    Out,
    Bdv,
    Cdv,
}

/// Why a program stopped without halting.
#[derive(Debug, Clone, Copy, PartialEq, Eq, Structural)]
pub enum MachineError {
    /// An opcode above seven.
    BadOpcode,
    /// Combo operand seven, or one above it, where a combo operand is read.
    BadOperand,
    /// The step budget ran out.
    StepLimit,
}

/// The registers and the program.
#[derive(Debug)]
pub struct Machine {
    pub reg_a: u64,
    pub reg_b: u64,
    pub reg_c: u64,
    pub program: Vec<u8>,
}

/// Registers and instruction pointer.
pub type Regs = (u64, u64, u64, nat);

pub open spec fn instruction_of(v: u8) -> Option<Instruction> {
    match v {
        0 => Some(Instruction::Adv),
        1 => Some(Instruction::Bxl),
        2 => Some(Instruction::Bst),
        3 => Some(Instruction::Jnz),
        4 => Some(Instruction::Bxc),
        5 => Some(Instruction::Out),
        6 => Some(Instruction::Bdv),
        7 => Some(Instruction::Cdv),
        _ => None,
    }
}

/// The value of a combo operand: zero to three stand for themselves, four to six for
/// registers A to C.
pub open spec fn combo_value(a: u64, b: u64, c: u64, op: u8) -> u64 {
    if op <= 3 {
        op as u64
    } else if op == 4 {
        a
    } else if op == 5 {
        b
    } else {
        c
    }
}

/// `a` divided by two to the power `k`, rounding down.
pub open spec fn halve(a: u64, k: u64) -> u64 {
    if k >= 64 {
        0
    } else {
        a >> k
    }
}

/// Whether the instruction reads its operand as a combo operand.
pub open spec fn uses_combo(i: Instruction) -> bool {
    match i {
        Instruction::Adv | Instruction::Bst | Instruction::Out | Instruction::Bdv | Instruction::Cdv => true,
        _ => false,
    }
}

/// One instruction at `s.3`: the next registers and what it prints, if anything.
pub open spec fn step(prog: Seq<u8>, s: Regs) -> Result<(Regs, Option<u64>), MachineError> {
    let (a, b, c, ip) = s;
    let op = prog[ip + 1int];
    match instruction_of(prog[ip as int]) {
        None => Err(MachineError::BadOpcode),
        Some(i) => if uses_combo(i) && op > 6 {
            Err(MachineError::BadOperand)
        } else {
            let v = combo_value(a, b, c, op);
            match i {
                Instruction::Adv => Ok(((halve(a, v), b, c, ip + 2), None)),
                Instruction::Bxl => Ok(((a, b ^ (op as u64), c, ip + 2), None)),
                Instruction::Bst => Ok(((a, v % 8, c, ip + 2), None)),
                Instruction::Jnz => if a != 0 {
                    Ok(((a, b, c, op as nat), None))
                } else {
                    Ok(((a, b, c, ip + 2), None))
                },
                Instruction::Bxc => Ok(((a, b ^ c, c, ip + 2), None)),
                Instruction::Out => Ok(((a, b, c, ip + 2), Some(v % 8))),
                Instruction::Bdv => Ok(((a, halve(a, v), c, ip + 2), None)),
                Instruction::Cdv => Ok(((a, b, halve(a, v), ip + 2), None)),
            }
        },
    }
}

/// Runs from `s` for at most `fuel` instructions. The program halts when the instruction
/// pointer leaves the program; the result is the final registers and everything printed.
pub open spec fn run_from(prog: Seq<u8>, s: Regs, fuel: nat) -> Result<(Regs, Seq<u64>), MachineError>
    decreases fuel,
{
    if s.3 + 1 >= prog.len() {
        Ok((s, Seq::empty()))
    } else if fuel == 0 {
        Err(MachineError::StepLimit)
    } else {
        match step(prog, s) {
            Err(e) => Err(e),
            Ok((t, out)) => match run_from(prog, t, (fuel - 1) as nat) {
                Err(e) => Err(e),
                Ok((u, rest)) => Ok((
                    u,
                    match out {
                        Some(x) => seq![x] + rest,
                        None => rest,
                    },
                )),
            },
        }
    }
}

/// `printed` followed by what the run prints.
pub open spec fn after(printed: Seq<u64>, r: Result<(Regs, Seq<u64>), MachineError>) -> Result<(Regs, Seq<u64>), MachineError> {
    match r {
        Err(e) => Err(e),
        Ok((u, rest)) => Ok((u, printed + rest)),
    }
}

impl Instruction {
    /// The instruction with opcode `val`, if any.
    pub fn from_val(val: u8) -> (r: Option<Instruction>)
        ensures
            r == instruction_of(val),
    {
        match val {
            0 => Some(Instruction::Adv),
            1 => Some(Instruction::Bxl),
            2 => Some(Instruction::Bst),
            3 => Some(Instruction::Jnz),
            4 => Some(Instruction::Bxc),
            5 => Some(Instruction::Out),
            6 => Some(Instruction::Bdv),
            7 => Some(Instruction::Cdv),
            _ => None,
        }
    }
}

fn halve_exec(a: u64, k: u64) -> (r: u64)
    ensures
        r == halve(a, k),
{
    if k >= 64 {
        0
    } else {
        a >> k
    }
}

impl Machine {
    /// The value of combo operand `num`.
    pub fn combo_operand(&self, num: u8) -> (r: u64)
        requires
            num <= 6,
        ensures
            r == combo_value(self.reg_a, self.reg_b, self.reg_c, num),
    {
        match num {
            0 | 1 | 2 | 3 => num as u64,
            4 => self.reg_a,
            5 => self.reg_b,
            _ => self.reg_c,
        }
    }

    /// Runs the program from its first instruction for at most `max_steps` instructions,
    /// leaving the final values in the registers, and returns what it printed.
    pub fn run(&mut self, max_steps: usize) -> (r: Result<Vec<u64>, MachineError>)
        ensures
            final(self).program@ == old(self).program@,
            match (r, run_from(
                old(self).program@,
                (old(self).reg_a, old(self).reg_b, old(self).reg_c, 0),
                max_steps as nat,
            )) {
                (Ok(out), Ok((u, printed))) => out@ == printed && (
                final(self).reg_a,
                final(self).reg_b,
                final(self).reg_c,
                ) == (u.0, u.1, u.2),
                (Err(e1), Err(e2)) => e1 == e2,
                _ => false,
            },
    {
        let ghost s0: Regs = (self.reg_a, self.reg_b, self.reg_c, 0);
        let ghost prog = self.program@;
        let mut outputs: Vec<u64> = Vec::new();
        let mut ip: usize = 0;
        let mut steps: usize = 0;
        loop
            invariant
                self.program@ == prog,
                prog == old(self).program@,
                s0 == (old(self).reg_a, old(self).reg_b, old(self).reg_c, 0nat),
                steps <= max_steps,
                run_from(prog, s0, max_steps as nat) == after(
                    outputs@,
                    run_from(prog, (self.reg_a, self.reg_b, self.reg_c, ip as nat), (max_steps - steps) as nat),
                ),
            decreases max_steps - steps,
        {
            if ip >= self.program.len() || ip + 1 >= self.program.len() {
                assert(outputs@ + Seq::<u64>::empty() =~= outputs@);
                return Ok(outputs);
            }
            if steps == max_steps {
                return Err(MachineError::StepLimit);
            }
            let ghost s: Regs = (self.reg_a, self.reg_b, self.reg_c, ip as nat);
            let ghost fuel: nat = (max_steps - steps) as nat;
            let instruction = match Instruction::from_val(self.program[ip]) {
                Some(i) => i,
                None => {
                    return Err(MachineError::BadOpcode);
                },
            };
            let literal_operand = self.program[ip + 1];
            let combo = match instruction {
                Instruction::Adv | Instruction::Bst | Instruction::Out | Instruction::Bdv | Instruction::Cdv => {
                    if literal_operand > 6 {
                        return Err(MachineError::BadOperand);
                    }
                    self.combo_operand(literal_operand)
                },
                _ => 0,
            };
            let mut next_ip = ip + 2;
            match instruction {
                Instruction::Adv => {
                    self.reg_a = halve_exec(self.reg_a, combo);
                },
                Instruction::Bxl => {
                    self.reg_b = self.reg_b ^ (literal_operand as u64);
                },
                Instruction::Bst => {
                    self.reg_b = combo % 8;
                },
                Instruction::Jnz => {
                    if self.reg_a != 0 {
                        next_ip = literal_operand as usize;
                    }
                },
                Instruction::Bxc => {
                    self.reg_b = self.reg_b ^ self.reg_c;
                },
                Instruction::Out => {
                    let ghost before = outputs@;
                    outputs.push(combo % 8);
                    proof {
                        assert(outputs@ =~= before + seq![combo % 8]);
                        assert forall|rest: Seq<u64>| before + (seq![combo % 8] + rest) == outputs@ + rest by {
                            assert(before + (seq![combo % 8] + rest) =~= outputs@ + rest);
                        }
                    }
                },
                Instruction::Bdv => {
                    self.reg_b = halve_exec(self.reg_a, combo);
                },
                Instruction::Cdv => {
                    self.reg_c = halve_exec(self.reg_a, combo);
                },
            }
            ip = next_ip;
            steps = steps + 1;
        }
    }
}

} // verus!
