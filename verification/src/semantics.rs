use vstd::prelude::*;

use crate::ast::Instruction;
use crate::ast::NodeV;

verus! {

/// Why a program's execution fails.
#[derive(Clone, Copy, PartialEq, Eq, Structural, Debug)]
pub enum ExecError {
    /// A move left was attempted with the cursor already at cell zero.
    NegativeIndex,
}

/// The mathematical state of the machine: the tape, the cursor into it,
/// the input stream with the position of its next unread byte, and the
/// output written so far.
pub struct StateV {
    pub tape: Seq<u8>,
    pub cursor: nat,
    pub input: Seq<u8>,
    pub in_pos: nat,
    pub output: Seq<u8>,
}

impl StateV {
    /// The cursor addresses a tape cell and the input position has not
    /// passed the end of the input.
    pub open spec fn valid(self) -> bool {
        &&& self.cursor < self.tape.len()
        &&& self.in_pos <= self.input.len()
    }

    /// The cell the cursor addresses.
    pub open spec fn cell(self) -> u8
        recommends
            self.valid(),
    {
        self.tape[self.cursor as int]
    }
}

/// The machine state at the start of a run over a given input: one zero
/// cell, the cursor on it, nothing read, nothing written.
pub open spec fn init_state(input: Seq<u8>) -> StateV {
    StateV { tape: seq![0u8], cursor: 0, input, in_pos: 0, output: Seq::empty() }
}

/// What a run of a program comes to: completion in a final state, failure
/// in the state at the point of failure (side effects up to it remain), or
/// exhaustion of the fuel bound in the state reached so far.
pub enum RunResult {
    Done(StateV),
    Failed(StateV, ExecError),
    OutOfFuel(StateV),
}

/// One atomic instruction, as a state transformer.  Moving right grows the
/// tape by exactly one zero cell when the cursor is at the right edge;
/// moving left at cell zero fails; cell arithmetic wraps modulo 256;
/// reading from an exhausted input sets the cell to 255.
pub open spec fn step_instr(s: StateV, i: Instruction) -> RunResult
    recommends
        s.valid(),
{
    match i {
        Instruction::InclPointer => {
            let grown = if s.cursor == s.tape.len() - 1 {
                s.tape.push(0u8)
            } else {
                s.tape
            };
            RunResult::Done(StateV { tape: grown, cursor: s.cursor + 1, ..s })
        },
        Instruction::DeclPointer => {
            if s.cursor == 0 {
                RunResult::Failed(s, ExecError::NegativeIndex)
            } else {
                RunResult::Done(StateV { cursor: (s.cursor - 1) as nat, ..s })
            }
        },
        Instruction::InclValue => {
            let v = ((s.cell() + 1) % 256) as u8;
            RunResult::Done(StateV { tape: s.tape.update(s.cursor as int, v), ..s })
        },
        Instruction::DeclValue => {
            let v = ((s.cell() + 255) % 256) as u8;
            RunResult::Done(StateV { tape: s.tape.update(s.cursor as int, v), ..s })
        },
        Instruction::Input => {
            if s.in_pos < s.input.len() {
                let b = s.input[s.in_pos as int];
                RunResult::Done(
                    StateV {
                        tape: s.tape.update(s.cursor as int, b),
                        in_pos: s.in_pos + 1,
                        ..s
                    },
                )
            } else {
                RunResult::Done(StateV { tape: s.tape.update(s.cursor as int, 255u8), ..s })
            }
        },
        Instruction::Output => {
            RunResult::Done(StateV { output: s.output.push(s.cell()), ..s })
        },
    }
}

/// A run of one node.  A loop re-examines the cell at the cursor before
/// every iteration, including the first; while it is non-zero the body runs
/// in full, then the loop is taken again.  Each iteration taken consumes
/// one unit of fuel; an instruction consumes none.
pub open spec fn run_node(s: StateV, n: NodeV, fuel: nat) -> RunResult
    decreases fuel, n, 0int,
{
    match n {
        NodeV::Instruction(i) => step_instr(s, i),
        NodeV::Loop(body) => {
            if s.cell() == 0 {
                RunResult::Done(s)
            } else if fuel == 0 {
                RunResult::OutOfFuel(s)
            } else {
                match run_seq(s, body, (fuel - 1) as nat) {
                    RunResult::Done(s2) => run_node(s2, n, (fuel - 1) as nat),
                    r => r,
                }
            }
        },
    }
}

/// A run of a node sequence, in order, stopping at the first failure or
/// fuel exhaustion.
pub open spec fn run_seq(s: StateV, ns: Seq<NodeV>, fuel: nat) -> RunResult
    decreases fuel, ns, 1int,
{
    if ns.len() == 0 {
        RunResult::Done(s)
    } else {
        match run_node(s, ns[0], fuel) {
            RunResult::Done(s2) => run_seq(s2, ns.subrange(1, ns.len() as int), fuel),
            r => r,
        }
    }
}

} // verus!
