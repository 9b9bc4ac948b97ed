use vstd::prelude::*;

use crate::ast::Instruction;
use crate::ast::Node;
use crate::ast::NodeV;
use crate::ast::lemma_view_nodes;
use crate::ast::view_node;
use crate::ast::view_nodes;
use crate::parser::Code;
use crate::parser::lemma_code_view;
use crate::semantics::ExecError;
use crate::semantics::RunResult;
use crate::semantics::StateV;
use crate::semantics::init_state;
use crate::semantics::run_node;
use crate::semantics::run_seq;
use crate::semantics::step_instr;

verus! {

/// How a bounded run of a program ended.
#[derive(Clone, Copy, PartialEq, Eq, Structural, Debug)]
pub enum ExecStatus {
    /// The whole program ran to completion.
    Completed,
    /// Execution failed; side effects up to the failure remain in place.
    Failed(ExecError),
    /// The fuel bound was exhausted before the program finished.
    OutOfFuel,
}

/// The interpreter: one growable byte tape, one cursor into it, a buffered
/// input stream and the output written so far.
pub struct Interpreter {
    memory: Vec<u8>,
    pointer: usize,
    input: Vec<u8>,
    input_pos: usize,
    output: Vec<u8>,
}

impl View for Interpreter {
    type V = StateV;

    closed spec fn view(&self) -> StateV {
        StateV {
            tape: self.memory@,
            cursor: self.pointer as nat,
            input: self.input@,
            in_pos: self.input_pos as nat,
            output: self.output@,
        }
    }
}

impl Interpreter {
    /// A fresh machine with no input: one zero cell, the cursor on it.
    pub fn new() -> (r: Self)
        ensures
            r@ == init_state(Seq::<u8>::empty()),
            r@.valid(),
    {
        let mut memory: Vec<u8> = Vec::new();
        memory.push(0);
        let r = Interpreter { memory, pointer: 0, input: Vec::new(), input_pos: 0, output: Vec::new() };
        proof {
            assert(r@ =~~= init_state(Seq::<u8>::empty()));
        }
        r
    }

    /// A fresh machine that will read from the given input bytes.
    pub fn with_input(input: Vec<u8>) -> (r: Self)
        ensures
            r@ == init_state(input@),
            r@.valid(),
    {
        let mut memory: Vec<u8> = Vec::new();
        memory.push(0);
        let ghost inp = input@;
        let r = Interpreter { memory, pointer: 0, input, input_pos: 0, output: Vec::new() };
        proof {
            assert(r@ =~~= init_state(inp));
        }
        r
    }

    /// The bytes written so far.
    pub fn output(&self) -> (r: &Vec<u8>)
        ensures
            r@ == self@.output,
    {
        &self.output
    }

    /// The cell the cursor addresses.
    pub fn cell(&self) -> (r: u8)
        requires
            self@.valid(),
        ensures
            r == self@.cell(),
    {
        self.memory[self.pointer]
    }

    /// The cursor's position on the tape.
    pub fn cursor(&self) -> (r: usize)
        ensures
            r as nat == self@.cursor,
    {
        self.pointer
    }

    /// How many cells the tape holds.
    pub fn tape_len(&self) -> (r: usize)
        ensures
            r as nat == self@.tape.len(),
    {
        self.memory.len()
    }

    /// One atomic instruction against the machine state, exactly as
    /// `step_instr` describes it.
    fn exec_instr(&mut self, instruction: Instruction) -> (r: Result<(), ExecError>)
        requires
            old(self)@.valid(),
        ensures
            final(self)@.valid(),
            match r {
                Ok(()) => step_instr(old(self)@, instruction) == RunResult::Done(final(self)@),
                Err(e) => step_instr(old(self)@, instruction) == RunResult::Failed(final(self)@, e),
            },
    {
        let ghost s0 = self@;
        match instruction {
            Instruction::InclPointer => {
                if self.pointer == self.memory.len() - 1 {
                    self.memory.push(0);
                }
                self.pointer = self.pointer + 1;
                proof {
                    let grown = if s0.cursor == s0.tape.len() - 1 {
                        s0.tape.push(0u8)
                    } else {
                        s0.tape
                    };
                    assert(self@ =~~= StateV { tape: grown, cursor: s0.cursor + 1, ..s0 });
                }
                Ok(())
            },
            Instruction::DeclPointer => {
                if self.pointer == 0 {
                    Err(ExecError::NegativeIndex)
                } else {
                    self.pointer = self.pointer - 1;
                    proof {
                        assert(self@ =~~= StateV { cursor: (s0.cursor - 1) as nat, ..s0 });
                    }
                    Ok(())
                }
            },
            Instruction::InclValue => {
                let v = self.memory[self.pointer];
                let nv: u8 = if v == 255 {
                    0
                } else {
                    v + 1
                };
                self.memory[self.pointer] = nv;
                proof {
                    assert(nv == ((s0.cell() + 1) % 256) as u8);
                    assert(self@ =~~= StateV { tape: s0.tape.update(s0.cursor as int, nv), ..s0 });
                }
                Ok(())
            },
            Instruction::DeclValue => {
                let v = self.memory[self.pointer];
                let nv: u8 = if v == 0 {
                    255
                } else {
                    v - 1
                };
                self.memory[self.pointer] = nv;
                proof {
                    assert(nv == ((s0.cell() + 255) % 256) as u8);
                    assert(self@ =~~= StateV { tape: s0.tape.update(s0.cursor as int, nv), ..s0 });
                }
                Ok(())
            },
            Instruction::Input => {
                if self.input_pos < self.input.len() {
                    let b = self.input[self.input_pos];
                    self.memory[self.pointer] = b;
                    self.input_pos = self.input_pos + 1;
                    proof {
                        assert(self@ =~~= StateV {
                            tape: s0.tape.update(s0.cursor as int, s0.input[s0.in_pos as int]),
                            in_pos: s0.in_pos + 1,
                            ..s0
                        });
                    }
                } else {
                    self.memory[self.pointer] = 255;
                    proof {
                        assert(self@ =~~= StateV {
                            tape: s0.tape.update(s0.cursor as int, 255u8),
                            ..s0
                        });
                    }
                }
                Ok(())
            },
            Instruction::Output => {
                let b = self.memory[self.pointer];
                self.output.push(b);
                proof {
                    assert(self@ =~~= StateV { output: s0.output.push(s0.cell()), ..s0 });
                }
                Ok(())
            },
        }
    }

    /// One node against the machine state, exactly as `run_node` describes
    /// it at the given fuel.
    fn execute_node(&mut self, node: &Node, fuel: u64) -> (r: ExecStatus)
        requires
            old(self)@.valid(),
        ensures
            final(self)@.valid(),
            match r {
                ExecStatus::Completed => run_node(old(self)@, view_node(*node), fuel as nat)
                    == RunResult::Done(final(self)@),
                ExecStatus::Failed(e) => run_node(old(self)@, view_node(*node), fuel as nat)
                    == RunResult::Failed(final(self)@, e),
                ExecStatus::OutOfFuel => run_node(old(self)@, view_node(*node), fuel as nat)
                    == RunResult::OutOfFuel(final(self)@),
            },
        decreases fuel, *node, 0int,
    {
        match node {
            Node::Instruction(instruction) => {
                match self.exec_instr(*instruction) {
                    Ok(()) => ExecStatus::Completed,
                    Err(e) => ExecStatus::Failed(e),
                }
            },
            Node::Loop(body) => {
                let ghost nv = view_node(*node);
                let ghost s_entry = self@;
                let mut f = fuel;
                while self.memory[self.pointer] != 0
                    invariant
                        self@.valid(),
                        f <= fuel,
                        s_entry == old(self)@,
                        nv == view_node(*node),
                        nv == NodeV::Loop(view_nodes(body@)),
                        run_node(s_entry, nv, fuel as nat) == run_node(self@, nv, f as nat),
                    decreases f,
                {
                    if f == 0 {
                        proof {
                            assert(run_node(self@, nv, 0nat) == RunResult::OutOfFuel(self@));
                        }
                        return ExecStatus::OutOfFuel;
                    }
                    f = f - 1;
                    let ghost s_iter = self@;
                    let r = self.execute_nodes(body, f);
                    proof {
                        assert(s_iter.cell() != 0);
                        assert(run_node(s_iter, nv, (f + 1) as nat) == (
                            match run_seq(s_iter, view_nodes(body@), f as nat) {
                                RunResult::Done(s2) => run_node(s2, nv, f as nat),
                                rr => rr,
                            }
                        ));
                    }
                    match r {
                        ExecStatus::Completed => {},
                        ExecStatus::Failed(e) => {
                            return ExecStatus::Failed(e);
                        },
                        ExecStatus::OutOfFuel => {
                            return ExecStatus::OutOfFuel;
                        },
                    }
                }
                proof {
                    assert(run_node(self@, nv, f as nat) == RunResult::Done(self@));
                }
                ExecStatus::Completed
            },
        }
    }

    /// A node sequence against the machine state, in order, exactly as
    /// `run_seq` describes it at the given fuel.
    fn execute_nodes(&mut self, nodes: &Vec<Node>, fuel: u64) -> (r: ExecStatus)
        requires
            old(self)@.valid(),
        ensures
            final(self)@.valid(),
            match r {
                ExecStatus::Completed => run_seq(old(self)@, view_nodes(nodes@), fuel as nat)
                    == RunResult::Done(final(self)@),
                ExecStatus::Failed(e) => run_seq(old(self)@, view_nodes(nodes@), fuel as nat)
                    == RunResult::Failed(final(self)@, e),
                ExecStatus::OutOfFuel => run_seq(old(self)@, view_nodes(nodes@), fuel as nat)
                    == RunResult::OutOfFuel(final(self)@),
            },
        decreases fuel, nodes@, 1int,
    {
        broadcast use lemma_view_nodes;

        let ghost nsv = view_nodes(nodes@);
        let ghost s0 = self@;
        proof {
            assert(nsv.subrange(0, nsv.len() as int) =~= nsv);
        }
        let n = nodes.len();
        let mut idx: usize = 0;
        while idx < n
            invariant
                idx <= n,
                n == nodes@.len(),
                self@.valid(),
                s0 == old(self)@,
                nsv == view_nodes(nodes@),
                nsv.len() == nodes@.len(),
                run_seq(s0, nsv, fuel as nat) == run_seq(
                    self@,
                    nsv.subrange(idx as int, nsv.len() as int),
                    fuel as nat,
                ),
            decreases n - idx,
        {
            broadcast use lemma_view_nodes;

            let ghost s_i = self@;
            let ghost rest = nsv.subrange(idx as int, nsv.len() as int);
            proof {
                assert(rest[0] == view_node(nodes@[idx as int]));
                assert(rest.subrange(1, rest.len() as int) =~= nsv.subrange(
                    idx as int + 1,
                    nsv.len() as int,
                ));
            }
            let node = &nodes[idx];
            let r = self.execute_node(node, fuel);
            match r {
                ExecStatus::Completed => {},
                ExecStatus::Failed(e) => {
                    return ExecStatus::Failed(e);
                },
                ExecStatus::OutOfFuel => {
                    return ExecStatus::OutOfFuel;
                },
            }
            idx = idx + 1;
        }
        proof {
            assert(nsv.subrange(n as int, nsv.len() as int) =~= Seq::<NodeV>::empty());
        }
        ExecStatus::Completed
    }

    /// Run a whole program for at most the given fuel (one unit per loop
    /// iteration taken).  The status and the machine state afterwards are
    /// exactly what the big-step semantics yields at that fuel.
    pub fn execute(&mut self, code: &Code, fuel: u64) -> (r: ExecStatus)
        requires
            old(self)@.valid(),
        ensures
            final(self)@.valid(),
            match r {
                ExecStatus::Completed => run_seq(old(self)@, code@, fuel as nat)
                    == RunResult::Done(final(self)@),
                ExecStatus::Failed(e) => run_seq(old(self)@, code@, fuel as nat)
                    == RunResult::Failed(final(self)@, e),
                ExecStatus::OutOfFuel => run_seq(old(self)@, code@, fuel as nat)
                    == RunResult::OutOfFuel(final(self)@),
            },
    {
        proof {
            lemma_code_view(code);
        }
        self.execute_nodes(&code.nodes, fuel)
    }
}

} // verus!
