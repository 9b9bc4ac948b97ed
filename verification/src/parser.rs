use vstd::prelude::*;
use vstd::string::StrSliceExecFns;
use vstd::string::StringExecFns;

use crate::ast::Instruction;
use crate::ast::Node;
use crate::ast::NodeV;
use crate::ast::instr_of_char;
use crate::ast::lemma_render_seq_concat;
use crate::ast::lemma_view_nodes;
use crate::ast::render_node;
use crate::ast::render_seq;
use crate::ast::view_node;
use crate::ast::view_nodes;

verus! {

/// Why a source text is rejected.
#[derive(Clone, Copy, PartialEq, Eq, Structural, Debug)]
pub enum ParseError {
    /// A `]` with no `[` still open: detected the instant it is scanned.
    UnmatchedClosing,
    /// One or more `[` never closed: detected only after the full scan.
    UnmatchedOpening,
}

/// Append a node to the sequence on top of the parser stack.
pub open spec fn push_top(stack: Seq<Seq<NodeV>>, n: NodeV) -> Seq<Seq<NodeV>>
    recommends
        stack.len() >= 1,
{
    stack.update(stack.len() - 1, stack.last().push(n))
}

/// One character of the parse.  An instruction character appends a leaf to
/// the sequence on top of the stack; `[` opens a new empty sequence; `]`
/// closes the top sequence into a loop appended to its parent, and fails
/// when only the top-level sequence is open; any other character is a
/// comment and changes nothing.
pub open spec fn parse_step(stack: Seq<Seq<NodeV>>, c: char) -> Result<
    Seq<Seq<NodeV>>,
    ParseError,
>
    recommends
        stack.len() >= 1,
{
    match instr_of_char(c) {
        Some(i) => Ok(push_top(stack, NodeV::Instruction(i))),
        None => {
            if c == '[' {
                Ok(stack.push(Seq::empty()))
            } else if c == ']' {
                if stack.len() >= 2 {
                    Ok(push_top(stack.drop_last(), NodeV::Loop(stack.last())))
                } else {
                    Err(ParseError::UnmatchedClosing)
                }
            } else {
                Ok(stack)
            }
        },
    }
}

/// The parse of the characters `cs` started from a given stack of open
/// sequences: the stack left after the scan, or the first error.
pub open spec fn parse_from(cs: Seq<char>, stack: Seq<Seq<NodeV>>) -> Result<
    Seq<Seq<NodeV>>,
    ParseError,
>
    decreases cs.len(),
{
    if cs.len() == 0 {
        Ok(stack)
    } else {
        match parse_step(stack, cs[0]) {
            Ok(st) => parse_from(cs.subrange(1, cs.len() as int), st),
            Err(e) => Err(e),
        }
    }
}

/// The parse of a whole source text: scan from a stack holding one empty
/// top-level sequence; exactly that sequence must remain at the end, and it
/// is the program.
pub open spec fn parse_spec(cs: Seq<char>) -> Result<Seq<NodeV>, ParseError> {
    match parse_from(cs, seq![Seq::<NodeV>::empty()]) {
        Ok(st) => if st.len() == 1 {
            Ok(st[0])
        } else {
            Err(ParseError::UnmatchedOpening)
        },
        Err(e) => Err(e),
    }
}

/// A parsed program: the ordered sequence of its top-level nodes.
pub struct Code {
    pub(crate) nodes: Vec<Node>,
}

impl View for Code {
    type V = Seq<NodeV>;

    closed spec fn view(&self) -> Seq<NodeV> {
        view_nodes(self.nodes@)
    }
}

/// A program's view is the view of its node vector.
pub(crate) proof fn lemma_code_view(c: &Code)
    ensures
        c@ == view_nodes(c.nodes@),
{
}

/// The stack of open node sequences that a concrete parser stack stands for.
spec fn view_stack(stack: Seq<Vec<Node>>) -> Seq<Seq<NodeV>> {
    Seq::new(stack.len(), |i: int| view_nodes(stack[i]@))
}

impl Code {
    /// Parse a source text into a program, validating bracket matching.
    /// The result is exactly what the abstract parse of the text's
    /// characters yields.
    pub fn parse_string(data: &str) -> (r: Result<Code, ParseError>)
        ensures
            match r {
                Ok(code) => parse_spec(data@) == Ok::<Seq<NodeV>, ParseError>(code@),
                Err(e) => parse_spec(data@) == Err::<Seq<NodeV>, ParseError>(e),
            },
    {
        broadcast use lemma_view_nodes;

        let n = data.unicode_len();
        let mut stack: Vec<Vec<Node>> = Vec::new();
        stack.push(Vec::new());
        proof {
            assert(view_stack(stack@) =~~= seq![Seq::<NodeV>::empty()]);
            assert(data@.subrange(0, n as int) =~= data@);
        }
        let mut idx: usize = 0;
        while idx < n
            invariant
                idx <= n,
                n == data@.len(),
                stack.len() >= 1,
                parse_from(data@, seq![Seq::<NodeV>::empty()]) == parse_from(
                    data@.subrange(idx as int, n as int),
                    view_stack(stack@),
                ),
            decreases n - idx,
        {
            broadcast use lemma_view_nodes;

            let ghost rest = data@.subrange(idx as int, n as int);
            let ghost st0 = view_stack(stack@);
            proof {
                assert(rest.len() > 0);
                assert(rest[0] == data@[idx as int]);
                assert(rest.subrange(1, rest.len() as int) =~= data@.subrange(
                    idx as int + 1,
                    n as int,
                ));
            }
            let c = data.get_char(idx);
            match Instruction::from_char(&c) {
                Some(instruction) => {
                    let mut top = stack.pop().unwrap();
                    top.push(Node::Instruction(instruction));
                    stack.push(top);
                    proof {
                        assert(view_stack(stack@) =~~= push_top(
                            st0,
                            NodeV::Instruction(instruction),
                        ));
                    }
                },
                None => {
                    if c == '[' {
                        stack.push(Vec::new());
                        proof {
                            assert(view_stack(stack@) =~~= st0.push(Seq::empty()));
                        }
                    } else if c == ']' {
                        if stack.len() >= 2 {
                            let body = stack.pop().unwrap();
                            let mut top = stack.pop().unwrap();
                            top.push(Node::Loop(body));
                            stack.push(top);
                            proof {
                                assert(view_stack(stack@) =~~= push_top(
                                    st0.drop_last(),
                                    NodeV::Loop(st0.last()),
                                ));
                            }
                        } else {
                            proof {
                                assert(parse_step(st0, c) == Err::<Seq<Seq<NodeV>>, ParseError>(
                                    ParseError::UnmatchedClosing,
                                ));
                            }
                            return Err(ParseError::UnmatchedClosing);
                        }
                    }
                },
            }
            idx = idx + 1;
        }
        proof {
            assert(data@.subrange(n as int, n as int) =~= Seq::<char>::empty());
        }
        if stack.len() != 1 {
            return Err(ParseError::UnmatchedOpening);
        }
        let ghost final_stack = stack@;
        let nodes = stack.pop().unwrap();
        let code = Code { nodes };
        proof {
            lemma_code_view(&code);
            assert(view_stack(final_stack).len() == 1);
            assert(view_stack(final_stack)[0] == code@);
        }
        Ok(code)
    }

    /// The program's bracket structure, reconstructed as source text.
    pub fn render(&self) -> (r: String)
        ensures
            r@ == render_seq(self@),
    {
        let mut out = String::new();
        render_into(&self.nodes, &mut out);
        proof {
            lemma_code_view(self);
            assert(Seq::<char>::empty() + render_seq(self@) =~= render_seq(self@));
        }
        out
    }
}

/// Append the source text of one node to `out`.
fn render_node_into(node: &Node, out: &mut String)
    ensures
        final(out)@ == old(out)@ + render_node(view_node(*node)),
    decreases *node, 0int,
{
    let ghost base = out@;
    match node {
        Node::Instruction(i) => {
            match i {
                Instruction::InclPointer => {
                    proof {
                        reveal_strlit(">");
                    }
                    out.append(">");
                },
                Instruction::DeclPointer => {
                    proof {
                        reveal_strlit("<");
                    }
                    out.append("<");
                },
                Instruction::InclValue => {
                    proof {
                        reveal_strlit("+");
                    }
                    out.append("+");
                },
                Instruction::DeclValue => {
                    proof {
                        reveal_strlit("-");
                    }
                    out.append("-");
                },
                Instruction::Input => {
                    proof {
                        reveal_strlit(",");
                    }
                    out.append(",");
                },
                Instruction::Output => {
                    proof {
                        reveal_strlit(".");
                    }
                    out.append(".");
                },
            }
            proof {
                assert(out@ =~= base + render_node(view_node(*node)));
            }
        },
        Node::Loop(body) => {
            proof {
                reveal_strlit("[");
                reveal_strlit("]");
            }
            out.append("[");
            render_into(body, out);
            out.append("]");
            proof {
                assert(out@ =~= base + render_node(view_node(*node)));
            }
        },
    }
}

/// Append the source text of the given nodes, in order, to `out`.
fn render_into(nodes: &Vec<Node>, out: &mut String)
    ensures
        final(out)@ == old(out)@ + render_seq(view_nodes(nodes@)),
    decreases nodes@, 1int,
{
    broadcast use lemma_view_nodes;

    let ghost base = out@;
    let ghost nsv = view_nodes(nodes@);
    proof {
        assert(render_seq(nsv.subrange(0, 0)) =~= Seq::<char>::empty());
        assert(base + Seq::<char>::empty() =~= base);
    }
    let n = nodes.len();
    let mut idx: usize = 0;
    while idx < n
        invariant
            idx <= n,
            n == nodes@.len(),
            base == old(out)@,
            nsv == view_nodes(nodes@),
            nsv.len() == n,
            out@ == base + render_seq(nsv.subrange(0, idx as int)),
        decreases n - idx,
    {
        broadcast use lemma_view_nodes;

        let ghost pre = nsv.subrange(0, idx as int);
        proof {
            assert(nsv.subrange(0, idx as int + 1) =~= pre + seq![nsv[idx as int]]);
            lemma_render_seq_concat(pre, seq![nsv[idx as int]]);
            assert(seq![nsv[idx as int]].subrange(1, 1) =~= Seq::<NodeV>::empty());
            assert(render_seq(Seq::<NodeV>::empty()) == Seq::<char>::empty());
            assert(render_node(nsv[idx as int]) + Seq::<char>::empty() =~= render_node(
                nsv[idx as int],
            ));
            assert(render_seq(seq![nsv[idx as int]]) =~= render_node(nsv[idx as int]));
        }
        let node = &nodes[idx];
        render_node_into(node, out);
        proof {
            assert(out@ =~= base + render_seq(nsv.subrange(0, idx as int + 1)));
        }
        idx = idx + 1;
    }
    proof {
        assert(nsv.subrange(0, n as int) =~= nsv);
    }
}

} // verus!
