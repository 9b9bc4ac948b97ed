use vstd::prelude::*;

verus! {

/// The six atomic operations of the language.
#[derive(Clone, Copy, PartialEq, Eq, Structural, Debug)]
pub enum Instruction {
    /// `>`: move the cursor one cell to the right, growing the tape on demand.
    InclPointer,
    /// `<`: move the cursor one cell to the left; fails at the left edge.
    DeclPointer,
    /// `+`: increment the cell at the cursor, wrapping modulo 256.
    InclValue,
    /// `-`: decrement the cell at the cursor, wrapping modulo 256.
    DeclValue,
    /// `,`: read one byte of input into the cell at the cursor.
    Input,
    /// `.`: write the cell at the cursor to the output.
    Output,
}

/// A program element: a single instruction, or a loop holding the ordered
/// sequence of its children.
pub enum Node {
    Instruction(Instruction),
    Loop(Vec<Node>),
}

/// The mathematical shape of a `Node`: loops hold sequences of abstract
/// nodes instead of vectors.  Contracts speak of programs through this type.
pub enum NodeV {
    Instruction(Instruction),
    Loop(Seq<NodeV>),
}

/// The abstract tree that a concrete `Node` stands for.
pub open spec fn view_node(n: Node) -> NodeV
    decreases n,
{
    match n {
        Node::Instruction(i) => NodeV::Instruction(i),
        Node::Loop(body) => NodeV::Loop(view_nodes(body@)),
    }
}

/// The abstract trees that a concrete node sequence stands for, in order.
pub open spec fn view_nodes(ns: Seq<Node>) -> Seq<NodeV>
    decreases ns,
{
    if ns.len() == 0 {
        Seq::empty()
    } else {
        seq![view_node(ns[0])] + view_nodes(ns.subrange(1, ns.len() as int))
    }
}

/// The instruction denoted by a character, if any; all other characters
/// (brackets aside) are comments.
pub open spec fn instr_of_char(c: char) -> Option<Instruction> {
    if c == '>' {
        Some(Instruction::InclPointer)
    } else if c == '<' {
        Some(Instruction::DeclPointer)
    } else if c == '+' {
        Some(Instruction::InclValue)
    } else if c == '-' {
        Some(Instruction::DeclValue)
    } else if c == ',' {
        Some(Instruction::Input)
    } else if c == '.' {
        Some(Instruction::Output)
    } else {
        None
    }
}

impl Instruction {
    /// The instruction a source character denotes, if any.
    pub fn from_char(c: &char) -> (r: Option<Instruction>)
        ensures
            r == instr_of_char(*c),
    {
        match *c {
            '>' => Some(Instruction::InclPointer),
            '<' => Some(Instruction::DeclPointer),
            '+' => Some(Instruction::InclValue),
            '-' => Some(Instruction::DeclValue),
            ',' => Some(Instruction::Input),
            '.' => Some(Instruction::Output),
            _ => None,
        }
    }
}

/// `view_nodes` maps a node sequence pointwise.
pub broadcast proof fn lemma_view_nodes(ns: Seq<Node>)
    ensures
        (#[trigger] view_nodes(ns)).len() == ns.len(),
        forall|i: int| 0 <= i < ns.len() ==> view_nodes(ns)[i] == view_node(ns[i]),
    decreases ns.len(),
{
    if ns.len() > 0 {
        lemma_view_nodes(ns.subrange(1, ns.len() as int));
    }
}

/// The source character of an instruction.
pub open spec fn char_of_instr(i: Instruction) -> char {
    match i {
        Instruction::InclPointer => '>',
        Instruction::DeclPointer => '<',
        Instruction::InclValue => '+',
        Instruction::DeclValue => '-',
        Instruction::Input => ',',
        Instruction::Output => '.',
    }
}

/// The source text a tree stands for, reconstructed: the instruction's
/// character for a leaf, the body between `[` and `]` for a loop.
pub open spec fn render_node(n: NodeV) -> Seq<char>
    decreases n, 0int,
{
    match n {
        NodeV::Instruction(i) => seq![char_of_instr(i)],
        NodeV::Loop(body) => seq!['['] + render_seq(body) + seq![']'],
    }
}

/// The source text of a node sequence: its nodes' texts in order.
pub open spec fn render_seq(ns: Seq<NodeV>) -> Seq<char>
    decreases ns, 1int,
{
    if ns.len() == 0 {
        Seq::empty()
    } else {
        render_node(ns[0]) + render_seq(ns.subrange(1, ns.len() as int))
    }
}

/// Rendering distributes over concatenation of node sequences.
pub proof fn lemma_render_seq_concat(a: Seq<NodeV>, b: Seq<NodeV>)
    ensures
        render_seq(a + b) == render_seq(a) + render_seq(b),
    decreases a.len(),
{
    if a.len() == 0 {
        assert(a + b =~= b);
        assert(render_seq(a) + render_seq(b) =~= render_seq(b));
    } else {
        let ra = a.subrange(1, a.len() as int);
        assert((a + b)[0] == a[0]);
        assert((a + b).subrange(1, (a + b).len() as int) =~= ra + b);
        lemma_render_seq_concat(ra, b);
        assert(render_node(a[0]) + (render_seq(ra) + render_seq(b)) =~= (render_node(a[0])
            + render_seq(ra)) + render_seq(b));
    }
}

} // verus!
