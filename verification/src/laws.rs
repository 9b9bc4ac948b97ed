use vstd::prelude::*;

use crate::ast::Instruction;
use crate::ast::NodeV;
use crate::ast::char_of_instr;
use crate::ast::instr_of_char;
use crate::ast::render_node;
use crate::ast::render_seq;
use crate::parser::ParseError;
use crate::parser::parse_from;
use crate::parser::parse_spec;
use crate::parser::parse_step;
use crate::parser::push_top;
use crate::semantics::RunResult;
use crate::semantics::StateV;
use crate::semantics::run_node;
use crate::semantics::run_seq;
use crate::semantics::step_instr;

verus! {

/// A scan composes: scanning `a + b` is scanning `a`, then `b` from the
/// stack that `a` leaves.
proof fn lemma_parse_from_append(a: Seq<char>, b: Seq<char>, stack: Seq<Seq<NodeV>>)
    ensures
        parse_from(a + b, stack) == (match parse_from(a, stack) {
            Ok(st) => parse_from(b, st),
            Err(e) => Err::<Seq<Seq<NodeV>>, ParseError>(e),
        }),
    decreases a.len(),
{
    if a.len() == 0 {
        assert(a + b =~= b);
    } else {
        let ra = a.subrange(1, a.len() as int);
        assert((a + b)[0] == a[0]);
        assert((a + b).subrange(1, (a + b).len() as int) =~= ra + b);
        match parse_step(stack, a[0]) {
            Ok(st) => lemma_parse_from_append(ra, b, st),
            Err(e) => {},
        }
    }
}

/// Scanning the reconstructed text of one tree appends exactly that tree to
/// the top of any open stack.
proof fn lemma_render_node_parses(n: NodeV, stack: Seq<Seq<NodeV>>)
    requires
        stack.len() >= 1,
    ensures
        parse_from(render_node(n), stack) == Ok::<Seq<Seq<NodeV>>, ParseError>(push_top(stack, n)),
    decreases n, 0int,
{
    match n {
        NodeV::Instruction(i) => {
            let cs = seq![char_of_instr(i)];
            assert(instr_of_char(char_of_instr(i)) == Some(i));
            assert(cs.subrange(1, 1) =~= Seq::<char>::empty());
        },
        NodeV::Loop(body) => {
            let open = seq!['['];
            let close = seq![']'];
            let mid = render_seq(body);
            assert(render_node(n) =~= open + (mid + close));
            lemma_parse_from_append(open, mid + close, stack);
            assert(open.subrange(1, 1) =~= Seq::<char>::empty());
            let st1 = stack.push(Seq::<NodeV>::empty());
            assert(instr_of_char('[') is None);
            assert(parse_from(Seq::<char>::empty(), st1) == Ok::<Seq<Seq<NodeV>>, ParseError>(st1));
            assert(parse_from(open, stack) == Ok::<Seq<Seq<NodeV>>, ParseError>(st1));
            lemma_parse_from_append(mid, close, st1);
            lemma_render_seq_parses(body, st1);
            let st2 = st1.update(st1.len() - 1, st1.last() + body);
            assert(Seq::<NodeV>::empty() + body =~= body);
            assert(st2 =~~= stack.push(body));
            assert(close.subrange(1, 1) =~= Seq::<char>::empty());
            assert(instr_of_char(']') is None);
            assert(stack.push(body).drop_last() =~~= stack);
            assert(stack.push(body).last() == body);
            assert(parse_from(Seq::<char>::empty(), push_top(stack, n)) == Ok::<
                Seq<Seq<NodeV>>,
                ParseError,
            >(push_top(stack, n)));
            assert(parse_from(close, stack.push(body)) == Ok::<Seq<Seq<NodeV>>, ParseError>(
                push_top(stack, n),
            ));
        },
    }
}

/// Scanning the reconstructed text of a tree sequence appends those trees,
/// in order, to the top of any open stack.
proof fn lemma_render_seq_parses(ns: Seq<NodeV>, stack: Seq<Seq<NodeV>>)
    requires
        stack.len() >= 1,
    ensures
        parse_from(render_seq(ns), stack) == Ok::<Seq<Seq<NodeV>>, ParseError>(
            stack.update(stack.len() - 1, stack.last() + ns),
        ),
    decreases ns, 1int,
{
    if ns.len() == 0 {
        assert(stack.last() + ns =~= stack.last());
        assert(stack.update(stack.len() - 1, stack.last() + ns) =~~= stack);
    } else {
        let rest = ns.subrange(1, ns.len() as int);
        lemma_parse_from_append(render_node(ns[0]), render_seq(rest), stack);
        lemma_render_node_parses(ns[0], stack);
        let st1 = push_top(stack, ns[0]);
        lemma_render_seq_parses(rest, st1);
        assert(stack.last().push(ns[0]) + rest =~= stack.last() + ns);
        assert(st1.update(st1.len() - 1, st1.last() + rest) =~~= stack.update(
            stack.len() - 1,
            stack.last() + ns,
        ));
    }
}

/// How many times a character occurs in a sequence.
pub open spec fn count_char(cs: Seq<char>, c: char) -> nat
    decreases cs.len(),
{
    if cs.len() == 0 {
        0
    } else {
        (if cs[0] == c {
            1nat
        } else {
            0nat
        }) + count_char(cs.subrange(1, cs.len() as int), c)
    }
}

/// Counting distributes over concatenation.
pub proof fn lemma_count_char_concat(a: Seq<char>, b: Seq<char>, c: char)
    ensures
        count_char(a + b, c) == count_char(a, c) + count_char(b, c),
    decreases a.len(),
{
    if a.len() == 0 {
        assert(a + b =~= b);
    } else {
        assert((a + b)[0] == a[0]);
        assert((a + b).subrange(1, (a + b).len() as int) =~= a.subrange(1, a.len() as int) + b);
        lemma_count_char_concat(a.subrange(1, a.len() as int), b, c);
    }
}

/// Every prefix closes at most as many loops as it opens, and the whole
/// text closes exactly as many as it opens.
pub open spec fn well_nested(cs: Seq<char>) -> bool {
    &&& forall|k: int|
        0 <= k <= cs.len() ==> count_char(cs.subrange(0, k), ']') <= count_char(
            cs.subrange(0, k),
            '[',
        )
    &&& count_char(cs, ']') == count_char(cs, '[')
}

/// No prefix of `cs` holds an excess of `]` over `[` that reaches `h`: a
/// scan started from `h` open sequences never pops the top-level one.
pub open spec fn closes_stay_below(cs: Seq<char>, h: int) -> bool {
    forall|k: int|
        0 <= k <= cs.len() ==> count_char(cs.subrange(0, k), ']') < h + count_char(
            cs.subrange(0, k),
            '[',
        )
}

/// The scan of `cs` from a stack of height `h` succeeds exactly when no
/// prefix's excess of `]` reaches `h`, and then leaves a stack of height
/// `h` plus the text's surplus of `[`; otherwise it stops at the
/// offending `]`.
proof fn lemma_parse_from_counts(cs: Seq<char>, stack: Seq<Seq<NodeV>>)
    requires
        stack.len() >= 1,
    ensures
        closes_stay_below(cs, stack.len() as int) ==> (parse_from(cs, stack) matches Ok(st)
            && st.len() + count_char(cs, ']') == stack.len() + count_char(cs, '[')),
        !closes_stay_below(cs, stack.len() as int) ==> parse_from(cs, stack) == Err::<
            Seq<Seq<NodeV>>,
            ParseError,
        >(ParseError::UnmatchedClosing),
    decreases cs.len(),
{
    let h = stack.len() as int;
    if cs.len() == 0 {
        assert(cs.subrange(0, 0) =~= cs);
        assert(closes_stay_below(cs, h));
    } else {
        let c = cs[0];
        let rest = cs.subrange(1, cs.len() as int);
        assert forall|k: int| 1 <= k <= cs.len() implies {
            &&& count_char(cs.subrange(0, k), ']') == (if c == ']' {
                1nat
            } else {
                0nat
            }) + count_char(rest.subrange(0, k - 1), ']')
            &&& count_char(cs.subrange(0, k), '[') == (if c == '[' {
                1nat
            } else {
                0nat
            }) + count_char(rest.subrange(0, k - 1), '[')
        } by {
            let p = cs.subrange(0, k);
            assert(p[0] == c);
            assert(p.subrange(1, k) =~= rest.subrange(0, k - 1));
        }
        assert(cs.subrange(0, 0) =~= Seq::<char>::empty());
        assert(rest.subrange(0, rest.len() as int) =~= rest);
        assert(cs.subrange(0, cs.len() as int) =~= cs);
        match parse_step(stack, c) {
            Err(e) => {
                // only a `]` on a stack of height one fails, and its
                // one-character prefix already reaches the height
                assert(c == ']' && stack.len() == 1);
                assert(count_char(cs.subrange(0, 1), ']') == 1 + count_char(
                    rest.subrange(0, 0),
                    ']',
                ));
                assert(rest.subrange(0, 0) =~= Seq::<char>::empty());
                assert(!closes_stay_below(cs, h));
            },
            Ok(st2) => {
                let h2 = st2.len() as int;
                assert(st2.len() >= 1);
                lemma_parse_from_counts(rest, st2);
                if closes_stay_below(cs, h) {
                    assert(closes_stay_below(rest, h2)) by {
                        assert forall|k: int| 0 <= k <= rest.len() implies count_char(
                            rest.subrange(0, k),
                            ']',
                        ) < h2 + count_char(rest.subrange(0, k), '[') by {
                            assert(count_char(cs.subrange(0, k + 1), ']') < h + count_char(
                                cs.subrange(0, k + 1),
                                '[',
                            ));
                        }
                    }
                } else {
                    assert(!closes_stay_below(rest, h2)) by {
                        let k = choose|k: int|
                            0 <= k <= cs.len() && count_char(cs.subrange(0, k), ']') >= h
                                + count_char(cs.subrange(0, k), '[');
                        assert(k >= 1);
                        assert(count_char(rest.subrange(0, k - 1), ']') >= h2 + count_char(
                            rest.subrange(0, k - 1),
                            '[',
                        ));
                    }
                }
            },
        }
    }
}

/// For all sources with equal counts of `[` and `]` in a well-nested
/// arrangement, parsing succeeds.
pub proof fn theorem_well_nested_parses(cs: Seq<char>)
    requires
        well_nested(cs),
    ensures
        parse_spec(cs) is Ok,
{
    let init = seq![Seq::<NodeV>::empty()];
    lemma_parse_from_counts(cs, init);
    assert(closes_stay_below(cs, 1));
    assert(cs.subrange(0, cs.len() as int) =~= cs);
}

/// A source whose first `k` characters hold more `]` than `[`, with `k`
/// least such, fails exactly at that `]`: the scan of everything before it
/// succeeds, that character fails it, and the whole parse reports the
/// unmatched closing bracket.
pub proof fn theorem_excess_close_fails(cs: Seq<char>, k: int)
    requires
        1 <= k <= cs.len(),
        count_char(cs.subrange(0, k), ']') > count_char(cs.subrange(0, k), '['),
        forall|j: int|
            0 <= j < k ==> count_char(cs.subrange(0, j), ']') <= count_char(
                cs.subrange(0, j),
                '[',
            ),
    ensures
        cs[k - 1] == ']',
        parse_from(cs.subrange(0, k - 1), seq![Seq::<NodeV>::empty()]) is Ok,
        parse_from(cs, seq![Seq::<NodeV>::empty()]) == Err::<Seq<Seq<NodeV>>, ParseError>(
            ParseError::UnmatchedClosing,
        ),
        parse_spec(cs) == Err::<Seq<NodeV>, ParseError>(ParseError::UnmatchedClosing),
{
    let init = seq![Seq::<NodeV>::empty()];
    let before = cs.subrange(0, k - 1);
    let at = cs.subrange(0, k);
    assert(at =~= before + seq![cs[k - 1]]);
    lemma_count_char_concat(before, seq![cs[k - 1]], ']');
    lemma_count_char_concat(before, seq![cs[k - 1]], '[');
    assert(seq![cs[k - 1]].subrange(1, 1) =~= Seq::<char>::empty());
    assert(count_char(Seq::<char>::empty(), ']') == 0);
    assert(count_char(Seq::<char>::empty(), '[') == 0);
    assert(cs[k - 1] == ']');
    // the scan of the shortest offending prefix's body succeeds
    lemma_parse_from_counts(before, init);
    assert(closes_stay_below(before, 1)) by {
        assert forall|j: int| 0 <= j <= before.len() implies count_char(before.subrange(0, j), ']')
            < 1 + count_char(before.subrange(0, j), '[') by {
            assert(before.subrange(0, j) =~= cs.subrange(0, j));
        }
    }
    // the whole text fails with the closing error
    lemma_parse_from_counts(cs, init);
    assert(!closes_stay_below(cs, 1)) by {
        assert(count_char(at, ']') >= 1 + count_char(at, '['));
    }
}

/// A source with no prefix in excess of `]` but with unclosed `[` overall
/// fails only after the full scan completes, with the unmatched opening
/// error.
pub proof fn theorem_unclosed_open_fails(cs: Seq<char>)
    requires
        forall|k: int|
            0 <= k <= cs.len() ==> count_char(cs.subrange(0, k), ']') <= count_char(
                cs.subrange(0, k),
                '[',
            ),
        count_char(cs, '[') > count_char(cs, ']'),
    ensures
        parse_from(cs, seq![Seq::<NodeV>::empty()]) is Ok,
        parse_spec(cs) == Err::<Seq<NodeV>, ParseError>(ParseError::UnmatchedOpening),
{
    let init = seq![Seq::<NodeV>::empty()];
    lemma_parse_from_counts(cs, init);
    assert(closes_stay_below(cs, 1));
    assert(cs.subrange(0, cs.len() as int) =~= cs);
}

/// Parsing is idempotent on already-valid programs: the source text
/// reconstructed from a parsed program parses back to a structurally
/// identical program.
pub proof fn theorem_render_parse_roundtrip(ns: Seq<NodeV>)
    ensures
        parse_spec(render_seq(ns)) == Ok::<Seq<NodeV>, ParseError>(ns),
{
    let init = seq![Seq::<NodeV>::empty()];
    lemma_render_seq_parses(ns, init);
    assert(init.last() + ns =~= ns);
    assert(init.update(0, init.last() + ns) =~~= seq![ns]);
}

/// Cell arithmetic wraps modulo 256 for all inputs: incrementing 255
/// yields 0, decrementing 0 yields 255, and otherwise the cell moves by
/// one; nothing else of the state changes.
pub proof fn theorem_cell_arithmetic_wraps(s: StateV)
    requires
        s.valid(),
    ensures
        step_instr(s, Instruction::InclValue) matches RunResult::Done(t) && t.cell() as int == (
        if s.cell() == 255 {
            0int
        } else {
            s.cell() as int + 1
        }),
        step_instr(s, Instruction::DeclValue) matches RunResult::Done(t) && t.cell() as int == (
        if s.cell() == 0 {
            255int
        } else {
            s.cell() as int - 1
        }),
{
}

/// State `t` lies downstream of state `s`: still valid, its tape no
/// shorter, the same input with reading only advanced, and the output of
/// `s` kept unchanged as a prefix.
pub open spec fn extends(s: StateV, t: StateV) -> bool {
    &&& t.valid()
    &&& t.tape.len() >= s.tape.len()
    &&& t.input == s.input
    &&& t.in_pos >= s.in_pos
    &&& t.output.len() >= s.output.len()
    &&& t.output.subrange(0, s.output.len() as int) == s.output
}

/// The state a run result carries.
pub open spec fn result_state(r: RunResult) -> StateV {
    match r {
        RunResult::Done(t) => t,
        RunResult::Failed(t, _) => t,
        RunResult::OutOfFuel(t) => t,
    }
}

proof fn lemma_extends_refl(s: StateV)
    requires
        s.valid(),
    ensures
        extends(s, s),
{
    assert(s.output.subrange(0, s.output.len() as int) =~= s.output);
}

proof fn lemma_extends_trans(s: StateV, t: StateV, u: StateV)
    requires
        extends(s, t),
        extends(t, u),
    ensures
        extends(s, u),
{
    assert(u.output.subrange(0, s.output.len() as int) =~= s.output);
}

/// One instruction only moves the state downstream.
proof fn lemma_step_extends(s: StateV, i: Instruction)
    requires
        s.valid(),
    ensures
        extends(s, result_state(step_instr(s, i))),
{
    let t = result_state(step_instr(s, i));
    assert(t.output.subrange(0, s.output.len() as int) =~= s.output);
}

/// Tape growth is monotonic and one-sided, and the cursor stays on the
/// tape: whatever a run of one node comes to — completion, failure, or
/// fuel running out — the state it carries extends the starting state.
pub proof fn theorem_run_node_monotonic(s: StateV, n: NodeV, fuel: nat)
    requires
        s.valid(),
    ensures
        extends(s, result_state(run_node(s, n, fuel))),
    decreases fuel, n, 0int,
{
    match n {
        NodeV::Instruction(i) => {
            lemma_step_extends(s, i);
        },
        NodeV::Loop(body) => {
            if s.cell() == 0 || fuel == 0 {
                lemma_extends_refl(s);
            } else {
                theorem_run_seq_monotonic(s, body, (fuel - 1) as nat);
                match run_seq(s, body, (fuel - 1) as nat) {
                    RunResult::Done(s2) => {
                        theorem_run_node_monotonic(s2, n, (fuel - 1) as nat);
                        lemma_extends_trans(
                            s,
                            s2,
                            result_state(run_node(s2, n, (fuel - 1) as nat)),
                        );
                    },
                    _ => {},
                }
            }
        },
    }
}

/// As `theorem_run_node_monotonic`, for a run of a node sequence.
pub proof fn theorem_run_seq_monotonic(s: StateV, ns: Seq<NodeV>, fuel: nat)
    requires
        s.valid(),
    ensures
        extends(s, result_state(run_seq(s, ns, fuel))),
    decreases fuel, ns, 1int,
{
    if ns.len() == 0 {
        lemma_extends_refl(s);
    } else {
        theorem_run_node_monotonic(s, ns[0], fuel);
        match run_node(s, ns[0], fuel) {
            RunResult::Done(s2) => {
                theorem_run_seq_monotonic(s2, ns.subrange(1, ns.len() as int), fuel);
                lemma_extends_trans(
                    s,
                    s2,
                    result_state(run_seq(s2, ns.subrange(1, ns.len() as int), fuel)),
                );
            },
            _ => {},
        }
    }
}

/// A run of one node that has come to its answer keeps it under more
/// fuel: only a result of `OutOfFuel` can change when the bound is raised.
pub proof fn theorem_run_node_fuel_monotonic(s: StateV, n: NodeV, f1: nat, f2: nat)
    requires
        f1 <= f2,
        !(run_node(s, n, f1) is OutOfFuel),
    ensures
        run_node(s, n, f2) == run_node(s, n, f1),
    decreases f1, n, 0int,
{
    match n {
        NodeV::Instruction(i) => {},
        NodeV::Loop(body) => {
            if s.cell() != 0 {
                assert(f1 > 0);
                match run_seq(s, body, (f1 - 1) as nat) {
                    RunResult::Done(s2) => {
                        theorem_run_seq_fuel_monotonic(s, body, (f1 - 1) as nat, (f2 - 1) as nat);
                        theorem_run_node_fuel_monotonic(s2, n, (f1 - 1) as nat, (f2 - 1) as nat);
                    },
                    RunResult::Failed(s2, e) => {
                        theorem_run_seq_fuel_monotonic(s, body, (f1 - 1) as nat, (f2 - 1) as nat);
                    },
                    RunResult::OutOfFuel(s2) => {},
                }
            }
        },
    }
}

/// As `theorem_run_node_fuel_monotonic`, for a run of a node sequence.
pub proof fn theorem_run_seq_fuel_monotonic(s: StateV, ns: Seq<NodeV>, f1: nat, f2: nat)
    requires
        f1 <= f2,
        !(run_seq(s, ns, f1) is OutOfFuel),
    ensures
        run_seq(s, ns, f2) == run_seq(s, ns, f1),
    decreases f1, ns, 1int,
{
    if ns.len() > 0 {
        match run_node(s, ns[0], f1) {
            RunResult::Done(s2) => {
                theorem_run_node_fuel_monotonic(s, ns[0], f1, f2);
                theorem_run_seq_fuel_monotonic(s2, ns.subrange(1, ns.len() as int), f1, f2);
            },
            RunResult::Failed(s2, e) => {
                theorem_run_node_fuel_monotonic(s, ns[0], f1, f2);
            },
            RunResult::OutOfFuel(s2) => {},
        }
    }
}

} // verus!
