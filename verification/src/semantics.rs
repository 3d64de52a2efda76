use vstd::prelude::*;
use vstd::arithmetic::div_mod::lemma_add_mod_noop_right;
use vstd::arithmetic::div_mod::lemma_small_mod;
use vstd::arithmetic::div_mod::lemma_sub_mod_noop;
use crate::parser::Instruction;
use crate::interpreter::RuntimeError;

verus! {

/// The mathematical form of one instruction: counts are unbounded naturals
/// and a loop body is a sequence of instructions.
pub enum Inst {
    Right(nat),
    Left(nat),
    Inc(nat),
    Dec(nat),
    Out,
    In,
    Loop(Seq<Inst>),
}

/// The mathematical form of one executable instruction.
pub open spec fn inst_model(ins: Instruction) -> Inst
    decreases ins, 0int, 0int,
{
    match ins {
        Instruction::MovePointerRight(n) => Inst::Right(n as nat),
        Instruction::MovePointerLeft(n) => Inst::Left(n as nat),
        Instruction::IncrementCell(n) => Inst::Inc(n as nat),
        Instruction::DecrementCell(n) => Inst::Dec(n as nat),
        Instruction::DisplayCell => Inst::Out,
        Instruction::ReplaceCell => Inst::In,
        Instruction::While(body) => Inst::Loop(ast_model_from(body, 0)),
    }
}

/// The mathematical form of the tree held in `v`, from position `i` on.
pub open spec fn ast_model_from(v: Vec<Instruction>, i: nat) -> Seq<Inst>
    decreases v, v.len() - i, 1int,
{
    if i >= v.len() {
        Seq::empty()
    } else {
        seq![inst_model(v[i as int])] + ast_model_from(v, (i + 1) as nat)
    }
}

/// The mathematical form of a whole tree.
pub open spec fn ast_model(v: Vec<Instruction>) -> Seq<Inst> {
    ast_model_from(v, 0)
}

pub proof fn lemma_ast_model_from(v: Vec<Instruction>, i: nat)
    requires
        i <= v.len(),
    ensures
        ast_model_from(v, i).len() == v.len() - i,
        forall|j: int| 0 <= j < v.len() - i ==> ast_model_from(v, i)[j] == inst_model(v[i + j]),
    decreases v.len() - i,
{
    if i < v.len() {
        lemma_ast_model_from(v, (i + 1) as nat);
    }
}

/// Appending to a tree appends to its mathematical form.
pub proof fn lemma_ast_model_push(v: Vec<Instruction>, x: Instruction, w: Vec<Instruction>)
    requires
        w@ == v@.push(x),
    ensures
        ast_model(w) == ast_model(v).push(inst_model(x)),
{
    lemma_ast_model_from(v, 0);
    lemma_ast_model_from(w, 0);
    assert(ast_model(w) =~= ast_model(v).push(inst_model(x)));
}

/// Program memory: a growable sequence of byte cells and a cursor.
pub struct Tape {
    pub cells: Seq<u8>,
    pub cursor: nat,
}

/// The cursor always rests on an existing cell.
pub open spec fn tape_wf(t: Tape) -> bool {
    t.cursor < t.cells.len()
}

/// Extend `cells` with zeroes until it holds at least `n` cells.
pub open spec fn grow_to(cells: Seq<u8>, n: nat) -> Seq<u8> {
    if n <= cells.len() {
        cells
    } else {
        cells + Seq::new((n - cells.len()) as nat, |j: int| 0u8)
    }
}

/// Move the cursor right by `n`, growing the tape on demand.
pub open spec fn tape_right(t: Tape, n: nat) -> Tape {
    Tape { cells: grow_to(t.cells, t.cursor + n + 1), cursor: t.cursor + n }
}

/// Growth on write: moving the cursor right beyond the tape's end grows it
/// just far enough, new cells are zero, and every cell already written
/// keeps its value.
pub proof fn lemma_growth_preserves(t: Tape, n: nat)
    requires
        tape_wf(t),
    ensures
        tape_wf(tape_right(t, n)),
        tape_right(t, n).cursor == t.cursor + n,
        tape_right(t, n).cells.len() >= t.cells.len(),
        forall|j: int| 0 <= j < t.cells.len() ==> tape_right(t, n).cells[j] == t.cells[j],
        forall|j: int|
            t.cells.len() <= j < tape_right(t, n).cells.len() ==> tape_right(t, n).cells[j] == 0u8,
{
}

/// The value of the cell under the cursor.
pub open spec fn cell(t: Tape) -> u8 {
    t.cells[t.cursor as int]
}

/// Replace the value of the cell under the cursor.
pub open spec fn set_cell(t: Tape, v: u8) -> Tape {
    Tape { cells: t.cells.update(t.cursor as int, v), cursor: t.cursor }
}

/// Add `n` to the current cell, modulo 256.
pub open spec fn inc_cell(t: Tape, n: nat) -> Tape {
    set_cell(t, ((cell(t) + n) % 256) as u8)
}

/// Subtract `n` from the current cell, modulo 256.
pub open spec fn dec_cell(t: Tape, n: nat) -> Tape {
    set_cell(t, ((cell(t) - n) % 256) as u8)
}

/// A point in an execution: the tape and the input bytes not yet consumed.
pub struct State {
    pub tape: Tape,
    pub input: Seq<u8>,
}

pub open spec fn state_wf(st: State) -> bool {
    tape_wf(st.tape)
}

/// What running a program fragment yields: a final state and the bytes
/// written, a failure with the state and bytes at that point, or `Cut`
/// when the fuel ran out before the fragment finished.
pub enum Outcome {
    Done(State, Seq<u8>),
    Fail(RuntimeError, State, Seq<u8>),
    Cut,
}

/// Run one instruction. Fuel is spent only on loop iterations, so a larger
/// fuel never changes a finished outcome, it only resolves more `Cut`s.
pub open spec fn run_inst(ins: Inst, st: State, fuel: nat) -> Outcome
    decreases fuel, ins, 0int, 0int,
{
    match ins {
        Inst::Right(n) => Outcome::Done(
            State { tape: tape_right(st.tape, n), input: st.input },
            Seq::empty(),
        ),
        Inst::Left(n) => if n <= st.tape.cursor {
            Outcome::Done(
                State {
                    tape: Tape { cells: st.tape.cells, cursor: (st.tape.cursor - n) as nat },
                    input: st.input,
                },
                Seq::empty(),
            )
        } else {
            Outcome::Fail(RuntimeError::NegativeAddress, st, Seq::empty())
        },
        Inst::Inc(n) => Outcome::Done(
            State { tape: inc_cell(st.tape, n), input: st.input },
            Seq::empty(),
        ),
        Inst::Dec(n) => Outcome::Done(
            State { tape: dec_cell(st.tape, n), input: st.input },
            Seq::empty(),
        ),
        Inst::Out => Outcome::Done(st, seq![cell(st.tape)]),
        Inst::In => if st.input.len() == 0 {
            Outcome::Fail(RuntimeError::IOReadFailure, st, Seq::empty())
        } else {
            Outcome::Done(
                State { tape: set_cell(st.tape, st.input[0]), input: st.input.drop_first() },
                Seq::empty(),
            )
        },
        Inst::Loop(body) => if cell(st.tape) == 0 {
            Outcome::Done(st, Seq::empty())
        } else if fuel == 0 {
            Outcome::Cut
        } else {
            match run_seq(body, 0, st, (fuel - 1) as nat) {
                Outcome::Done(st1, o1) => match run_inst(ins, st1, (fuel - 1) as nat) {
                    Outcome::Done(st2, o2) => Outcome::Done(st2, o1 + o2),
                    Outcome::Fail(e, stf, o2) => Outcome::Fail(e, stf, o1 + o2),
                    Outcome::Cut => Outcome::Cut,
                },
                Outcome::Fail(e, stf, o1) => Outcome::Fail(e, stf, o1),
                Outcome::Cut => Outcome::Cut,
            }
        },
    }
}

/// Run the instructions of `s` from position `i` on, in order.
pub open spec fn run_seq(s: Seq<Inst>, i: nat, st: State, fuel: nat) -> Outcome
    decreases fuel, s, s.len() - i, 2int,
{
    if i >= s.len() {
        Outcome::Done(st, Seq::empty())
    } else {
        match run_inst(s[i as int], st, fuel) {
            Outcome::Done(st1, o1) => match run_seq(s, (i + 1) as nat, st1, fuel) {
                Outcome::Done(st2, o2) => Outcome::Done(st2, o1 + o2),
                Outcome::Fail(e, stf, o2) => Outcome::Fail(e, stf, o1 + o2),
                Outcome::Cut => Outcome::Cut,
            },
            Outcome::Fail(e, stf, o1) => Outcome::Fail(e, stf, o1),
            Outcome::Cut => Outcome::Cut,
        }
    }
}

/// Prepend bytes already written to an outcome's output.
pub open spec fn with_out(o: Seq<u8>, r: Outcome) -> Outcome {
    match r {
        Outcome::Done(st, o2) => Outcome::Done(st, o + o2),
        Outcome::Fail(e, st, o2) => Outcome::Fail(e, st, o + o2),
        Outcome::Cut => Outcome::Cut,
    }
}

pub proof fn lemma_with_out_assoc(a: Seq<u8>, b: Seq<u8>, r: Outcome)
    ensures
        with_out(a, with_out(b, r)) == with_out(a + b, r),
{
    match r {
        Outcome::Done(st, o2) => {
            assert(a + (b + o2) =~= (a + b) + o2);
        }
        Outcome::Fail(e, st, o2) => {
            assert(a + (b + o2) =~= (a + b) + o2);
        }
        Outcome::Cut => {}
    }
}

/// Applying a count modulo 256 to a cell is the same as applying it whole.
pub proof fn lemma_inc_cell_mod(t: Tape, n: nat)
    ensures
        inc_cell(t, n % 256) == inc_cell(t, n),
{
    lemma_add_mod_noop_right(cell(t) as int, n as int, 256);
}

/// Subtracting a count modulo 256 from a cell is the same as the whole count.
pub proof fn lemma_dec_cell_mod(t: Tape, n: nat)
    ensures
        dec_cell(t, n % 256) == dec_cell(t, n),
{
    lemma_sub_mod_noop(cell(t) as int, n as int, 256);
    lemma_small_mod(cell(t) as nat, 256);
}

/// A number below 512 reduces modulo 256 by at most one subtraction.
pub proof fn lemma_mod256_wrap(x: int)
    requires
        -256 <= x < 512,
    ensures
        x % 256 == if x < 0 {
            x + 256
        } else if x < 256 {
            x
        } else {
            x - 256
        },
{
    if x < 0 {
        vstd::arithmetic::div_mod::lemma_mod_add_multiples_vanish(x, 256);
        lemma_small_mod((x + 256) as nat, 256);
    } else if x < 256 {
        lemma_small_mod(x as nat, 256);
    } else {
        vstd::arithmetic::div_mod::lemma_mod_sub_multiples_vanish(x, 256);
        lemma_small_mod((x - 256) as nat, 256);
    }
}

pub proof fn lemma_with_out_empty(r: Outcome)
    ensures
        with_out(Seq::empty(), r) == r,
{
    match r {
        Outcome::Done(st, o2) => {
            assert(Seq::empty() + o2 =~= o2);
        }
        Outcome::Fail(e, st, o2) => {
            assert(Seq::empty() + o2 =~= o2);
        }
        Outcome::Cut => {}
    }
}

/// A run gives up when the fuel ran out or the tape outgrew the machine:
/// the interpreter reports such a run as exhausted.
pub open spec fn gives_up(r: Outcome) -> bool {
    match r {
        Outcome::Done(st, _) => st.tape.cells.len() > usize::MAX,
        Outcome::Fail(_, st, _) => st.tape.cells.len() > usize::MAX,
        Outcome::Cut => true,
    }
}

pub proof fn lemma_with_out_gives_up(o: Seq<u8>, r: Outcome)
    ensures
        gives_up(with_out(o, r)) == gives_up(r),
{
    match r {
        Outcome::Done(st, o2) => {}
        Outcome::Fail(e, st, o2) => {}
        Outcome::Cut => {}
    }
}

/// One unfolding of `run_seq` at a position inside the sequence.
pub proof fn lemma_seq_step(v: Seq<Inst>, i: nat, st: State, f: nat)
    requires
        i < v.len(),
    ensures
        run_seq(v, i, st, f) == (match run_inst(v[i as int], st, f) {
            Outcome::Done(st1, o1) => with_out(o1, run_seq(v, (i + 1) as nat, st1, f)),
            Outcome::Fail(e, stf, o1) => Outcome::Fail(e, stf, o1),
            Outcome::Cut => Outcome::Cut,
        }),
{
    match run_inst(v[i as int], st, f) {
        Outcome::Done(st1, o1) => {
            match run_seq(v, (i + 1) as nat, st1, f) {
                Outcome::Done(st2, o2) => {}
                Outcome::Fail(e, stf, o2) => {}
                Outcome::Cut => {}
            }
        }
        Outcome::Fail(e, stf, o1) => {}
        Outcome::Cut => {}
    }
}

/// One unfolding of a loop that was entered with fuel left.
pub proof fn lemma_loop_step(w: Inst, body: Seq<Inst>, st: State, g: nat)
    requires
        w == Inst::Loop(body),
        cell(st.tape) != 0,
        g > 0,
    ensures
        run_inst(w, st, g) == (match run_seq(body, 0, st, (g - 1) as nat) {
            Outcome::Done(st1, o1) => with_out(o1, run_inst(w, st1, (g - 1) as nat)),
            Outcome::Fail(e, stf, o1) => Outcome::Fail(e, stf, o1),
            Outcome::Cut => Outcome::Cut,
        }),
{
    match run_seq(body, 0, st, (g - 1) as nat) {
        Outcome::Done(st1, o1) => {
            match run_inst(w, st1, (g - 1) as nat) {
                Outcome::Done(st2, o2) => {}
                Outcome::Fail(e, stf, o2) => {}
                Outcome::Cut => {}
            }
        }
        Outcome::Fail(e, stf, o1) => {}
        Outcome::Cut => {}
    }
}

/// Every step keeps the cursor on the tape, and the tape never shrinks.
pub proof fn lemma_run_inst_props(ins: Inst, st: State, fuel: nat)
    requires
        state_wf(st),
    ensures
        match run_inst(ins, st, fuel) {
            Outcome::Done(st1, _) => state_wf(st1) && st1.tape.cells.len()
                >= st.tape.cells.len(),
            Outcome::Fail(_, stf, _) => state_wf(stf) && stf.tape.cells.len()
                >= st.tape.cells.len(),
            Outcome::Cut => true,
        },
    decreases fuel, ins, 0int, 0int,
{
    match ins {
        Inst::Right(n) => {
            assert(tape_right(st.tape, n).cells.len() > st.tape.cursor + n);
        }
        Inst::Loop(body) => {
            if cell(st.tape) != 0 && fuel > 0 {
                lemma_run_seq_props(body, 0, st, (fuel - 1) as nat);
                match run_seq(body, 0, st, (fuel - 1) as nat) {
                    Outcome::Done(st1, o1) => {
                        lemma_run_inst_props(ins, st1, (fuel - 1) as nat);
                    }
                    _ => {}
                }
            }
        }
        _ => {}
    }
}

/// Running a sequence keeps the cursor on the tape and never shrinks it.
pub proof fn lemma_run_seq_props(s: Seq<Inst>, i: nat, st: State, fuel: nat)
    requires
        state_wf(st),
    ensures
        match run_seq(s, i, st, fuel) {
            Outcome::Done(st1, _) => state_wf(st1) && st1.tape.cells.len()
                >= st.tape.cells.len(),
            Outcome::Fail(_, stf, _) => state_wf(stf) && stf.tape.cells.len()
                >= st.tape.cells.len(),
            Outcome::Cut => true,
        },
    decreases fuel, s, s.len() - i, 2int,
{
    if i < s.len() {
        lemma_run_inst_props(s[i as int], st, fuel);
        match run_inst(s[i as int], st, fuel) {
            Outcome::Done(st1, o1) => {
                lemma_run_seq_props(s, (i + 1) as nat, st1, fuel);
            }
            _ => {}
        }
    }
}

} // verus!
