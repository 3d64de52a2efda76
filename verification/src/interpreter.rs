use vstd::prelude::*;
use crate::parser::Instruction;
use crate::semantics::Inst;
use crate::semantics::Outcome;
use crate::semantics::State;
use crate::semantics::Tape;
use crate::semantics::ast_model;
use crate::semantics::cell;
use crate::semantics::dec_cell;
use crate::semantics::gives_up;
use crate::semantics::inc_cell;
use crate::semantics::inst_model;
use crate::semantics::lemma_ast_model_from;
use crate::semantics::lemma_dec_cell_mod;
use crate::semantics::lemma_inc_cell_mod;
use crate::semantics::lemma_loop_step;
use crate::semantics::lemma_mod256_wrap;
use crate::semantics::lemma_run_inst_props;
use crate::semantics::lemma_run_seq_props;
use crate::semantics::lemma_seq_step;
use crate::semantics::lemma_with_out_assoc;
use crate::semantics::lemma_with_out_empty;
use crate::semantics::lemma_with_out_gives_up;
use crate::semantics::run_inst;
use crate::semantics::run_seq;
use crate::semantics::set_cell;
use crate::semantics::state_wf;
use crate::semantics::tape_right;
use crate::semantics::tape_wf;
use crate::semantics::with_out;

verus! {

broadcast use vstd::std_specs::vec::group_vec_axioms;

/// A failure raised while a program runs: moving the pointer left of cell
/// zero, or a byte that could not be read or written.
#[derive(Clone, Copy, Debug, PartialEq, Eq, Structural)]
pub enum RuntimeError {
    NegativeAddress,
    IOReadFailure,
    IOWriteFailure,
}

/// Program memory: a growable vector of byte cells and a cursor. This is the
/// executable form of the `Tape` model.
pub struct Memory {
    cells: Vec<u8>,
    index: usize,
}

impl View for Memory {
    type V = Tape;

    closed spec fn view(&self) -> Tape {
        Tape { cells: self.cells@, cursor: self.index as nat }
    }
}

impl Memory {
    /// The cursor always rests on an existing cell.
    pub open spec fn wf(&self) -> bool {
        tape_wf(self@)
    }

    /// A fresh tape of `memory` zeroed cells, the cursor on cell zero.
    pub fn new(memory: usize) -> (r: Memory)
        requires
            memory >= 1,
        ensures
            r@ == (Tape { cells: Seq::new(memory as nat, |j: int| 0u8), cursor: 0 }),
            r.wf(),
    {
        let mut cells: Vec<u8> = Vec::new();
        while cells.len() < memory
            invariant
                cells@.len() <= memory,
                forall|j: int| 0 <= j < cells@.len() ==> cells@[j] == 0u8,
            decreases memory - cells.len(),
        {
            cells.push(0u8);
        }
        proof {
            assert(cells@ =~= Seq::new(memory as nat, |j: int| 0u8));
        }
        Memory { cells, index: 0 }
    }

    /// Add `n` to the current cell, wrapping modulo 256.
    pub fn increment_cell(&mut self, n: u8)
        requires
            old(self).wf(),
        ensures
            final(self).wf(),
            final(self)@ == inc_cell(old(self)@, n as nat),
    {
        let value = self.cells[self.index];
        self.cells.set(self.index, value.wrapping_add(n));
        proof {
            lemma_mod256_wrap(value + n);
        }
    }

    /// Subtract `n` from the current cell, wrapping modulo 256.
    pub fn decrement_cell(&mut self, n: u8)
        requires
            old(self).wf(),
        ensures
            final(self).wf(),
            final(self)@ == dec_cell(old(self)@, n as nat),
    {
        let value = self.cells[self.index];
        self.cells.set(self.index, value.wrapping_sub(n));
        proof {
            lemma_mod256_wrap(value - n);
        }
    }

    /// Move the cursor right by `n` cells, growing the tape with zeroed
    /// cells whenever it ends before the new position. Returns false, and
    /// leaves the tape alone, only when the new position would not fit in
    /// the address space.
    pub fn next_cell(&mut self, n: usize) -> (r: bool)
        requires
            old(self).wf(),
        ensures
            final(self).wf(),
            old(self)@.cursor + n + 1 <= usize::MAX ==> r && final(self)@ == tape_right(
                old(self)@,
                n as nat,
            ),
            old(self)@.cursor + n + 1 > usize::MAX ==> !r && final(self)@ == old(self)@,
    {
        match self.index.checked_add(n) {
            Some(ni) => {
                if ni < usize::MAX {
                    self.index = ni;
                    while self.cells.len() <= ni
                        invariant
                            self.index == ni,
                            ni < usize::MAX,
                            self.cells@.len() >= old(self)@.cells.len(),
                            old(self)@.cells == self.cells@.subrange(
                                0,
                                old(self)@.cells.len() as int,
                            ),
                            forall|j: int|
                                old(self)@.cells.len() <= j < self.cells@.len()
                                    ==> self.cells@[j] == 0u8,
                            self.cells@.len() <= old(self)@.cells.len() || self.cells@.len() <= ni
                                + 1,
                        decreases ni + 1 - self.cells.len(),
                    {
                        self.cells.push(0u8);
                    }
                    proof {
                        assert(self.cells@ =~= crate::semantics::grow_to(
                            old(self)@.cells,
                            (ni + 1) as nat,
                        ));
                    }
                    true
                } else {
                    false
                }
            }
            None => false,
        }
    }

    /// Move the cursor left by `n` cells; refuse to move past cell zero.
    pub fn previous_cell(&mut self, n: usize) -> (r: Result<(), RuntimeError>)
        requires
            old(self).wf(),
        ensures
            final(self).wf(),
            n <= old(self)@.cursor ==> r is Ok && final(self)@ == (Tape {
                cells: old(self)@.cells,
                cursor: (old(self)@.cursor - n) as nat,
            }),
            n > old(self)@.cursor ==> r == Err::<(), RuntimeError>(RuntimeError::NegativeAddress)
                && final(self)@ == old(self)@,
    {
        if n > self.index {
            return Err(RuntimeError::NegativeAddress);
        }
        self.index = self.index - n;
        Ok(())
    }

    /// The value of the cell under the cursor.
    pub fn current_cell_value(&self) -> (r: u8)
        requires
            self.wf(),
        ensures
            r == cell(self@),
    {
        self.cells[self.index]
    }

    /// Replace the value of the cell under the cursor.
    pub fn set_current_cell_value(&mut self, value: u8)
        requires
            old(self).wf(),
        ensures
            final(self).wf(),
            final(self)@ == set_cell(old(self)@, value),
    {
        self.cells.set(self.index, value);
    }
}

/// Run a whole program against a fresh tape of `memory` cells, allowing up
/// to `fuel` iterations of each loop entry. Bytes are consumed from `input`
/// and appended to `output`; on failure the bytes already written stay in
/// `output`. The result is exactly what the model semantics yields at that
/// fuel; `None` comes back only when the model run is cut off by the fuel,
/// or when the tape outgrew the address space.
pub fn run(
    memory: usize,
    ast: &Vec<Instruction>,
    input: &Vec<u8>,
    output: &mut Vec<u8>,
    fuel: u64,
) -> (r: Option<Result<(), RuntimeError>>)
    requires
        memory >= 1,
    ensures
        old(output)@.is_prefix_of(final(output)@),
        ({
            let st0 = State {
                tape: Tape { cells: Seq::new(memory as nat, |j: int| 0u8), cursor: 0 },
                input: input@,
            };
            let delta = final(output)@.skip(old(output)@.len() as int);
            match r {
                Some(Ok(())) => (run_seq(ast_model(*ast), 0, st0, fuel as nat) matches
                    Outcome::Done(_, o) && o == delta),
                Some(Err(e)) => (run_seq(ast_model(*ast), 0, st0, fuel as nat) matches
                    Outcome::Fail(e2, _, o) && e2 == e && o == delta),
                None => gives_up(run_seq(ast_model(*ast), 0, st0, fuel as nat)),
            }
        }),
{
    let mut mem = Memory::new(memory);
    let mut pos: usize = 0;
    let res = execute(&mut mem, ast, input, &mut pos, output, fuel);
    proof {
        assert(input@.skip(0) =~= input@);
    }
    res
}

/// Walk the tree, dispatching each instruction to one tape operation; the
/// outcome mirrors the model semantics at the given fuel exactly, except
/// that a run whose tape outgrows the address space is given up (`None`).
#[verifier::rlimit(100)]
fn execute(
    memory: &mut Memory,
    ast: &Vec<Instruction>,
    input: &Vec<u8>,
    pos: &mut usize,
    output: &mut Vec<u8>,
    fuel: u64,
) -> (r: Option<Result<(), RuntimeError>>)
    requires
        old(memory).wf(),
        *old(pos) <= input@.len(),
    ensures
        final(memory).wf(),
        *old(pos) <= *final(pos),
        *final(pos) <= input@.len(),
        old(output)@.is_prefix_of(final(output)@),
        ({
            let st0 = State { tape: old(memory)@, input: input@.skip(*old(pos) as int) };
            let stf = State { tape: final(memory)@, input: input@.skip(*final(pos) as int) };
            let delta = final(output)@.skip(old(output)@.len() as int);
            match r {
                Some(Ok(())) => run_seq(ast_model(*ast), 0, st0, fuel as nat) == Outcome::Done(
                    stf,
                    delta,
                ),
                Some(Err(e)) => run_seq(ast_model(*ast), 0, st0, fuel as nat) == Outcome::Fail(
                    e,
                    stf,
                    delta,
                ),
                None => gives_up(run_seq(ast_model(*ast), 0, st0, fuel as nat)),
            }
        }),
    decreases *ast, 0int,
{
    let ghost v = ast_model(*ast);
    let ghost f = fuel as nat;
    let ghost st0 = State { tape: memory@, input: input@.skip(*pos as int) };
    let ghost out0 = output@;
    proof {
        lemma_ast_model_from(*ast, 0);
        assert(output@.skip(out0.len() as int) =~= Seq::<u8>::empty());
        lemma_with_out_empty(run_seq(v, 0, st0, f));
    }
    let n = ast.len();
    let mut i: usize = 0;
    while i < n
        invariant
            n == ast.len(),
            i <= n,
            *old(pos) <= *pos,
            *pos <= input@.len(),
            memory.wf(),
            f == fuel as nat,
            v == ast_model(*ast),
            v.len() == n,
            forall|j: int| 0 <= j < n ==> v[j] == inst_model(ast[j]),
            out0 == old(output)@,
            st0 == (State { tape: old(memory)@, input: input@.skip(*old(pos) as int) }),
            out0.is_prefix_of(output@),
            run_seq(v, 0, st0, f) == with_out(
                output@.skip(out0.len() as int),
                run_seq(v, i as nat, State { tape: memory@, input: input@.skip(*pos as int) }, f),
            ),
        decreases n - i,
    {
        let ghost prev = State { tape: memory@, input: input@.skip(*pos as int) };
        let ghost od = output@.skip(out0.len() as int);
        proof {
            lemma_seq_step(v, i as nat, prev, f);
        }
        let ins = &ast[i];
        proof {
            assert(v[i as int] == inst_model(*ins));
        }
        match ins {
            Instruction::MovePointerRight(count) => {
                let c = *count;
                if !memory.next_cell(c) {
                    proof {
                        let st1 = State {
                            tape: tape_right(prev.tape, c as nat),
                            input: prev.input,
                        };
                        assert(run_inst(v[i as int], prev, f) == Outcome::Done(st1, Seq::empty()));
                        lemma_run_seq_props(v, (i + 1) as nat, st1, f);
                        lemma_with_out_gives_up(
                            Seq::<u8>::empty(),
                            run_seq(v, (i + 1) as nat, st1, f),
                        );
                        lemma_with_out_gives_up(od, run_seq(v, i as nat, prev, f));
                    }
                    return None;
                }
                proof {
                    let curs = State { tape: memory@, input: input@.skip(*pos as int) };
                    assert(run_inst(v[i as int], prev, f) == Outcome::Done(curs, Seq::empty()));
                    lemma_with_out_assoc(od, Seq::<u8>::empty(), run_seq(v, (i + 1) as nat, curs, f));
                    assert(od + Seq::<u8>::empty() =~= od);
                }
            }
            Instruction::MovePointerLeft(count) => {
                let c = *count;
                match memory.previous_cell(c) {
                    Ok(()) => {
                        proof {
                            let curs = State { tape: memory@, input: input@.skip(*pos as int) };
                            assert(run_inst(v[i as int], prev, f) == Outcome::Done(
                                curs,
                                Seq::empty(),
                            ));
                            lemma_with_out_assoc(
                                od,
                                Seq::<u8>::empty(),
                                run_seq(v, (i + 1) as nat, curs, f),
                            );
                            assert(od + Seq::<u8>::empty() =~= od);
                        }
                    }
                    Err(e) => {
                        proof {
                            assert(run_inst(v[i as int], prev, f) == Outcome::Fail(
                                e,
                                prev,
                                Seq::empty(),
                            ));
                            assert(od + Seq::<u8>::empty() =~= od);
                        }
                        return Some(Err(e));
                    }
                }
            }
            Instruction::IncrementCell(count) => {
                let c = *count;
                memory.increment_cell((c % 256) as u8);
                proof {
                    lemma_inc_cell_mod(prev.tape, c as nat);
                    let curs = State { tape: memory@, input: input@.skip(*pos as int) };
                    assert(run_inst(v[i as int], prev, f) == Outcome::Done(curs, Seq::empty()));
                    lemma_with_out_assoc(od, Seq::<u8>::empty(), run_seq(v, (i + 1) as nat, curs, f));
                    assert(od + Seq::<u8>::empty() =~= od);
                }
            }
            Instruction::DecrementCell(count) => {
                let c = *count;
                memory.decrement_cell((c % 256) as u8);
                proof {
                    lemma_dec_cell_mod(prev.tape, c as nat);
                    let curs = State { tape: memory@, input: input@.skip(*pos as int) };
                    assert(run_inst(v[i as int], prev, f) == Outcome::Done(curs, Seq::empty()));
                    lemma_with_out_assoc(od, Seq::<u8>::empty(), run_seq(v, (i + 1) as nat, curs, f));
                    assert(od + Seq::<u8>::empty() =~= od);
                }
            }
            Instruction::DisplayCell => {
                let b = memory.current_cell_value();
                output.push(b);
                proof {
                    assert(run_inst(v[i as int], prev, f) == Outcome::Done(prev, seq![b]));
                    lemma_with_out_assoc(od, seq![b], run_seq(v, (i + 1) as nat, prev, f));
                    assert(od + seq![b] =~= output@.skip(out0.len() as int));
                    assert(out0.is_prefix_of(output@));
                }
            }
            Instruction::ReplaceCell => {
                if *pos < input.len() {
                    let b = input[*pos];
                    memory.set_current_cell_value(b);
                    *pos = *pos + 1;
                    proof {
                        let curs = State { tape: memory@, input: input@.skip(*pos as int) };
                        assert(prev.input[0] == b);
                        assert(prev.input.drop_first() =~= input@.skip(*pos as int));
                        assert(run_inst(v[i as int], prev, f) == Outcome::Done(curs, Seq::empty()));
                        lemma_with_out_assoc(
                            od,
                            Seq::<u8>::empty(),
                            run_seq(v, (i + 1) as nat, curs, f),
                        );
                        assert(od + Seq::<u8>::empty() =~= od);
                    }
                } else {
                    proof {
                        assert(input@.skip(*pos as int) =~= Seq::<u8>::empty());
                        assert(run_inst(v[i as int], prev, f) == Outcome::Fail(
                            RuntimeError::IOReadFailure,
                            prev,
                            Seq::empty(),
                        ));
                        assert(od + Seq::<u8>::empty() =~= od);
                    }
                    return Some(Err(RuntimeError::IOReadFailure));
                }
            }
            Instruction::While(sub) => {
                let ghost w = v[i as int];
                proof {
                    assert(w == Inst::Loop(ast_model(*sub)));
                }
                match execute_loop(memory, sub, input, pos, output, fuel) {
                    Some(Ok(())) => {
                        proof {
                            let curs = State { tape: memory@, input: input@.skip(*pos as int) };
                            let oi = output@.skip((out0.len() + od.len()) as int);
                            assert(run_inst(v[i as int], prev, f) == Outcome::Done(curs, oi));
                            lemma_with_out_assoc(od, oi, run_seq(v, (i + 1) as nat, curs, f));
                            assert(od + oi =~= output@.skip(out0.len() as int));
                        }
                    }
                    Some(Err(e)) => {
                        proof {
                            let curs = State { tape: memory@, input: input@.skip(*pos as int) };
                            let oi = output@.skip((out0.len() + od.len()) as int);
                            assert(run_inst(v[i as int], prev, f) == Outcome::Fail(e, curs, oi));
                            assert(od + oi =~= output@.skip(out0.len() as int));
                        }
                        return Some(Err(e));
                    }
                    None => {
                        proof {
                            lemma_with_out_gives_up(od, run_seq(v, i as nat, prev, f));
                            assert(state_wf(prev));
                            lemma_run_inst_props(w, prev, f);
                            match run_inst(w, prev, f) {
                                Outcome::Done(stb, o) => {
                                    lemma_run_seq_props(v, (i + 1) as nat, stb, f);
                                    lemma_with_out_gives_up(o, run_seq(v, (i + 1) as nat, stb, f));
                                }
                                _ => {}
                            }
                        }
                        return None;
                    }
                }
            }
        }
        i = i + 1;
    }
    proof {
        let curf = State { tape: memory@, input: input@.skip(*pos as int) };
        let od = output@.skip(out0.len() as int);
        assert(run_seq(v, n as nat, curf, f) == Outcome::Done(curf, Seq::empty()));
        assert(od + Seq::<u8>::empty() =~= od);
        assert(run_seq(v, 0, st0, f) == Outcome::Done(curf, od));
    }
    Some(Ok(()))
}


/// Run one loop instruction: test the current cell, run the body, repeat.
/// Each iteration spends one unit of fuel on top of what the body spends.
#[verifier::rlimit(100)]
fn execute_loop(
    memory: &mut Memory,
    sub: &Vec<Instruction>,
    input: &Vec<u8>,
    pos: &mut usize,
    output: &mut Vec<u8>,
    fuel: u64,
) -> (r: Option<Result<(), RuntimeError>>)
    requires
        old(memory).wf(),
        *old(pos) <= input@.len(),
    ensures
        final(memory).wf(),
        *old(pos) <= *final(pos),
        *final(pos) <= input@.len(),
        old(output)@.is_prefix_of(final(output)@),
        ({
            let w = Inst::Loop(ast_model(*sub));
            let st0 = State { tape: old(memory)@, input: input@.skip(*old(pos) as int) };
            let stf = State { tape: final(memory)@, input: input@.skip(*final(pos) as int) };
            let delta = final(output)@.skip(old(output)@.len() as int);
            match r {
                Some(Ok(())) => run_inst(w, st0, fuel as nat) == Outcome::Done(stf, delta),
                Some(Err(e)) => run_inst(w, st0, fuel as nat) == Outcome::Fail(e, stf, delta),
                None => gives_up(run_inst(w, st0, fuel as nat)),
            }
        }),
    decreases *sub, 1int,
{
    let ghost body = ast_model(*sub);
    let ghost w = Inst::Loop(body);
    let ghost f = fuel as nat;
    let ghost entry = State { tape: memory@, input: input@.skip(*pos as int) };
    let ghost out_entry = output@;
    proof {
        assert(output@.skip(out_entry.len() as int) =~= Seq::<u8>::empty());
        lemma_with_out_empty(run_inst(w, entry, f));
    }
    let mut g: u64 = fuel;
    while memory.current_cell_value() != 0
        invariant
            memory.wf(),
            *old(pos) <= *pos,
            *pos <= input@.len(),
            out_entry == old(output)@,
            out_entry.is_prefix_of(output@),
            w == Inst::Loop(body),
            body == ast_model(*sub),
            f == fuel as nat,
            entry == (State { tape: old(memory)@, input: input@.skip(*old(pos) as int) }),
            run_inst(w, entry, f) == with_out(
                output@.skip(out_entry.len() as int),
                run_inst(
                    w,
                    State { tape: memory@, input: input@.skip(*pos as int) },
                    g as nat,
                ),
            ),
        decreases g,
    {
        let ghost lprev = State { tape: memory@, input: input@.skip(*pos as int) };
        let ghost lod = output@.skip(out_entry.len() as int);
        if g == 0 {
            proof {
                assert(run_inst(w, lprev, 0nat) == Outcome::Cut);
                lemma_with_out_gives_up(lod, Outcome::Cut);
            }
            return None;
        }
        g = g - 1;
        proof {
            lemma_loop_step(w, body, lprev, (g + 1) as nat);
        }
        let res = execute(memory, sub, input, pos, output, g);
        let ghost lcur = State { tape: memory@, input: input@.skip(*pos as int) };
        let ghost oi = output@.skip((out_entry.len() + lod.len()) as int);
        match res {
            Some(Ok(())) => {
                proof {
                    assert(run_seq(body, 0, lprev, g as nat) == Outcome::Done(lcur, oi));
                    assert(run_inst(w, lprev, (g + 1) as nat) == with_out(
                        oi,
                        run_inst(w, lcur, g as nat),
                    ));
                    lemma_with_out_assoc(lod, oi, run_inst(w, lcur, g as nat));
                    assert(lod + oi =~= output@.skip(out_entry.len() as int));
                }
            }
            Some(Err(e)) => {
                proof {
                    assert(run_seq(body, 0, lprev, g as nat) == Outcome::Fail(e, lcur, oi));
                    assert(run_inst(w, lprev, (g + 1) as nat) == Outcome::Fail(e, lcur, oi));
                    assert(lod + oi =~= output@.skip(out_entry.len() as int));
                }
                return Some(Err(e));
            }
            None => {
                proof {
                    assert(state_wf(lprev));
                    lemma_run_seq_props(body, 0, lprev, g as nat);
                    match run_seq(body, 0, lprev, g as nat) {
                        Outcome::Done(st1, o1) => {
                            lemma_run_inst_props(w, st1, g as nat);
                            lemma_with_out_gives_up(o1, run_inst(w, st1, g as nat));
                        }
                        _ => {}
                    }
                    lemma_with_out_gives_up(lod, run_inst(w, lprev, (g + 1) as nat));
                }
                return None;
            }
        }
    }
    proof {
        let lcur = State { tape: memory@, input: input@.skip(*pos as int) };
        let lod = output@.skip(out_entry.len() as int);
        assert(run_inst(w, lcur, g as nat) == Outcome::Done(lcur, Seq::empty()));
        assert(lod + Seq::<u8>::empty() =~= lod);
        assert(run_inst(w, entry, f) == Outcome::Done(lcur, lod));
    }
    Some(Ok(()))
}

} // verus!
