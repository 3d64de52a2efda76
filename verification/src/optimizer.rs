use vstd::prelude::*;
use crate::parser::Instruction;
use crate::semantics::Inst;
use crate::semantics::ast_model;
use crate::semantics::inst_model;
use crate::semantics::lemma_ast_model_from;
use crate::semantics::lemma_ast_model_push;
use crate::semantics::Outcome;
use crate::semantics::State;
use crate::semantics::cell;
use crate::semantics::dec_cell;
use crate::semantics::grow_to;
use crate::semantics::inc_cell;
use crate::semantics::lemma_run_seq_props;
use crate::semantics::lemma_seq_step;
use crate::semantics::run_inst;
use crate::semantics::run_seq;
use crate::semantics::state_wf;
use crate::semantics::tape_right;
use crate::semantics::with_out;
use vstd::arithmetic::div_mod::lemma_add_mod_noop;
use vstd::arithmetic::div_mod::lemma_small_mod;
use vstd::arithmetic::div_mod::lemma_sub_mod_noop;

verus! {

broadcast use vstd::std_specs::vec::group_vec_axioms;

/// The four instructions whose consecutive repeats merge into one.
pub open spec fn mergeable(a: Inst) -> bool {
    a is Right || a is Left || a is Inc || a is Dec
}

/// Two instructions of the same mergeable kind.
pub open spec fn same_kind(a: Inst, b: Inst) -> bool {
    (a is Right && b is Right) || (a is Left && b is Left) || (a is Inc && b is Inc) || (a is Dec
        && b is Dec)
}

/// The count a mergeable instruction carries.
pub open spec fn count_of(a: Inst) -> nat {
    match a {
        Inst::Right(n) => n,
        Inst::Left(n) => n,
        Inst::Inc(n) => n,
        Inst::Dec(n) => n,
        _ => 0,
    }
}

/// The same instruction with its count replaced.
pub open spec fn with_count(a: Inst, n: nat) -> Inst {
    match a {
        Inst::Right(_) => Inst::Right(n),
        Inst::Left(_) => Inst::Left(n),
        Inst::Inc(_) => Inst::Inc(n),
        Inst::Dec(_) => Inst::Dec(n),
        other => other,
    }
}

/// One instruction after optimization: only loop bodies change.
pub open spec fn shrunk_inst(ins: Inst) -> Inst
    decreases ins, 0int, 0int,
{
    match ins {
        Inst::Loop(b) => Inst::Loop(spec_shrink_from(b, 0)),
        other => other,
    }
}

/// The optimized form of `s` from position `i` on: each maximal run of
/// same-kind mergeable instructions becomes one instruction carrying the
/// run's summed count, and loop bodies are optimized recursively.
pub open spec fn spec_shrink_from(s: Seq<Inst>, i: nat) -> Seq<Inst>
    decreases s, s.len() - i, 1int,
{
    if i >= s.len() {
        Seq::empty()
    } else {
        let x = shrunk_inst(s[i as int]);
        let rest = spec_shrink_from(s, (i + 1) as nat);
        if mergeable(x) && rest.len() > 0 && same_kind(x, rest[0]) {
            seq![with_count(x, count_of(x) + count_of(rest[0]))] + rest.drop_first()
        } else {
            seq![x] + rest
        }
    }
}

/// The optimized form of a whole program.
pub open spec fn spec_shrink(s: Seq<Inst>) -> Seq<Inst> {
    spec_shrink_from(s, 0)
}

/// The steps an instruction carries, loop bodies included.
pub open spec fn inst_count(ins: Inst) -> nat
    decreases ins, 0int, 0int,
{
    match ins {
        Inst::Right(n) => n,
        Inst::Left(n) => n,
        Inst::Inc(n) => n,
        Inst::Dec(n) => n,
        Inst::Out => 0,
        Inst::In => 0,
        Inst::Loop(b) => seq_counts(b, 0),
    }
}

/// The steps carried by the instructions of `s` from position `i` on.
pub open spec fn seq_counts(s: Seq<Inst>, i: nat) -> nat
    decreases s, s.len() - i, 1int,
{
    if i >= s.len() {
        0
    } else {
        inst_count(s[i as int]) + seq_counts(s, (i + 1) as nat)
    }
}

/// The steps carried by a whole program. The optimizer sums counts in a
/// machine word, so it asks that this total fit in one; a parsed program
/// satisfies that by construction, its counts being 1 per source character.
pub open spec fn total_counts(s: Seq<Inst>) -> nat {
    seq_counts(s, 0)
}

/// The count sum of the half-open run `[i, j)`.
pub open spec fn run_sum(s: Seq<Inst>, i: nat, j: nat) -> nat
    decreases j - i,
{
    if i >= j {
        0
    } else {
        inst_count(s[i as int]) + run_sum(s, (i + 1) as nat, j)
    }
}

/// A run and what follows it carry together what the whole suffix carries.
proof fn lemma_run_sum_split(s: Seq<Inst>, i: nat, j: nat)
    requires
        i <= j <= s.len(),
    ensures
        run_sum(s, i, j) + seq_counts(s, j) == seq_counts(s, i),
    decreases j - i,
{
    if i < j {
        lemma_run_sum_split(s, (i + 1) as nat, j);
    }
}

/// Extending a run by one instruction adds that instruction's count.
proof fn lemma_run_sum_snoc(s: Seq<Inst>, i: nat, j: nat)
    requires
        i <= j < s.len(),
    ensures
        run_sum(s, i, (j + 1) as nat) == run_sum(s, i, j) + inst_count(s[j as int]),
    decreases j - i,
{
    if i < j {
        lemma_run_sum_snoc(s, (i + 1) as nat, j);
    } else {
        assert(run_sum(s, (i + 1) as nat, (j + 1) as nat) == 0);
    }
}

/// Suffix counts never exceed the whole.
proof fn lemma_seq_counts_skip(s: Seq<Inst>, i: nat)
    requires
        i <= s.len(),
    ensures
        seq_counts(s, i) <= total_counts(s),
{
    lemma_run_sum_split(s, 0, i);
}

/// The optimized suffix starts with an instruction of the same kind as the
/// original's first, carrying at least its count.
proof fn lemma_shrink_head(s: Seq<Inst>, i: nat)
    requires
        i < s.len(),
    ensures
        spec_shrink_from(s, i).len() >= 1,
        same_kind(spec_shrink_from(s, i)[0], s[i as int]) == mergeable(s[i as int]),
        !mergeable(s[i as int]) ==> spec_shrink_from(s, i)[0] == shrunk_inst(s[i as int]),
{
    match s[i as int] {
        Inst::Right(n) => {}
        Inst::Left(n) => {}
        Inst::Inc(n) => {}
        Inst::Dec(n) => {}
        Inst::Out => {}
        Inst::In => {}
        Inst::Loop(b) => {}
    }
}

/// A maximal same-kind run merges into one instruction with the summed count.
proof fn lemma_shrink_run(s: Seq<Inst>, i: nat, j: nat)
    requires
        i < j <= s.len(),
        mergeable(s[i as int]),
        forall|k: int| i < k < j ==> same_kind(s[k], s[i as int]),
        j == s.len() || !same_kind(s[j as int], s[i as int]),
    ensures
        spec_shrink_from(s, i) == seq![with_count(s[i as int], run_sum(s, i, j))]
            + spec_shrink_from(s, j),
    decreases j - i,
{
    if i + 1 == j {
        if j < s.len() {
            lemma_shrink_head(s, j);
        }
        assert(with_count(s[i as int], run_sum(s, i, j)) == shrunk_inst(s[i as int]));
    } else {
        assert(same_kind(s[i as int + 1], s[i as int]));
        lemma_shrink_run(s, (i + 1) as nat, j);
        let rest = spec_shrink_from(s, (i + 1) as nat);
        assert(rest[0] == with_count(s[i as int + 1], run_sum(s, (i + 1) as nat, j)));
        assert(rest.drop_first() =~= spec_shrink_from(s, j));
        assert(with_count(shrunk_inst(s[i as int]), count_of(shrunk_inst(s[i as int])) + count_of(
            rest[0],
        )) == with_count(s[i as int], run_sum(s, i, j)));
    }
}


/// Equal but for the cursor: the cells, remaining input and output agree.
pub open spec fn similar_state(a: State, b: State) -> bool {
    a.tape.cells == b.tape.cells && a.input == b.input
}

/// The optimized and the original run end alike: the same final state and
/// output when both finish, the same error, cells, input and output when
/// both fail (only the cursor at the failure point may differ, a merged
/// left move failing before its unmerged steps walked part of the way),
/// and both are cut off by the fuel together.
pub open spec fn outcomes_equiv(x: Outcome, y: Outcome) -> bool {
    match (x, y) {
        (Outcome::Done(st1, o1), Outcome::Done(st2, o2)) => st1 == st2 && o1 == o2,
        (Outcome::Fail(e1, st1, o1), Outcome::Fail(e2, st2, o2)) => e1 == e2 && o1 == o2
            && similar_state(st1, st2),
        (Outcome::Cut, Outcome::Cut) => true,
        _ => false,
    }
}

/// Prepending the same bytes to both sides keeps outcomes alike.
proof fn lemma_equiv_with_out(o: Seq<u8>, x: Outcome, y: Outcome)
    requires
        outcomes_equiv(x, y),
    ensures
        outcomes_equiv(with_out(o, x), with_out(o, y)),
{
}

/// Running the tail of a singleton-plus-tail sequence is running the tail.
proof fn lemma_run_cons(x: Inst, t: Seq<Inst>, i: nat, st: State, fuel: nat)
    requires
        i <= t.len(),
    ensures
        run_seq(seq![x] + t, (i + 1) as nat, st, fuel) == run_seq(t, i, st, fuel),
    decreases t.len() - i,
{
    let c = seq![x] + t;
    if i < t.len() {
        assert(c[i as int + 1] == t[i as int]);
        match run_inst(t[i as int], st, fuel) {
            Outcome::Done(st1, o1) => {
                lemma_run_cons(x, t, (i + 1) as nat, st1, fuel);
            }
            _ => {}
        }
    } else {
        assert(c.len() == t.len() + 1);
    }
}

/// Running one instruction and then the rest of a sequence.
spec fn compose2(a: Inst, b: Inst, st: State, fuel: nat) -> Outcome {
    match run_inst(a, st, fuel) {
        Outcome::Done(st1, o1) => with_out(o1, run_inst(b, st1, fuel)),
        Outcome::Fail(e, stf, o1) => Outcome::Fail(e, stf, o1),
        Outcome::Cut => Outcome::Cut,
    }
}

/// One merged instruction acts like its two same-kind halves in sequence.
proof fn lemma_merge_ops(a: Inst, b: Inst, st: State, fuel: nat)
    requires
        mergeable(a),
        same_kind(a, b),
        state_wf(st),
    ensures
        outcomes_equiv(
            run_inst(with_count(a, count_of(a) + count_of(b)), st, fuel),
            compose2(a, b, st, fuel),
        ),
{
    let ca = count_of(a);
    let cb = count_of(b);
    let t = st.tape;
    assert(Seq::<u8>::empty() + Seq::<u8>::empty() =~= Seq::<u8>::empty());
    if a is Right {
        assert(grow_to(grow_to(t.cells, t.cursor + ca + 1), t.cursor + ca + cb + 1) =~= grow_to(
            t.cells,
            t.cursor + ca + cb + 1,
        ));
        assert(tape_right(tape_right(t, ca), cb) == tape_right(t, ca + cb));
    } else if a is Left {
        if ca + cb <= t.cursor {
        } else if ca <= t.cursor {
        } else {
        }
    } else if a is Inc {
        let v = cell(t) as int;
        let v1 = (v + ca) % 256;
        assert(cell(inc_cell(t, ca)) == v1 as u8);
        lemma_small_mod(v1 as nat, 256);
        lemma_add_mod_noop(v1, cb as int, 256);
        lemma_add_mod_noop(v + ca, cb as int, 256);
        assert((v1 + cb) % 256 == (v + ca + cb) % 256);
        assert(t.cells.update(t.cursor as int, ((v + ca) % 256) as u8).update(
            t.cursor as int,
            ((v + ca + cb) % 256) as u8,
        ) =~= t.cells.update(t.cursor as int, ((v + ca + cb) % 256) as u8));
        assert(inc_cell(inc_cell(t, ca), cb) == inc_cell(t, ca + cb));
    } else {
        let v = cell(t) as int;
        let v1 = (v - ca) % 256;
        assert(cell(dec_cell(t, ca)) == v1 as u8);
        lemma_small_mod(v1 as nat, 256);
        lemma_sub_mod_noop(v1, cb as int, 256);
        lemma_sub_mod_noop(v - ca, cb as int, 256);
        assert((v1 - cb) % 256 == (v - ca - cb) % 256);
        assert(t.cells.update(t.cursor as int, ((v - ca) % 256) as u8).update(
            t.cursor as int,
            ((v - ca - cb) % 256) as u8,
        ) =~= t.cells.update(t.cursor as int, ((v - ca - cb) % 256) as u8));
        assert(dec_cell(dec_cell(t, ca), cb) == dec_cell(t, ca + cb));
    }
}

/// Optimizing a suffix leaves every run of it indistinguishable: same final
/// state and output, same failure and output, or cut off together.
proof fn lemma_shrink_equiv(s: Seq<Inst>, i: nat, st: State, fuel: nat)
    requires
        state_wf(st),
        i <= s.len(),
    ensures
        outcomes_equiv(run_seq(spec_shrink_from(s, i), 0, st, fuel), run_seq(s, i, st, fuel)),
    decreases fuel, s, s.len() - i, 1int,
{
    if i >= s.len() {
        return ;
    }
    let x = shrunk_inst(s[i as int]);
    let rest = spec_shrink_from(s, (i + 1) as nat);
    lemma_seq_step(s, i, st, fuel);
    if mergeable(x) && rest.len() > 0 && same_kind(x, rest[0]) {
        let merged = with_count(x, count_of(x) + count_of(rest[0]));
        let shr = seq![merged] + rest.drop_first();
        assert(spec_shrink_from(s, i) == shr);
        lemma_seq_step(shr, 0, st, fuel);
        assert(shr[0] == merged);
        lemma_merge_ops(x, rest[0], st, fuel);
        assert(run_inst(x, st, fuel) == run_inst(s[i as int], st, fuel));
        match run_inst(s[i as int], st, fuel) {
            Outcome::Done(st1, o1) => {
                assert(o1 =~= Seq::<u8>::empty());
                lemma_run_seq_props(s, i, st, fuel);
                crate::semantics::lemma_run_inst_props(s[i as int], st, fuel);
                lemma_shrink_equiv(s, (i + 1) as nat, st1, fuel);
                lemma_seq_step(rest, 0, st1, fuel);
                match run_inst(rest[0], st1, fuel) {
                    Outcome::Done(st2, o2) => {
                        assert(o2 =~= Seq::<u8>::empty());
                        crate::semantics::lemma_run_inst_props(rest[0], st1, fuel);
                        lemma_run_cons(rest[0], rest.drop_first(), 0, st2, fuel);
                        assert(seq![rest[0]] + rest.drop_first() =~= rest);
                        lemma_run_cons(merged, rest.drop_first(), 0, st2, fuel);
                        assert(run_inst(merged, st, fuel) == Outcome::Done(st2, o1 + o2));
                        assert(run_seq(shr, 0, st, fuel) == with_out(
                            o1 + o2,
                            run_seq(rest.drop_first(), 0, st2, fuel),
                        ));
                        assert(run_seq(rest, 0, st1, fuel) == with_out(
                            o2,
                            run_seq(rest.drop_first(), 0, st2, fuel),
                        ));
                        assert(outcomes_equiv(
                            run_seq(rest, 0, st1, fuel),
                            run_seq(s, (i + 1) as nat, st1, fuel),
                        ));
                        assert(o1 + o2 =~= Seq::<u8>::empty());
                        lemma_equiv_with_out(
                            o1 + o2,
                            run_seq(rest.drop_first(), 0, st2, fuel),
                            run_seq(rest.drop_first(), 0, st2, fuel),
                        );
                        match run_seq(rest.drop_first(), 0, st2, fuel) {
                            Outcome::Done(st3, o3) => {
                                assert(Seq::<u8>::empty() + o3 =~= o3);
                            }
                            Outcome::Fail(e3, st3, o3) => {
                                assert(Seq::<u8>::empty() + o3 =~= o3);
                            }
                            Outcome::Cut => {}
                        }
                        match run_seq(s, (i + 1) as nat, st1, fuel) {
                            Outcome::Done(st3, o3) => {
                                assert(Seq::<u8>::empty() + o3 =~= o3);
                            }
                            Outcome::Fail(e3, st3, o3) => {
                                assert(Seq::<u8>::empty() + o3 =~= o3);
                            }
                            Outcome::Cut => {}
                        }
                    }
                    Outcome::Fail(e2, stf2, o2) => {
                        assert(o2 =~= Seq::<u8>::empty());
                        // the merged instruction fails with a similar state
                        assert(run_seq(rest, 0, st1, fuel) == Outcome::Fail(e2, stf2, o2));
                        assert(outcomes_equiv(
                            run_seq(rest, 0, st1, fuel),
                            run_seq(s, (i + 1) as nat, st1, fuel),
                        ));
                        assert(outcomes_equiv(
                            run_inst(merged, st, fuel),
                            Outcome::Fail(e2, stf2, Seq::<u8>::empty() + o2),
                        ));
                        assert(Seq::<u8>::empty() + o2 =~= Seq::<u8>::empty());
                        match run_inst(merged, st, fuel) {
                            Outcome::Fail(em, stfm, om) => {
                                assert(run_seq(shr, 0, st, fuel) == Outcome::Fail(em, stfm, om));
                                match run_seq(s, (i + 1) as nat, st1, fuel) {
                                    Outcome::Fail(e3, st3, o3) => {
                                        assert(o1 + o3 =~= o3);
                                    }
                                    _ => {}
                                }
                            }
                            _ => {}
                        }
                    }
                    Outcome::Cut => {
                        assert(false);
                    }
                }
            }
            Outcome::Fail(e1, stf1, o1) => {
                assert(o1 =~= Seq::<u8>::empty());
                match run_inst(merged, st, fuel) {
                    Outcome::Fail(em, stfm, om) => {
                        assert(run_seq(shr, 0, st, fuel) == Outcome::Fail(em, stfm, om));
                    }
                    _ => {
                        assert(false);
                    }
                }
            }
            Outcome::Cut => {
                assert(false);
            }
        }
    } else {
        let shr = seq![x] + rest;
        assert(spec_shrink_from(s, i) == shr);
        lemma_seq_step(shr, 0, st, fuel);
        assert(shr[0] == x);
        if s[i as int] is Loop {
            match s[i as int] {
                Inst::Loop(b) => {
                    lemma_loop_equiv(b, s[i as int], st, fuel);
                }
                _ => {}
            }
        } else {
            assert(x == s[i as int]);
        }
        match run_inst(x, st, fuel) {
            Outcome::Done(st1, o1) => {
                match run_inst(s[i as int], st, fuel) {
                    Outcome::Done(st1b, o1b) => {
                        assert(st1b == st1 && o1b == o1);
                        crate::semantics::lemma_run_inst_props(s[i as int], st, fuel);
                        lemma_run_cons(x, rest, 0, st1, fuel);
                        lemma_shrink_equiv(s, (i + 1) as nat, st1, fuel);
                        lemma_equiv_with_out(
                            o1,
                            run_seq(rest, 0, st1, fuel),
                            run_seq(s, (i + 1) as nat, st1, fuel),
                        );
                    }
                    _ => {
                        assert(false);
                    }
                }
            }
            Outcome::Fail(e1, stf1, o1) => {
                match run_inst(s[i as int], st, fuel) {
                    Outcome::Fail(e1b, stf1b, o1b) => {}
                    _ => {
                        assert(false);
                    }
                }
            }
            Outcome::Cut => {
                match run_inst(s[i as int], st, fuel) {
                    Outcome::Cut => {}
                    _ => {
                        assert(false);
                    }
                }
            }
        }
    }
}

/// Optimizing a loop body leaves the loop indistinguishable.
proof fn lemma_loop_equiv(b: Seq<Inst>, w: Inst, st: State, fuel: nat)
    requires
        state_wf(st),
        w == Inst::Loop(b),
    ensures
        outcomes_equiv(
            run_inst(Inst::Loop(spec_shrink_from(b, 0)), st, fuel),
            run_inst(w, st, fuel),
        ),
    decreases fuel, b, 0int, 0int,
{
    let wsh = Inst::Loop(spec_shrink_from(b, 0));
    if cell(st.tape) == 0 {
        assert(run_inst(wsh, st, fuel) == Outcome::Done(st, Seq::<u8>::empty()));
        assert(run_inst(w, st, fuel) == Outcome::Done(st, Seq::<u8>::empty()));
    } else if fuel == 0 {
    } else {
        lemma_shrink_equiv(b, 0, st, (fuel - 1) as nat);
        lemma_run_seq_props(b, 0, st, (fuel - 1) as nat);
        match run_seq(b, 0, st, (fuel - 1) as nat) {
            Outcome::Done(st1, o1) => {
                lemma_loop_equiv(b, w, st1, (fuel - 1) as nat);
                match run_inst(w, st1, (fuel - 1) as nat) {
                    Outcome::Done(st2, o2) => {}
                    Outcome::Fail(e2, stf2, o2) => {}
                    Outcome::Cut => {}
                }
            }
            Outcome::Fail(e1, stf1, o1) => {}
            Outcome::Cut => {}
        }
    }
}

/// Optimizer transparency: for every program, well-formed starting state and
/// fuel, running the optimized program is indistinguishable from running the
/// original: the same final tape, input and output bytes when both finish,
/// the same error and output when both fail, and the fuel cuts both off
/// together.
pub proof fn lemma_optimizer_transparent(p: Seq<Inst>, st: State, fuel: nat)
    requires
        state_wf(st),
    ensures
        outcomes_equiv(run_seq(spec_shrink(p), 0, st, fuel), run_seq(p, 0, st, fuel)),
{
    lemma_shrink_equiv(p, 0, st, fuel);
}

/// Tell whether two instructions are repeats of the same mergeable kind.
fn same_merge(a: &Instruction, b: &Instruction) -> (r: bool)
    ensures
        r == same_kind(inst_model(*a), inst_model(*b)),
{
    match (a, b) {
        (Instruction::MovePointerRight(_), Instruction::MovePointerRight(_)) => true,
        (Instruction::MovePointerLeft(_), Instruction::MovePointerLeft(_)) => true,
        (Instruction::IncrementCell(_), Instruction::IncrementCell(_)) => true,
        (Instruction::DecrementCell(_), Instruction::DecrementCell(_)) => true,
        _ => false,
    }
}

/// The count carried by a mergeable instruction.
fn count_value(a: &Instruction) -> (r: usize)
    ensures
        mergeable(inst_model(*a)) ==> r as nat == inst_count(inst_model(*a)),
{
    match a {
        Instruction::MovePointerRight(n) => *n,
        Instruction::MovePointerLeft(n) => *n,
        Instruction::IncrementCell(n) => *n,
        Instruction::DecrementCell(n) => *n,
        _ => 0,
    }
}

/// Rebuild a mergeable instruction around a new count.
fn remake(a: &Instruction, total: usize) -> (r: Instruction)
    requires
        mergeable(inst_model(*a)),
    ensures
        inst_model(r) == with_count(inst_model(*a), total as nat),
{
    match a {
        Instruction::MovePointerRight(_) => Instruction::MovePointerRight(total),
        Instruction::MovePointerLeft(_) => Instruction::MovePointerLeft(total),
        Instruction::IncrementCell(_) => Instruction::IncrementCell(total),
        Instruction::DecrementCell(_) => Instruction::DecrementCell(total),
        _ => Instruction::DisplayCell,
    }
}

/// Merge every maximal run of consecutive same-kind pointer moves or cell
/// changes into one instruction carrying the summed count; loop bodies are
/// optimized recursively and nothing crosses a loop, read or write.
pub fn shrink_calls(ast: &Vec<Instruction>) -> (r: Vec<Instruction>)
    requires
        total_counts(ast_model(*ast)) <= usize::MAX,
    ensures
        ast_model(r) == spec_shrink(ast_model(*ast)),
    decreases *ast,
{
    let ghost s = ast_model(*ast);
    proof {
        lemma_ast_model_from(*ast, 0);
    }
    let n = ast.len();
    let mut optimized: Vec<Instruction> = Vec::new();
    let mut i: usize = 0;
    while i < n
        invariant
            n == ast.len(),
            i <= n,
            s == ast_model(*ast),
            s.len() == n,
            forall|j: int| 0 <= j < n ==> s[j] == inst_model(ast[j]),
            total_counts(s) <= usize::MAX,
            ast_model(optimized) + spec_shrink_from(s, i as nat) == spec_shrink(s),
        decreases n - i,
    {
        let ins = &ast[i];
        let ghost pre = ast_model(optimized);
        match ins {
            Instruction::While(sub) => {
                proof {
                    lemma_seq_counts_skip(s, i as nat);
                    assert(s[i as int] == Inst::Loop(ast_model(*sub)));
                    assert(seq_counts(s, i as nat) == inst_count(s[i as int]) + seq_counts(
                        s,
                        (i + 1) as nat,
                    ));
                }
                let shrunk_body = shrink_calls(sub);
                let ghost opt0 = optimized;
                optimized.push(Instruction::While(shrunk_body));
                proof {
                    lemma_ast_model_push(opt0, Instruction::While(shrunk_body), optimized);
                    assert(pre.push(shrunk_inst(s[i as int])) + spec_shrink_from(s, (i + 1) as nat)
                        =~= pre + spec_shrink_from(s, i as nat));
                }
                i = i + 1;
            }
            Instruction::DisplayCell => {
                let ghost opt0 = optimized;
                optimized.push(Instruction::DisplayCell);
                proof {
                    lemma_ast_model_push(opt0, Instruction::DisplayCell, optimized);
                    assert(pre.push(shrunk_inst(s[i as int])) + spec_shrink_from(s, (i + 1) as nat)
                        =~= pre + spec_shrink_from(s, i as nat));
                }
                i = i + 1;
            }
            Instruction::ReplaceCell => {
                let ghost opt0 = optimized;
                optimized.push(Instruction::ReplaceCell);
                proof {
                    lemma_ast_model_push(opt0, Instruction::ReplaceCell, optimized);
                    assert(pre.push(shrunk_inst(s[i as int])) + spec_shrink_from(s, (i + 1) as nat)
                        =~= pre + spec_shrink_from(s, i as nat));
                }
                i = i + 1;
            }
            _ => {
                let mut total: usize = count_value(ins);
                let mut j = i + 1;
                proof {
                    lemma_seq_counts_skip(s, i as nat);
                    lemma_run_sum_split(s, i as nat, (i + 1) as nat);
                }
                while j < n && same_merge(&ast[i], &ast[j])
                    invariant
                        n == ast.len(),
                        i < j <= n,
                        i < n,
                        s == ast_model(*ast),
                        s.len() == n,
                        forall|k: int| 0 <= k < n ==> s[k] == inst_model(ast[k]),
                        total_counts(s) <= usize::MAX,
                        mergeable(s[i as int]),
                        total as nat == run_sum(s, i as nat, j as nat),
                        forall|k: int| i < k < j ==> same_kind(s[k], s[i as int]),
                    decreases n - j,
                {
                    let c = count_value(&ast[j]);
                    proof {
                        lemma_run_sum_snoc(s, i as nat, j as nat);
                        lemma_run_sum_split(s, i as nat, (j + 1) as nat);
                        lemma_seq_counts_skip(s, i as nat);
                    }
                    total = total + c;
                    j = j + 1;
                }
                let merged = remake(ins, total);
                let ghost opt0 = optimized;
                optimized.push(merged);
                proof {
                    lemma_ast_model_push(opt0, merged, optimized);
                    lemma_shrink_run(s, i as nat, j as nat);
                    assert(pre.push(with_count(s[i as int], run_sum(s, i as nat, j as nat)))
                        + spec_shrink_from(s, j as nat) =~= pre + spec_shrink_from(s, i as nat));
                }
                i = j;
            }
        }
    }
    optimized
}

} // verus!
