use vstd::prelude::*;
use vstd::string::StrSliceExecFns;
use crate::lexer::Token;
use crate::lexer::lex;
use crate::lexer::recognized;
use crate::lexer::token_of;
use crate::semantics::Inst;
use crate::semantics::ast_model;
use crate::semantics::inst_model;
use crate::semantics::lemma_ast_model_push;
use crate::optimizer::inst_count;
use crate::optimizer::seq_counts;
use crate::optimizer::total_counts;

verus! {

broadcast use vstd::std_specs::vec::group_vec_axioms;

/// Why a source text was rejected: a loop opened and never closed, or a
/// closing bracket with no loop open.
#[derive(Clone, Copy, Debug, PartialEq, Eq, Structural)]
pub enum ParserError {
    UnterminatedLoop,
    UnexpectedCloseBracket,
}

/// One node of the instruction tree. Counts on the four mergeable
/// instructions are at least 1 and are kept in a machine word, wide enough
/// that merging never loses steps; they are reduced modulo 256 only when
/// applied to a cell.
#[derive(Debug, PartialEq, Eq)]
pub enum Instruction {
    MovePointerRight(usize),
    MovePointerLeft(usize),
    IncrementCell(usize),
    DecrementCell(usize),
    DisplayCell,
    ReplaceCell,
    While(Vec<Instruction>),
}

/// Append one instruction to the sequence on top of the parse stack.
pub open spec fn push_top(stack: Seq<Seq<Inst>>, ins: Inst) -> Seq<Seq<Inst>> {
    stack.update(stack.len() - 1, stack.last().push(ins))
}

/// One character's effect on the parse stack. Each level of the stack above
/// the first is the body of a loop still open; the bottom level is the
/// program itself.
pub open spec fn parse_step(stack: Seq<Seq<Inst>>, c: char) -> Result<
    Seq<Seq<Inst>>,
    ParserError,
> {
    match token_of(c) {
        Token::GreaterThan => Ok(push_top(stack, Inst::Right(1))),
        Token::LessThan => Ok(push_top(stack, Inst::Left(1))),
        Token::Plus => Ok(push_top(stack, Inst::Inc(1))),
        Token::Minus => Ok(push_top(stack, Inst::Dec(1))),
        Token::Dot => Ok(push_top(stack, Inst::Out)),
        Token::Comma => Ok(push_top(stack, Inst::In)),
        Token::LBracket => Ok(stack.push(Seq::empty())),
        Token::RBracket => if stack.len() <= 1 {
            Err(ParserError::UnexpectedCloseBracket)
        } else {
            Ok(push_top(stack.drop_last(), Inst::Loop(stack.last())))
        },
        Token::Unknown => Ok(stack),
    }
}

/// Fold the characters of `cs`, from position `i` on, over the stack.
pub open spec fn parse_fold(cs: Seq<char>, i: nat, stack: Seq<Seq<Inst>>) -> Result<
    Seq<Seq<Inst>>,
    ParserError,
>
    decreases cs.len() - i,
{
    if i >= cs.len() {
        Ok(stack)
    } else {
        match parse_step(stack, cs[i as int]) {
            Ok(st2) => parse_fold(cs, (i + 1) as nat, st2),
            Err(e) => Err(e),
        }
    }
}

/// What parsing a whole source text yields: the program sequence, or the
/// first error met in a single left-to-right scan.
pub open spec fn spec_parse(cs: Seq<char>) -> Result<Seq<Inst>, ParserError> {
    match parse_fold(cs, 0, seq![Seq::<Inst>::empty()]) {
        Ok(stack) => if stack.len() == 1 {
            Ok(stack[0])
        } else {
            Err(ParserError::UnterminatedLoop)
        },
        Err(e) => Err(e),
    }
}

/// The mathematical form of the executable parse stack.
pub open spec fn stack_model(stack: Vec<Vec<Instruction>>) -> Seq<Seq<Inst>> {
    Seq::new(stack.len() as nat, |k: int| ast_model(stack[k]))
}


/// The source with every unrecognized character removed.
pub open spec fn strip_unrecognized(cs: Seq<char>, i: nat) -> Seq<char>
    decreases cs.len() - i,
{
    if i >= cs.len() {
        Seq::empty()
    } else if recognized(cs[i as int]) {
        seq![cs[i as int]] + strip_unrecognized(cs, (i + 1) as nat)
    } else {
        strip_unrecognized(cs, (i + 1) as nat)
    }
}

/// Folding the tail of a singleton-plus-tail text is folding the tail.
proof fn lemma_fold_cons(x: char, t: Seq<char>, i: nat, stack: Seq<Seq<Inst>>)
    requires
        i <= t.len(),
    ensures
        parse_fold(seq![x] + t, (i + 1) as nat, stack) == parse_fold(t, i, stack),
    decreases t.len() - i,
{
    let c = seq![x] + t;
    if i < t.len() {
        assert(c[i as int + 1] == t[i as int]);
        match parse_step(stack, t[i as int]) {
            Ok(st2) => {
                lemma_fold_cons(x, t, (i + 1) as nat, st2);
            }
            Err(e) => {}
        }
    } else {
        assert(c.len() == t.len() + 1);
    }
}

/// Stripping the unrecognized characters of a suffix leaves its fold alone.
proof fn lemma_strip_fold(cs: Seq<char>, i: nat, stack: Seq<Seq<Inst>>)
    requires
        i <= cs.len(),
    ensures
        parse_fold(strip_unrecognized(cs, i), 0, stack) == parse_fold(cs, i, stack),
    decreases cs.len() - i,
{
    if i < cs.len() {
        let c = cs[i as int];
        if recognized(c) {
            let t = strip_unrecognized(cs, (i + 1) as nat);
            assert((seq![c] + t)[0] == c);
            match parse_step(stack, c) {
                Ok(st2) => {
                    lemma_fold_cons(c, t, 0, st2);
                    lemma_strip_fold(cs, (i + 1) as nat, st2);
                }
                Err(e) => {}
            }
        } else {
            lemma_strip_fold(cs, (i + 1) as nat, stack);
        }
    }
}

/// Unrecognized characters are as if absent: any source parses to exactly
/// what the same source with those characters removed parses to, errors
/// included.
pub proof fn lemma_unrecognized_skipped(cs: Seq<char>)
    ensures
        spec_parse(cs) == spec_parse(strip_unrecognized(cs, 0)),
{
    lemma_strip_fold(cs, 0, seq![Seq::<Inst>::empty()]);
}


/// The steps carried by every level of the parse stack together.
pub open spec fn stack_counts(st: Seq<Seq<Inst>>, k: nat) -> nat
    decreases st.len() - k,
{
    if k >= st.len() {
        0
    } else {
        total_counts(st[k as int]) + stack_counts(st, (k + 1) as nat)
    }
}

/// Appending an instruction to a sequence adds its count to the total.
proof fn lemma_counts_snoc(s: Seq<Inst>, x: Inst, i: nat)
    requires
        i <= s.len(),
    ensures
        seq_counts(s.push(x), i) == seq_counts(s, i) + inst_count(x),
    decreases s.len() - i,
{
    if i < s.len() {
        assert(s.push(x)[i as int] == s[i as int]);
        lemma_counts_snoc(s, x, (i + 1) as nat);
    } else {
        assert(s.push(x)[i as int] == x);
        assert(seq_counts(s.push(x), (i + 1) as nat) == 0);
    }
}

/// The steps of a stack, split at its top level.
proof fn lemma_stack_counts_last(st: Seq<Seq<Inst>>, k: nat)
    requires
        k < st.len(),
    ensures
        stack_counts(st, k) == stack_counts(st.drop_last(), k) + total_counts(st.last()),
    decreases st.len() - k,
{
    if k + 1 < st.len() {
        assert(st.drop_last()[k as int] == st[k as int]);
        lemma_stack_counts_last(st, (k + 1) as nat);
    } else {
        assert(stack_counts(st, (k + 1) as nat) == 0);
        assert(stack_counts(st.drop_last(), k) == 0);
    }
}

/// Pushing one instruction onto the top level adds its count to the stack.
proof fn lemma_stack_counts_push_top(st: Seq<Seq<Inst>>, ins: Inst)
    requires
        st.len() >= 1,
    ensures
        stack_counts(push_top(st, ins), 0) == stack_counts(st, 0) + inst_count(ins),
{
    let up = push_top(st, ins);
    assert(up.drop_last() =~= st.drop_last());
    assert(up.last() == st.last().push(ins));
    lemma_counts_snoc(st.last(), ins, 0);
    lemma_stack_counts_last(st, 0);
    lemma_stack_counts_last(up, 0);
}

/// Opening a loop adds an empty level and no steps.
proof fn lemma_stack_counts_open(st: Seq<Seq<Inst>>)
    requires
        st.len() >= 1,
    ensures
        stack_counts(st.push(Seq::empty()), 0) == stack_counts(st, 0),
{
    let up = st.push(Seq::<Inst>::empty());
    assert(up.drop_last() =~= st);
    lemma_stack_counts_last(up, 0);
    assert(total_counts(Seq::<Inst>::empty()) == 0);
}

/// Closing a loop folds the top level into one instruction of equal count.
proof fn lemma_stack_counts_close(st: Seq<Seq<Inst>>)
    requires
        st.len() >= 2,
    ensures
        stack_counts(push_top(st.drop_last(), Inst::Loop(st.last())), 0) == stack_counts(st, 0),
{
    lemma_stack_counts_last(st, 0);
    lemma_stack_counts_push_top(st.drop_last(), Inst::Loop(st.last()));
    assert(inst_count(Inst::Loop(st.last())) == total_counts(st.last()));
}

/// Parse a whole source text into an instruction tree.
pub fn parse(program: &str) -> (r: Result<Vec<Instruction>, ParserError>)
    ensures
        r matches Ok(ast) ==> spec_parse(program@) == Ok::<Seq<Inst>, ParserError>(ast_model(ast))
            && total_counts(ast_model(ast)) <= program@.len(),
        r matches Err(e) ==> spec_parse(program@) == Err::<Seq<Inst>, ParserError>(e),
{
    parse_instructions(program)
}

/// Append one unit instruction to the innermost open sequence.
fn push_instruction(stack: &mut Vec<Vec<Instruction>>, ins: Instruction)
    requires
        old(stack)@.len() >= 1,
    ensures
        final(stack)@.len() == old(stack)@.len(),
        stack_model(*final(stack)) == push_top(stack_model(*old(stack)), inst_model(ins)),
{
    let ghost pre = stack_model(*old(stack));
    let mut top = stack.pop().unwrap();
    let ghost top0 = top;
    top.push(ins);
    proof {
        lemma_ast_model_push(top0, ins, top);
    }
    stack.push(top);
    proof {
        assert(stack_model(*stack) =~= push_top(pre, inst_model(ins)));
    }
}

/// The single left-to-right scan over the source characters, with one open
/// sequence on the stack for each loop whose close bracket is still owed.
fn parse_instructions(program: &str) -> (r: Result<Vec<Instruction>, ParserError>)
    ensures
        r matches Ok(ast) ==> spec_parse(program@) == Ok::<Seq<Inst>, ParserError>(ast_model(ast))
            && total_counts(ast_model(ast)) <= program@.len(),
        r matches Err(e) ==> spec_parse(program@) == Err::<Seq<Inst>, ParserError>(e),
{
    let n = program.unicode_len();
    let mut stack: Vec<Vec<Instruction>> = Vec::new();
    stack.push(Vec::new());
    proof {
        assert(stack_model(stack) =~= seq![Seq::<Inst>::empty()]);
        assert(total_counts(Seq::<Inst>::empty()) == 0);
        assert(stack_counts(stack_model(stack), 1) == 0);
        assert(stack_counts(stack_model(stack), 0) == 0);
    }
    let mut i: usize = 0;
    while i < n
        invariant
            n == program@.len(),
            i <= n,
            stack@.len() >= 1,
            stack_counts(stack_model(stack), 0) <= i,
            parse_fold(program@, i as nat, stack_model(stack)) == parse_fold(
                program@,
                0,
                seq![Seq::<Inst>::empty()],
            ),
        decreases n - i,
    {
        let c = program.get_char(i);
        let ghost pre = stack_model(stack);
        match lex(c) {
            Token::GreaterThan => {
                push_instruction(&mut stack, Instruction::MovePointerRight(1));
            }
            Token::LessThan => {
                push_instruction(&mut stack, Instruction::MovePointerLeft(1));
            }
            Token::Plus => {
                push_instruction(&mut stack, Instruction::IncrementCell(1));
            }
            Token::Minus => {
                push_instruction(&mut stack, Instruction::DecrementCell(1));
            }
            Token::Dot => {
                push_instruction(&mut stack, Instruction::DisplayCell);
            }
            Token::Comma => {
                push_instruction(&mut stack, Instruction::ReplaceCell);
            }
            Token::LBracket => {
                stack.push(Vec::new());
                proof {
                    assert(stack_model(stack) =~= pre.push(Seq::<Inst>::empty()));
                }
            }
            Token::RBracket => {
                if stack.len() <= 1 {
                    return Err(ParserError::UnexpectedCloseBracket);
                }
                let body = stack.pop().unwrap();
                let ghost body_model = ast_model(body);
                let mut top = stack.pop().unwrap();
                let ghost top0 = top;
                top.push(Instruction::While(body));
                proof {
                    lemma_ast_model_push(top0, Instruction::While(body), top);
                }
                stack.push(top);
                proof {
                    assert(body_model == pre.last());
                    assert(stack_model(stack) =~= push_top(
                        pre.drop_last(),
                        Inst::Loop(pre.last()),
                    ));
                }
            }
            Token::Unknown => {}
        }
        proof {
            match token_of(c) {
                Token::GreaterThan => {
                    lemma_stack_counts_push_top(pre, Inst::Right(1));
                }
                Token::LessThan => {
                    lemma_stack_counts_push_top(pre, Inst::Left(1));
                }
                Token::Plus => {
                    lemma_stack_counts_push_top(pre, Inst::Inc(1));
                }
                Token::Minus => {
                    lemma_stack_counts_push_top(pre, Inst::Dec(1));
                }
                Token::Dot => {
                    lemma_stack_counts_push_top(pre, Inst::Out);
                }
                Token::Comma => {
                    lemma_stack_counts_push_top(pre, Inst::In);
                }
                Token::LBracket => {
                    lemma_stack_counts_open(pre);
                }
                Token::RBracket => {
                    lemma_stack_counts_close(pre);
                }
                Token::Unknown => {}
            }
        }
        i = i + 1;
    }
    if stack.len() == 1 {
        let ghost fin = stack_model(stack);
        let ast = stack.pop().unwrap();
        proof {
            assert(fin =~= seq![ast_model(ast)]);
            assert(stack_counts(fin, 0) == total_counts(ast_model(ast)) + stack_counts(fin, 1));
            assert(stack_counts(fin, 1) == 0);
        }
        Ok(ast)
    } else {
        Err(ParserError::UnterminatedLoop)
    }
}

} // verus!
