use vstd::prelude::*;
use vstd::string::StringExecFns;
use crate::parser::Instruction;
use crate::semantics::Inst;
use crate::semantics::ast_model;
use crate::semantics::inst_model;
use crate::semantics::lemma_ast_model_from;

verus! {

broadcast use vstd::std_specs::vec::group_vec_axioms;

/// The one failure of compile mode: the toolchain could not be launched, or
/// it reported failure.
#[derive(Clone, Copy, Debug, PartialEq, Eq, Structural)]
pub enum CompilationError {
    ToolchainInvocationFailed,
}

/// A generated program under construction: the memory its tape starts with,
/// whether its main function needs the input buffer, and the statements of
/// its body.
pub struct Program {
    pub default_memory: usize,
    pub read_buffer_definition: bool,
    pub body: Vec<String>,
}

impl Program {
    pub fn new(default_memory: usize) -> (r: Program)
        ensures
            r.default_memory == default_memory,
            !r.read_buffer_definition,
            r.body@ =~= Seq::<String>::empty(),
    {
        Program { default_memory, read_buffer_definition: false, body: Vec::new() }
    }
}

/// The decimal digit characters.
pub open spec fn digit_char(d: nat) -> char {
    if d == 0 {
        '0'
    } else if d == 1 {
        '1'
    } else if d == 2 {
        '2'
    } else if d == 3 {
        '3'
    } else if d == 4 {
        '4'
    } else if d == 5 {
        '5'
    } else if d == 6 {
        '6'
    } else if d == 7 {
        '7'
    } else if d == 8 {
        '8'
    } else {
        '9'
    }
}

/// A number written in decimal, most significant digit first.
pub open spec fn dec_str(n: nat) -> Seq<char>
    decreases n,
{
    if n < 10 {
        seq![digit_char(n)]
    } else {
        dec_str(n / 10) + seq![digit_char(n % 10)]
    }
}

/// Whether the program ever reads a byte, so that the generated main needs
/// a reader and a one-byte buffer.
pub open spec fn uses_inst(ins: Inst) -> bool
    decreases ins, 0int, 0int,
{
    match ins {
        Inst::In => true,
        Inst::Loop(b) => uses_input(b, 0),
        _ => false,
    }
}

pub open spec fn uses_input(s: Seq<Inst>, i: nat) -> bool
    decreases s, s.len() - i, 1int,
{
    if i >= s.len() {
        false
    } else {
        uses_inst(s[i as int]) || uses_input(s, (i + 1) as nat)
    }
}

/// A suffix reads input exactly when one of its instructions does.
proof fn lemma_uses_exists(s: Seq<Inst>, i: nat)
    requires
        i <= s.len(),
    ensures
        uses_input(s, i) <==> exists|k: int| i <= k < s.len() && #[trigger] uses_inst(s[k]),
    decreases s.len() - i,
{
    if i < s.len() {
        lemma_uses_exists(s, (i + 1) as nat);
        if uses_inst(s[i as int]) {
            assert((i as int) < s.len() && uses_inst(s[i as int]));
        }
    }
}

/// The statements emitted for one instruction.
pub open spec fn inst_lines(ins: Inst) -> Seq<Seq<char>>
    decreases ins, 0int, 0int,
{
    match ins {
        Inst::Right(n) => seq!["mem.move_to_cell(mem.index + "@ + dec_str(n) + ");"@],
        Inst::Left(n) => seq!["mem.move_to_cell(mem.index - "@ + dec_str(n) + ");"@],
        Inst::Inc(n) => seq!["mem.increment_cell("@ + dec_str(n) + ");"@],
        Inst::Dec(n) => seq!["mem.decrement_cell("@ + dec_str(n) + ");"@],
        Inst::Out => seq![
            "out.write_all(&[mem.current_cell_value()]).expect(\"failed to write to STDOUT\");"@,
        ],
        Inst::In => seq![
            "reader.read_exact(&mut buffer).expect(\"failed to read from STDIN\");"@,
            "mem.set_current_cell_value(buffer[0]);"@,
        ],
        Inst::Loop(b) => seq!["while mem.current_cell_value() != 0 {"@] + ast_lines(b, 0) + seq![
            "}"@,
        ],
    }
}

/// The statements emitted for the instructions of `s` from position `i` on.
pub open spec fn ast_lines(s: Seq<Inst>, i: nat) -> Seq<Seq<char>>
    decreases s, s.len() - i, 1int,
{
    if i >= s.len() {
        Seq::empty()
    } else {
        inst_lines(s[i as int]) + ast_lines(s, (i + 1) as nat)
    }
}

/// The lines joined, one newline after each.
pub open spec fn joined(lines: Seq<Seq<char>>, i: nat) -> Seq<char>
    decreases lines.len() - i,
{
    if i >= lines.len() {
        Seq::empty()
    } else {
        lines[i as int] + seq!['\n'] + joined(lines, (i + 1) as nat)
    }
}

/// The embedded runtime: a tape with the same wraparound and grow-on-demand
/// semantics as the interpreter's, reading and writing one byte at a time.
pub open spec fn runtime_text() -> Seq<char> {
    "use std::io::Read;\nuse std::io::Write;\n\nstruct Mem {\n    cells: Vec<u8>,\n    index: usize,\n}\n\nimpl Mem {\n    fn new(memory: usize) -> Mem {\n        let mut cells = Vec::new();\n        cells.resize(memory, 0);\n        Mem { cells, index: 0 }\n    }\n    fn move_to_cell(&mut self, i: usize) {\n        self.index = i;\n        if self.index >= self.cells.len() {\n            self.cells.resize(self.index + 1, 0);\n        }\n    }\n    fn increment_cell(&mut self, n: usize) {\n        let v = self.cells[self.index] as usize;\n        self.cells[self.index] = ((v + n % 256) % 256) as u8;\n    }\n    fn decrement_cell(&mut self, n: usize) {\n        let v = self.cells[self.index] as usize;\n        self.cells[self.index] = ((v + 256 - n % 256) % 256) as u8;\n    }\n    fn current_cell_value(&self) -> u8 {\n        self.cells[self.index]\n    }\n    fn set_current_cell_value(&mut self, value: u8) {\n        self.cells[self.index] = value;\n    }\n}\n\nfn main() {\nlet mut mem = Mem::new("@
}

pub open spec fn main_intro() -> Seq<char> {
    ");\nlet mut out = std::io::stdout();\n"@
}

pub open spec fn buffer_intro() -> Seq<char> {
    "let mut reader = std::io::stdin();\nlet mut buffer: [u8; 1] = [0];\n"@
}

pub open spec fn closing_text() -> Seq<char> {
    "}\n"@
}

/// The whole generated source.
pub open spec fn program_text(memory: nat, body: Seq<Seq<char>>, reads: bool) -> Seq<char> {
    runtime_text() + dec_str(memory) + main_intro() + (if reads {
        buffer_intro()
    } else {
        Seq::empty()
    }) + joined(body, 0) + closing_text()
}

/// The statement lines of a program under construction.
pub open spec fn lines_model(v: Vec<String>) -> Seq<Seq<char>> {
    Seq::new(v.len() as nat, |k: int| v[k]@)
}

/// Append `n` in decimal to `out`.
fn push_dec(out: &mut String, n: usize)
    ensures
        final(out)@ == old(out)@ + dec_str(n as nat),
    decreases n,
{
    if n >= 10 {
        push_dec(out, n / 10);
    }
    let d = n % 10;
    if d == 0 {
        out.append("0");
        proof {
            reveal_strlit("0");
        }
    } else if d == 1 {
        out.append("1");
        proof {
            reveal_strlit("1");
        }
    } else if d == 2 {
        out.append("2");
        proof {
            reveal_strlit("2");
        }
    } else if d == 3 {
        out.append("3");
        proof {
            reveal_strlit("3");
        }
    } else if d == 4 {
        out.append("4");
        proof {
            reveal_strlit("4");
        }
    } else if d == 5 {
        out.append("5");
        proof {
            reveal_strlit("5");
        }
    } else if d == 6 {
        out.append("6");
        proof {
            reveal_strlit("6");
        }
    } else if d == 7 {
        out.append("7");
        proof {
            reveal_strlit("7");
        }
    } else if d == 8 {
        out.append("8");
        proof {
            reveal_strlit("8");
        }
    } else {
        out.append("9");
        proof {
            reveal_strlit("9");
        }
    }
    proof {
        if n >= 10 {
            assert(old(out)@ + (dec_str((n / 10) as nat) + seq![digit_char((n % 10) as nat)])
                =~= (old(out)@ + dec_str((n / 10) as nat)) + seq![digit_char((n % 10) as nat)]);
        }
        assert(final(out)@ =~= old(out)@ + dec_str(n as nat));
    }
}

/// One statement around a decimal count.
fn count_line(head: &str, n: usize) -> (r: String)
    ensures
        r@ == head@ + dec_str(n as nat) + ");"@,
{
    let mut line = String::from_str(head);
    push_dec(&mut line, n);
    line.append(");");
    proof {
        assert(line@ =~= head@ + dec_str(n as nat) + ");"@);
    }
    line
}

/// Emit the statements for every instruction of `ast` onto the program's
/// body, walking the tree exactly as the interpreter dispatches it.
fn do_generate(program: &mut Program, spacing: usize, ast: &Vec<Instruction>)
    ensures
        final(program).default_memory == old(program).default_memory,
        lines_model(final(program).body) == lines_model(old(program).body) + ast_lines(
            ast_model(*ast),
            0,
        ),
        final(program).read_buffer_definition == (old(program).read_buffer_definition
            || uses_input(ast_model(*ast), 0)),
    decreases *ast,
{
    let ghost s = ast_model(*ast);
    proof {
        lemma_ast_model_from(*ast, 0);
        assert(lines_model(old(program).body) + ast_lines(s, 0) =~= lines_model(
            old(program).body,
        ) + ast_lines(s, 0));
    }
    let n = ast.len();
    let mut i: usize = 0;
    while i < n
        invariant
            n == ast.len(),
            i <= n,
            s == ast_model(*ast),
            s.len() == n,
            forall|j: int| 0 <= j < n ==> s[j] == inst_model(ast[j]),
            program.default_memory == old(program).default_memory,
            lines_model(program.body) + ast_lines(s, i as nat) == lines_model(
                old(program).body,
            ) + ast_lines(s, 0),
            program.read_buffer_definition == (old(program).read_buffer_definition || exists|k: int|
                0 <= k < i && #[trigger] uses_inst(s[k])),
        decreases n - i,
    {
        let ins = &ast[i];
        let ghost pre = lines_model(program.body);
        match ins {
            Instruction::MovePointerRight(count) => {
                program.body.push(count_line("mem.move_to_cell(mem.index + ", *count));
                proof {
                    assert(lines_model(program.body) =~= pre + inst_lines(s[i as int]));
                    assert(pre + inst_lines(s[i as int]) + ast_lines(s, (i + 1) as nat) =~= pre
                        + ast_lines(s, i as nat));
                }
            }
            Instruction::MovePointerLeft(count) => {
                program.body.push(count_line("mem.move_to_cell(mem.index - ", *count));
                proof {
                    assert(lines_model(program.body) =~= pre + inst_lines(s[i as int]));
                    assert(pre + inst_lines(s[i as int]) + ast_lines(s, (i + 1) as nat) =~= pre
                        + ast_lines(s, i as nat));
                }
            }
            Instruction::IncrementCell(count) => {
                program.body.push(count_line("mem.increment_cell(", *count));
                proof {
                    assert(lines_model(program.body) =~= pre + inst_lines(s[i as int]));
                    assert(pre + inst_lines(s[i as int]) + ast_lines(s, (i + 1) as nat) =~= pre
                        + ast_lines(s, i as nat));
                }
            }
            Instruction::DecrementCell(count) => {
                program.body.push(count_line("mem.decrement_cell(", *count));
                proof {
                    assert(lines_model(program.body) =~= pre + inst_lines(s[i as int]));
                    assert(pre + inst_lines(s[i as int]) + ast_lines(s, (i + 1) as nat) =~= pre
                        + ast_lines(s, i as nat));
                }
            }
            Instruction::DisplayCell => {
                program.body.push(
                    String::from_str(
                        "out.write_all(&[mem.current_cell_value()]).expect(\"failed to write to STDOUT\");",
                    ),
                );
                proof {
                    assert(lines_model(program.body) =~= pre + inst_lines(s[i as int]));
                    assert(pre + inst_lines(s[i as int]) + ast_lines(s, (i + 1) as nat) =~= pre
                        + ast_lines(s, i as nat));
                }
            }
            Instruction::ReplaceCell => {
                program.read_buffer_definition = true;
                program.body.push(
                    String::from_str(
                        "reader.read_exact(&mut buffer).expect(\"failed to read from STDIN\");",
                    ),
                );
                program.body.push(String::from_str("mem.set_current_cell_value(buffer[0]);"));
                proof {
                    assert(uses_inst(s[i as int]));
                    assert(lines_model(program.body) =~= pre + inst_lines(s[i as int]));
                    assert(pre + inst_lines(s[i as int]) + ast_lines(s, (i + 1) as nat) =~= pre
                        + ast_lines(s, i as nat));
                }
            }
            Instruction::While(sub) => {
                program.body.push(String::from_str("while mem.current_cell_value() != 0 {"));
                let ghost mid = lines_model(program.body);
                proof {
                    assert(mid =~= pre + seq!["while mem.current_cell_value() != 0 {"@]);
                }
                do_generate(program, spacing.saturating_add(2), sub);
                program.body.push(String::from_str("}"));
                proof {
                    assert(lines_model(program.body) =~= mid + ast_lines(ast_model(*sub), 0)
                        + seq!["}"@]);
                    assert(s[i as int] == Inst::Loop(ast_model(*sub)));
                    assert(lines_model(program.body) =~= pre + inst_lines(s[i as int]));
                    assert(pre + inst_lines(s[i as int]) + ast_lines(s, (i + 1) as nat) =~= pre
                        + ast_lines(s, i as nat));
                    assert(uses_inst(s[i as int]) == uses_input(ast_model(*sub), 0));
                }
            }
        }
        proof {
            match s[i as int] {
                Inst::Right(c) => {
                    assert(!uses_inst(s[i as int]));
                }
                Inst::Left(c) => {
                    assert(!uses_inst(s[i as int]));
                }
                Inst::Inc(c) => {
                    assert(!uses_inst(s[i as int]));
                }
                Inst::Dec(c) => {
                    assert(!uses_inst(s[i as int]));
                }
                Inst::Out => {
                    assert(!uses_inst(s[i as int]));
                }
                _ => {}
            }
        }
        i = i + 1;
    }
    proof {
        lemma_uses_exists(s, 0);
    }
}

/// Render a finished program: the runtime, then main with its tape, its
/// output handle, the input buffer when one is read, and the body.
fn write_program(program: &Program) -> (r: String)
    ensures
        r@ == program_text(
            program.default_memory as nat,
            lines_model(program.body),
            program.read_buffer_definition,
        ),
{
    let mut out = String::from_str(
        "use std::io::Read;\nuse std::io::Write;\n\nstruct Mem {\n    cells: Vec<u8>,\n    index: usize,\n}\n\nimpl Mem {\n    fn new(memory: usize) -> Mem {\n        let mut cells = Vec::new();\n        cells.resize(memory, 0);\n        Mem { cells, index: 0 }\n    }\n    fn move_to_cell(&mut self, i: usize) {\n        self.index = i;\n        if self.index >= self.cells.len() {\n            self.cells.resize(self.index + 1, 0);\n        }\n    }\n    fn increment_cell(&mut self, n: usize) {\n        let v = self.cells[self.index] as usize;\n        self.cells[self.index] = ((v + n % 256) % 256) as u8;\n    }\n    fn decrement_cell(&mut self, n: usize) {\n        let v = self.cells[self.index] as usize;\n        self.cells[self.index] = ((v + 256 - n % 256) % 256) as u8;\n    }\n    fn current_cell_value(&self) -> u8 {\n        self.cells[self.index]\n    }\n    fn set_current_cell_value(&mut self, value: u8) {\n        self.cells[self.index] = value;\n    }\n}\n\nfn main() {\nlet mut mem = Mem::new(",
    );
    push_dec(&mut out, program.default_memory);
    out.append(");\nlet mut out = std::io::stdout();\n");
    if program.read_buffer_definition {
        out.append("let mut reader = std::io::stdin();\nlet mut buffer: [u8; 1] = [0];\n");
    }
    let ghost head = out@;
    proof {
        assert(head =~= runtime_text() + dec_str(program.default_memory as nat) + main_intro() + (
        if program.read_buffer_definition {
            buffer_intro()
        } else {
            Seq::<char>::empty()
        }));
    }
    let ghost lines = lines_model(program.body);
    let m = program.body.len();
    let mut k: usize = 0;
    while k < m
        invariant
            m == program.body.len(),
            k <= m,
            lines == lines_model(program.body),
            lines.len() == m,
            out@ + joined(lines, k as nat) == head + joined(lines, 0),
        decreases m - k,
    {
        let ghost before = out@;
        out.append(program.body[k].as_str());
        out.append("\n");
        proof {
            reveal_strlit("\n");
            assert(out@ =~= before + lines[k as int] + seq!['\n']);
            assert(out@ + joined(lines, (k + 1) as nat) =~= before + joined(lines, k as nat));
        }
        k = k + 1;
    }
    out.append("}\n");
    proof {
        assert(joined(lines, m as nat) =~= Seq::<char>::empty());
        assert(out@ =~= program_text(
            program.default_memory as nat,
            lines,
            program.read_buffer_definition,
        ));
    }
    out
}

/// Generate the whole source of a host-language program that reproduces the
/// tape semantics of `ast`: the same wraparound, growth and byte-for-byte
/// input and output as the interpreter.
pub fn generate(default_memory: usize, ast: &Vec<Instruction>) -> (r: String)
    ensures
        r@ == program_text(
            default_memory as nat,
            ast_lines(ast_model(*ast), 0),
            uses_input(ast_model(*ast), 0),
        ),
{
    let mut program = Program::new(default_memory);
    do_generate(&mut program, 2, ast);
    proof {
        assert(lines_model(program.body) =~= ast_lines(ast_model(*ast), 0));
    }
    write_program(&program)
}

} // verus!
