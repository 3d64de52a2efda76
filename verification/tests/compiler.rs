use brainfuck::compiler::{generate, Program};
use brainfuck::parser::Instruction;

#[test]
fn generate_emits_one_statement_per_instruction() {
    let ast = vec![
        Instruction::IncrementCell(8),
        Instruction::While(vec![
            Instruction::MovePointerRight(1),
            Instruction::IncrementCell(4),
        ]),
        Instruction::DisplayCell,
    ];
    let source = generate(4096, &ast);

    assert!(source.contains("let mut mem = Mem::new(4096);"));
    assert!(source.contains("mem.increment_cell(8);"));
    assert!(source.contains("while mem.current_cell_value() != 0 {"));
    assert!(source.contains("mem.move_to_cell(mem.index + 1);"));
    assert!(source.contains("mem.increment_cell(4);"));
    assert!(source.contains(
        "out.write_all(&[mem.current_cell_value()]).expect(\"failed to write to STDOUT\");"
    ));
    // no byte is read, so no reader and no buffer are declared
    assert!(!source.contains("let mut buffer"));
    assert!(!source.contains("let mut reader"));
}

#[test]
fn generate_declares_buffer_for_reads() {
    let ast = vec![Instruction::ReplaceCell, Instruction::MovePointerLeft(2)];
    let source = generate(16, &ast);

    assert!(source.contains("let mut reader = std::io::stdin();"));
    assert!(source.contains("let mut buffer: [u8; 1] = [0];"));
    assert!(source.contains(
        "reader.read_exact(&mut buffer).expect(\"failed to read from STDIN\");"
    ));
    assert!(source.contains("mem.set_current_cell_value(buffer[0]);"));
    assert!(source.contains("mem.move_to_cell(mem.index - 2);"));
}

#[test]
fn generate_embeds_the_tape_runtime() {
    let ast: Vec<Instruction> = Vec::new();
    let source = generate(64, &ast);

    assert!(source.starts_with("use std::io::Read;\nuse std::io::Write;\n"));
    assert!(source.contains("fn move_to_cell(&mut self, i: usize)"));
    assert!(source.contains("((v + n % 256) % 256) as u8"));
    assert!(source.contains("((v + 256 - n % 256) % 256) as u8"));
    assert!(source.ends_with("}\n"));
}

#[test]
fn program_starts_empty() {
    let program = Program::new(4096);
    assert_eq!(4096, program.default_memory);
    assert!(!program.read_buffer_definition);
    assert!(program.body.is_empty());
}
