use brainfuck::optimizer::shrink_calls;
use brainfuck::parser::{parse, Instruction};

#[test]
fn shrinked() {
    let input = vec![
        Instruction::IncrementCell(1),
        Instruction::IncrementCell(1),
        Instruction::While(vec![
            Instruction::MovePointerRight(1),
            Instruction::IncrementCell(1),
            Instruction::IncrementCell(1),
            Instruction::IncrementCell(1),
            Instruction::MovePointerRight(1),
            Instruction::IncrementCell(1),
            Instruction::IncrementCell(1),
            Instruction::MovePointerLeft(1),
            Instruction::MovePointerLeft(1),
            Instruction::DecrementCell(1),
        ]),
        Instruction::MovePointerRight(1),
        Instruction::IncrementCell(1),
        Instruction::DisplayCell,
    ];

    let output = vec![
        Instruction::IncrementCell(2),
        Instruction::While(vec![
            Instruction::MovePointerRight(1),
            Instruction::IncrementCell(3),
            Instruction::MovePointerRight(1),
            Instruction::IncrementCell(2),
            Instruction::MovePointerLeft(2),
            Instruction::DecrementCell(1),
        ]),
        Instruction::MovePointerRight(1),
        Instruction::IncrementCell(1),
        Instruction::DisplayCell,
    ];

    assert_eq!(output, shrink_calls(&input))
}

#[test]
fn shrink_of_parsed_program() {
    let ast = parse("++[>++>++<<-]>+.").unwrap();

    let expected = vec![
        Instruction::IncrementCell(2),
        Instruction::While(vec![
            Instruction::MovePointerRight(1),
            Instruction::IncrementCell(2),
            Instruction::MovePointerRight(1),
            Instruction::IncrementCell(2),
            Instruction::MovePointerLeft(2),
            Instruction::DecrementCell(1),
        ]),
        Instruction::MovePointerRight(1),
        Instruction::IncrementCell(1),
        Instruction::DisplayCell,
    ];

    assert_eq!(expected, shrink_calls(&ast))
}

#[test]
fn shrink_keeps_reads_and_writes_apart() {
    let input = vec![
        Instruction::DisplayCell,
        Instruction::ReplaceCell,
        Instruction::IncrementCell(1),
        Instruction::DecrementCell(1),
    ];
    let output = vec![
        Instruction::DisplayCell,
        Instruction::ReplaceCell,
        Instruction::IncrementCell(1),
        Instruction::DecrementCell(1),
    ];

    assert_eq!(output, shrink_calls(&input))
}
