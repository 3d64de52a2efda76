use brainfuck::parser::{parse, Instruction, ParserError};

#[test]
fn parsable_program() {
    let dummy = "++[>++>++<<-]>+.";

    let ast = vec![
        Instruction::IncrementCell(1),
        Instruction::IncrementCell(1),
        Instruction::While(vec![
            Instruction::MovePointerRight(1),
            Instruction::IncrementCell(1),
            Instruction::IncrementCell(1),
            Instruction::MovePointerRight(1),
            Instruction::IncrementCell(1),
            Instruction::IncrementCell(1),
            Instruction::MovePointerLeft(1),
            Instruction::MovePointerLeft(1),
            Instruction::DecrementCell(1),
        ]),
        Instruction::MovePointerRight(1),
        Instruction::IncrementCell(1),
        Instruction::DisplayCell,
    ];

    assert_eq!(ast, parse(dummy).unwrap())
}

#[test]
fn missing_closing_bracket() {
    let dummy = "++[>++>++<<->+.";
    let err = ParserError::UnterminatedLoop;

    assert_eq!(err, parse(dummy).unwrap_err())
}

#[test]
fn unexpected_closing_bracket() {
    let dummy = "++[>++>++<<-]]>+.";
    let err = ParserError::UnexpectedCloseBracket;

    assert_eq!(err, parse(dummy).unwrap_err())
}

#[test]
fn unrecognized_characters_skipped() {
    let noisy = "+ hello\tworld +[>x,#]!";
    let clean = "++[>,]";

    assert_eq!(parse(clean).unwrap(), parse(noisy).unwrap())
}

#[test]
fn empty_source() {
    let ast: Vec<Instruction> = Vec::new();
    assert_eq!(ast, parse("").unwrap())
}

#[test]
fn close_bracket_first_error_wins() {
    // the stray close bracket comes before the unterminated loop
    assert_eq!(ParserError::UnexpectedCloseBracket, parse("]+[").unwrap_err())
}
