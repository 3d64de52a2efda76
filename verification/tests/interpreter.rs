use brainfuck::interpreter::{run, Memory, RuntimeError};
use brainfuck::optimizer::shrink_calls;
use brainfuck::parser::parse;

#[test]
fn hello_world() {
    let source = "++++++++[>++++[>++>+++>+++>+<<<<-]>+>+>->>+[<]<-]>>.>---.+++++++..+++.>>.<-.<.+++.------.--------.>>+.>++.";
    let ast = parse(source).unwrap();
    let stdin: Vec<u8> = Vec::new();
    let mut output: Vec<u8> = Vec::new();

    run(512, &ast, &stdin, &mut output, u64::MAX).unwrap().unwrap();

    let output = String::from_utf8(output).unwrap();
    assert_eq!("Hello World!\n".to_string(), output);
}

#[test]
fn tic_tac_toe() {
    let source = "--->--->>>>->->->>>>>-->>>>>>>>>>>>>>>>>>+>>++++++++++[<<++[--<+<<+<<+>>>>[>[<->>+++>>[-]+++<<<+[<++>>+<--]]+>+++++[>>+++++++++<<-]>>++++.[-]>>+[<<<<+>>+>>-]<<<<<<[>+<-]<<]++++++++++.[-]>++]-->>[-->[-]>]<<[>>--[-[-[-----[>+>+++++++<<+]-->>-.----->,[<->-]<[[<]+[->>]<-]<[<<,[-]]>>>>]>]<[>-[+<+++]+<+++[+[---->]+<<<<<<[>>]<[-]]>[<+[---->]++[<]<[>]>[[>]+>+++++++++<<-[<]]]>[>>>>]]<[-[[>+>+<<-]>[<+>-]++>+>>]<[<<++[-->>[-]]>[[-]>[<<+>>-]>]]]<[[[<<]-[>>]<+<-]>[-<+]<<[<<]-<[>[+>>]>[>]>[-]]>[[+>>]<-->>[>]+>>>]]<[-[--[+<<<<--[+>[-]>[<<+>+>-]<<[>>+<<-]]++[>]]<<[>+>+<<-]>--[<+>-]++>>>]<[<<<[-]+++>[-]>[<+>>>+<<-]+>>>]]<[+[[<]<<[<<]-<->>+>[>>]>[>]<-]+[-<+]<++[[>+<-]++<[<<->>+]<++]<<<<<<<+>>>+>>>+[<<<->+>+>+[<<<<<<<+>->+>>>->->+[<<<<<->+>+>>+>+[<<<<->->+>->+[<<<<<<<<+>->>+>>>->+>+[<<<<<->>+>>->+[<<<<+>->+>>+]]]]]]]+++[[>+<-]<+++]--->>[-[<->-]<++>>]++[[<->-]>>]>[>]]<]]<]";
    let ast = parse(source).unwrap();
    let stdin: Vec<u8> = b"5\n7\n6\n".to_vec();
    let mut output: Vec<u8> = Vec::new();

    run(512, &ast, &stdin, &mut output, u64::MAX).unwrap().unwrap();

    let output = String::from_utf8(output).unwrap();
    assert_eq!(
        "X23\n456\n789\n>X23\n4O6\n78X\n>X2X\n4O6\nO8X\n>XXX\n4OO\nO8X\n".to_string(),
        output
    );
}

#[test]
fn wraparound_increment() {
    let mut mem = Memory::new(1);
    mem.set_current_cell_value(255);
    mem.increment_cell(1);
    assert_eq!(0, mem.current_cell_value());
}

#[test]
fn wraparound_decrement() {
    let mut mem = Memory::new(1);
    assert_eq!(0, mem.current_cell_value());
    mem.decrement_cell(1);
    assert_eq!(255, mem.current_cell_value());
}

#[test]
fn pointer_underflow() {
    let mut mem = Memory::new(4);
    assert!(mem.next_cell(2));
    assert_eq!(Err(RuntimeError::NegativeAddress), mem.previous_cell(3));
    assert_eq!(Ok(()), mem.previous_cell(2));
    assert_eq!(Err(RuntimeError::NegativeAddress), mem.previous_cell(1));
}

#[test]
fn growth_keeps_written_cells() {
    let mut mem = Memory::new(2);
    mem.set_current_cell_value(7);
    assert!(mem.next_cell(9));
    assert_eq!(0, mem.current_cell_value());
    mem.set_current_cell_value(3);
    assert_eq!(Ok(()), mem.previous_cell(9));
    assert_eq!(7, mem.current_cell_value());
    assert!(mem.next_cell(9));
    assert_eq!(3, mem.current_cell_value());
}

#[test]
fn reading_past_input_fails() {
    let ast = parse(",.").unwrap();
    let stdin: Vec<u8> = Vec::new();
    let mut output: Vec<u8> = Vec::new();
    assert_eq!(
        Some(Err(RuntimeError::IOReadFailure)),
        run(4, &ast, &stdin, &mut output, u64::MAX)
    );
    assert!(output.is_empty());
}

#[test]
fn moving_left_of_cell_zero_fails() {
    let ast = parse(".<.").unwrap();
    let stdin: Vec<u8> = Vec::new();
    let mut output: Vec<u8> = Vec::new();
    assert_eq!(
        Some(Err(RuntimeError::NegativeAddress)),
        run(4, &ast, &stdin, &mut output, u64::MAX)
    );
    // the byte written before the failure stays
    assert_eq!(vec![0u8], output);
}

#[test]
fn fuel_exhaustion_is_reported() {
    let ast = parse("+[]").unwrap();
    let stdin: Vec<u8> = Vec::new();
    let mut output: Vec<u8> = Vec::new();
    assert_eq!(None, run(4, &ast, &stdin, &mut output, 1000));
}

#[test]
fn optimized_run_matches_original_run() {
    let source = "++++++++[>++++[>++>+++>+++>+<<<<-]>+>+>->>+[<]<-]>>.>---.+++++++..+++.>>.<-.<.+++.------.--------.>>+.>++.";
    let ast = parse(source).unwrap();
    let optimized = shrink_calls(&ast);
    let stdin: Vec<u8> = Vec::new();

    let mut plain: Vec<u8> = Vec::new();
    run(512, &ast, &stdin, &mut plain, u64::MAX).unwrap().unwrap();
    let mut merged: Vec<u8> = Vec::new();
    run(512, &optimized, &stdin, &mut merged, u64::MAX).unwrap().unwrap();

    assert_eq!(plain, merged);
}
