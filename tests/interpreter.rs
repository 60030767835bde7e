use optimizing_bf::error::BFError;
use optimizing_bf::interpreter::{InputBuffer, Interpreter, Machine};
use optimizing_bf::optimize::perform_all;
use optimizing_bf::syntax::BFSyntax;
use optimizing_bf::tokens::tokenize;

fn build(source: &str) -> BFSyntax {
    BFSyntax::build(&tokenize(source)).unwrap()
}

fn run(program: BFSyntax, input: Vec<u8>) -> (Result<(), BFError>, Vec<u8>, Machine) {
    let mut machine = Machine::new();
    let mut input = InputBuffer::new(input);
    let mut output: Vec<u8> = Vec::new();
    let r = machine.execute(program, &mut input, &mut output);
    (r, output, machine)
}

#[test]
fn test_simple_instructions() {
    let mut machine = Machine::new();

    let mut input = InputBuffer::new(vec![]);
    let mut output: Vec<u8> = Vec::new();
    machine.execute(BFSyntax::Inc(1), &mut input, &mut output).unwrap();
    assert_eq!(machine.cells[0], 1);

    machine.execute(BFSyntax::Right(1), &mut input, &mut output).unwrap();
    assert_eq!(machine.position, 1);

    machine.execute(BFSyntax::Dec(1), &mut input, &mut output).unwrap();
    assert_eq!(machine.cells[1], 255);
}

#[test]
fn test_loop() {
    let mut machine = Machine::new();
    let mut input = InputBuffer::new(vec![]);
    let mut output: Vec<u8> = Vec::new();
    machine.cells[0] = 5;

    machine
        .execute(
            BFSyntax::Loop(vec![
                BFSyntax::Dec(1),
                BFSyntax::Right(1),
                BFSyntax::Left(1),
            ]),
            &mut input,
            &mut output,
        )
        .unwrap();
    assert_eq!(machine.cells[0], 0);
}

#[test]
fn fresh_machine_has_zeroed_tape() {
    let machine = Machine::new();
    assert_eq!(machine.cells.len(), 30000);
    assert!(machine.cells.iter().all(|c| *c == 0));
    assert_eq!(machine.position, 0);
}

#[test]
fn increment_wraps_to_zero() {
    let mut machine = Machine::new();
    let mut input = InputBuffer::new(vec![]);
    let mut output: Vec<u8> = Vec::new();
    machine.cells[0] = 255;
    machine.execute(BFSyntax::Inc(1), &mut input, &mut output).unwrap();
    assert_eq!(machine.cells[0], 0);
    machine.execute(BFSyntax::Dec(1), &mut input, &mut output).unwrap();
    assert_eq!(machine.cells[0], 255);
    machine.execute(BFSyntax::Inc(3), &mut input, &mut output).unwrap();
    assert_eq!(machine.cells[0], 2);
    machine.execute(BFSyntax::Dec(5), &mut input, &mut output).unwrap();
    assert_eq!(machine.cells[0], 253);
}

#[test]
fn loop_on_zero_cell_runs_no_iteration() {
    let (r, output, machine) = run(
        BFSyntax::Root(vec![BFSyntax::Loop(vec![BFSyntax::Write, BFSyntax::Inc(1)])]),
        vec![],
    );
    assert_eq!(r, Ok(()));
    assert!(output.is_empty());
    assert_eq!(machine.cells[0], 0);
}

#[test]
fn empty_program_does_nothing() {
    let program = build("");
    assert_eq!(program, BFSyntax::Root(vec![]));
    let (r, output, machine) = run(program, vec![]);
    assert_eq!(r, Ok(()));
    assert!(output.is_empty());
    assert_eq!(machine.position, 0);
}

#[test]
fn read_on_exhausted_input_fails() {
    let (r, output, _) = run(build(","), vec![]);
    assert_eq!(r, Err(BFError::EndOfInput));
    assert!(output.is_empty());
}

#[test]
fn read_takes_bytes_in_order() {
    let (r, output, _) = run(build(",.,+."), vec![7, 41]);
    assert_eq!(r, Ok(()));
    assert_eq!(output, vec![7, 42]);
}

#[test]
fn output_before_failing_read_is_kept() {
    let (r, output, _) = run(build("+.,."), vec![]);
    assert_eq!(r, Err(BFError::EndOfInput));
    assert_eq!(output, vec![1]);
}

#[test]
fn multiplication_loop_writes_nine() {
    let (r, output, machine) = run(build("+++[>+++<-]>."), vec![]);
    assert_eq!(r, Ok(()));
    assert_eq!(output, vec![9]);
    assert_eq!(machine.cells[0], 0);
    assert_eq!(machine.position, 1);
}

#[test]
fn optimized_multiplication_loop_writes_nine() {
    let (r, output, _) = run(perform_all(build("+++[>+++<-]>.")), vec![]);
    assert_eq!(r, Ok(()));
    assert_eq!(output, vec![9]);
}

#[test]
fn moving_left_of_the_tape_fails() {
    let (r, _, machine) = run(build("<"), vec![]);
    assert_eq!(r, Err(BFError::OutOfBounds));
    assert_eq!(machine.position, 0);
}

#[test]
fn moving_right_of_the_tape_fails() {
    let (r, _, _) = run(BFSyntax::Right(30000), vec![]);
    assert_eq!(r, Err(BFError::OutOfBounds));
    let (r, _, machine) = run(BFSyntax::Right(29999), vec![]);
    assert_eq!(r, Ok(()));
    assert_eq!(machine.position, 29999);
}

#[test]
fn loop_limit_stops_endless_loop() {
    let mut machine = Machine::new();
    machine.loop_limit = 10;
    let mut input = InputBuffer::new(vec![]);
    let mut output: Vec<u8> = Vec::new();
    let r = machine.execute(build("+[]"), &mut input, &mut output);
    assert_eq!(r, Err(BFError::LoopLimit));
}

#[test]
fn assign_overwrites_cell() {
    let (r, output, _) = run(
        BFSyntax::Root(vec![BFSyntax::Inc(9), BFSyntax::Assign(4), BFSyntax::Write]),
        vec![],
    );
    assert_eq!(r, Ok(()));
    assert_eq!(output, vec![4]);
}

#[test]
fn flat_interpreter_multiplication_loop_writes_nine() {
    let mut interpreter = Interpreter::new(tokenize("+++[>+++<-]>."));
    let mut input = InputBuffer::new(vec![]);
    let mut output: Vec<u8> = Vec::new();
    assert_eq!(interpreter.execute(&mut input, &mut output), Ok(()));
    assert_eq!(output, vec![9]);
}

#[test]
fn flat_interpreter_skips_loop_on_zero() {
    let mut interpreter = Interpreter::new(tokenize("[[-].]+."));
    let mut input = InputBuffer::new(vec![]);
    let mut output: Vec<u8> = Vec::new();
    assert_eq!(interpreter.execute(&mut input, &mut output), Ok(()));
    assert_eq!(output, vec![1]);
}

#[test]
fn flat_interpreter_reads_and_echoes() {
    let mut interpreter = Interpreter::new(tokenize(",[.,]"));
    let mut input = InputBuffer::new(vec![3, 2, 1, 0]);
    let mut output: Vec<u8> = Vec::new();
    assert_eq!(interpreter.execute(&mut input, &mut output), Ok(()));
    assert_eq!(output, vec![3, 2, 1]);
}

#[test]
fn flat_interpreter_unmatched_brackets_fail() {
    let mut input = InputBuffer::new(vec![]);
    let mut output: Vec<u8> = Vec::new();
    let mut open = Interpreter::new(tokenize("["));
    assert_eq!(open.execute(&mut input, &mut output), Err(BFError::SyntaxError));
    let mut close = Interpreter::new(tokenize("+]"));
    assert_eq!(close.execute(&mut input, &mut output), Err(BFError::SyntaxError));
}

#[test]
fn input_buffer_hands_out_bytes_once() {
    let mut input = InputBuffer::new(vec![5, 6]);
    assert_eq!(input.take_byte(), Some(5));
    assert_eq!(input.take_byte(), Some(6));
    assert_eq!(input.take_byte(), None);
}

#[test]
fn optimized_program_writes_the_same_output() {
    let source = "++++++++[>++++[>++>+++>+++>+<<<<-]>+>+>->>+[<]<-]>>.>---.+++++++..+++.>>.<-.<.+++.------.--------.>>+.>++.";
    let (r1, plain, m1) = run(build(source), vec![]);
    let (r2, optimized, m2) = run(perform_all(build(source)), vec![]);
    assert_eq!(r1, Ok(()));
    assert_eq!(r2, Ok(()));
    assert_eq!(plain, b"Hello World!\n".to_vec());
    assert_eq!(optimized, plain);
    assert_eq!(m1.cells, m2.cells);
    assert_eq!(m1.position, m2.position);
}
