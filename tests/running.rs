use keyword_bf::lexer::{lexer, translator};
use keyword_bf::machine::{Action, Machine, RunError, START_PTR};
use keyword_bf::parser::{parser, Instruction};

/// How a bounded run ended.
#[derive(Debug, PartialEq)]
enum End {
    Halted,
    Failed(RunError),
    OutOfInput,
    OutOfSteps,
}

fn run(m: &mut Machine, input: &[u8], max_steps: usize) -> (Vec<u8>, End) {
    let mut out = Vec::new();
    let mut input = input.iter();
    for _ in 0..max_steps {
        match m.step() {
            Ok(Action::Continue) => {}
            Ok(Action::Output(b)) => out.push(b),
            Ok(Action::Input) => match input.next() {
                Some(b) => m.store_input(*b),
                None => return (out, End::OutOfInput),
            },
            Ok(Action::Halt) => return (out, End::Halted),
            Err(e) => return (out, End::Failed(e)),
        }
    }
    (out, End::OutOfSteps)
}

fn machine_for(ops: &str) -> Machine {
    let program = parser(lexer(translator(ops.to_string()))).unwrap();
    Machine::new(program)
}

#[test]
fn starts_in_the_middle_of_a_zero_tape() {
    let m = machine_for("");
    assert_eq!(m.pointer(), START_PTR);
    assert_eq!(m.pointer(), 512);
    assert_eq!(m.cell(), 0);
}

#[test]
fn empty_program_halts() {
    let mut m = machine_for("");
    assert_eq!(run(&mut m, &[], 10), (vec![], End::Halted));
}

#[test]
fn identity_echo() {
    let mut m = machine_for(",.");
    assert_eq!(run(&mut m, &[65], 100), (vec![65], End::Halted));
}

#[test]
fn simple_loop_counts_down() {
    let mut m = machine_for("+++[.-]");
    assert_eq!(run(&mut m, &[], 1000), (vec![3, 2, 1], End::Halted));
    assert_eq!(m.cell(), 0);
}

#[test]
fn increments_wrap_after_256() {
    let mut m = Machine::new((0..256).map(|_| Instruction::Incr).collect());
    let (out, end) = run(&mut m, &[], 1000);
    assert_eq!((out, end), (vec![], End::Halted));
    assert_eq!(m.cell(), 0);
}

#[test]
fn increment_past_255_gives_0() {
    let mut m = machine_for(",+.");
    assert_eq!(run(&mut m, &[255], 100), (vec![0], End::Halted));
}

#[test]
fn decrement_at_0_gives_255() {
    let mut m = machine_for("-.");
    assert_eq!(run(&mut m, &[], 100), (vec![255], End::Halted));
    assert_eq!(m.cell(), 255);
}

#[test]
fn empty_loop_parses_and_is_skipped_on_zero() {
    let program = parser(lexer(translator("[]".to_string()))).unwrap();
    assert_eq!(program, vec![Instruction::Loop(vec![])]);
    let mut m = Machine::new(program);
    assert_eq!(run(&mut m, &[], 100), (vec![], End::Halted));
}

#[test]
fn empty_loop_on_nonzero_cell_keeps_running() {
    let mut m = machine_for("+[]");
    let (out, end) = run(&mut m, &[], 10_000);
    assert_eq!((out, end), (vec![], End::OutOfSteps));
    assert_eq!(m.cell(), 1);
}

#[test]
fn moving_left_off_the_tape_fails() {
    let mut m = machine_for(&"<".repeat(513));
    assert_eq!(
        run(&mut m, &[], 10_000),
        (vec![], End::Failed(RunError::OutOfBounds(0)))
    );
    assert_eq!(m.pointer(), 0);
}

#[test]
fn moving_left_to_the_first_cell_is_fine() {
    let mut m = machine_for(&"<".repeat(512));
    assert_eq!(run(&mut m, &[], 10_000), (vec![], End::Halted));
    assert_eq!(m.pointer(), 0);
}

#[test]
fn moving_right_off_the_tape_fails() {
    let mut m = machine_for(&">".repeat(512));
    assert_eq!(
        run(&mut m, &[], 10_000),
        (vec![], End::Failed(RunError::OutOfBounds(1023)))
    );
}

#[test]
fn read_at_end_of_input_stops() {
    let mut m = machine_for(",.,.");
    assert_eq!(run(&mut m, &[7], 100), (vec![7], End::OutOfInput));
}

#[test]
fn nested_loops_multiply() {
    // 3 * 4 into the next cell, then print it.
    let mut m = machine_for("+++[>++++<-]>.");
    assert_eq!(run(&mut m, &[], 10_000), (vec![12], End::Halted));
}

#[test]
fn hello_letter() {
    // 8 * 8 + 1 = 65
    let mut m = machine_for("++++++++[>++++++++<-]>+.");
    assert_eq!(run(&mut m, &[], 10_000), (vec![b'A'], End::Halted));
}

#[test]
fn cells_are_independent() {
    let mut m = machine_for("+>++>+++<<.>.>.");
    assert_eq!(run(&mut m, &[], 1000), (vec![1, 2, 3], End::Halted));
}
