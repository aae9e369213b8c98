use noumisou::{parse, run, Action, Error, Event, Interpreter, Outcome};

const LIMIT: usize = 1_000_000;

fn outcome(program: &str, input: &[u8]) -> (bool, Vec<u8>) {
    let commands = parse(program).unwrap();
    let mut interpreter = Interpreter::new(&commands);
    let mut output = Vec::new();
    let halted = interpreter.run(input, &mut output, LIMIT).halted;
    (halted, output)
}

fn outcome_on_tape(program: &str, capacity: usize, input: &[u8]) -> (bool, Vec<u8>) {
    let commands = parse(program).unwrap();
    let mut interpreter = Interpreter::with_size(&commands, capacity);
    let mut output = Vec::new();
    let halted = interpreter.run(input, &mut output, LIMIT).halted;
    (halted, output)
}

#[test]
fn increment_wraps_from_255_to_0() {
    let program = format!("{}.+.", "+".repeat(255));
    assert_eq!(outcome(&program, &[]), (true, vec![255, 0]));
}

#[test]
fn decrement_wraps_from_0_to_255() {
    assert_eq!(outcome(".-.", &[]), (true, vec![0, 255]));
}

#[test]
fn moving_left_as_often_as_there_are_cells_comes_back() {
    assert_eq!(outcome_on_tape("+<<<<<.", 5, &[]), (true, vec![1]));
    assert_eq!(outcome_on_tape("+<.", 1, &[]), (true, vec![1]));
}

#[test]
fn moving_left_from_the_first_cell_reaches_the_last() {
    assert_eq!(outcome_on_tape("<+><.", 4, &[]), (true, vec![1]));
    assert_eq!(outcome_on_tape("<+>.", 4, &[]), (true, vec![0]));
}

#[test]
fn moving_right_from_the_last_cell_reaches_the_first() {
    assert_eq!(outcome_on_tape("+>>>.", 3, &[]), (true, vec![1]));
    assert_eq!(outcome_on_tape("+>>.", 3, &[]), (true, vec![0]));
}

#[test]
fn the_default_tape_has_thirty_thousand_cells() {
    let program = format!("+{}.", ">".repeat(30_000));
    assert_eq!(outcome(&program, &[]), (true, vec![1]));
    let program = format!("+{}.", ">".repeat(29_999));
    assert_eq!(outcome(&program, &[]), (true, vec![0]));
}

#[test]
fn the_clear_loop_zeroes_a_nonzero_cell_and_halts() {
    assert_eq!(outcome("+++[-].", &[]), (true, vec![0]));
    assert_eq!(outcome("-[-].", &[]), (true, vec![0]));
}

#[test]
fn the_clear_loop_takes_two_steps_for_each_unit() {
    let commands = parse("+++[-]").unwrap();
    let mut output = Vec::new();
    let mut interpreter = Interpreter::new(&commands);
    assert!(!interpreter.run(&[], &mut output, 3 + 2 * 3 + 1).halted);
    let mut interpreter = Interpreter::new(&commands);
    assert!(interpreter.run(&[], &mut output, 3 + 2 * 3 + 2).halted);
    assert!(output.is_empty());
}

#[test]
fn an_empty_loop_on_a_zero_cell_does_nothing() {
    let commands = parse("[]").unwrap();
    let mut interpreter = Interpreter::new(&commands);
    let mut output = Vec::new();
    assert!(!interpreter.run(&[], &mut output, 1).halted);
    let mut interpreter = Interpreter::new(&commands);
    assert!(interpreter.run(&[], &mut output, 2).halted);
    assert!(output.is_empty());
    assert_eq!(outcome("[].", &[]), (true, vec![0]));
}

#[test]
fn adds_two_cells_and_prints_seven() {
    assert_eq!(outcome("++>+++++[<+>-]<.", &[]), (true, vec![7]));
}

#[test]
fn reading_at_the_end_of_the_input_succeeds() {
    assert_eq!(outcome(",", &[]), (true, vec![]));
    assert_eq!(outcome(",.", &[]), (true, vec![0]));
}

#[test]
fn reading_at_the_end_of_the_input_keeps_the_cell() {
    assert_eq!(outcome("+++,.", &[]), (true, vec![3]));
    assert_eq!(outcome(",.,.,.", b"ab"), (true, vec![b'a', b'b', b'b']));
}

#[test]
fn reads_one_byte_for_each_input_command() {
    assert_eq!(outcome(",>,>,<<.>.>.", &[1, 2, 3, 4]), (true, vec![1, 2, 3]));
    assert_eq!(outcome(",+.", &[255]), (true, vec![0]));
}

#[test]
fn echoes_until_a_zero_byte() {
    assert_eq!(outcome(",[.,]", b"hello\0more"), (true, b"hello".to_vec()));
}

#[test]
fn a_loop_is_skipped_on_a_zero_cell() {
    assert_eq!(outcome("[+.]", &[]), (true, vec![]));
    assert_eq!(outcome("[[[+.]]]+.", &[]), (true, vec![1]));
}

#[test]
fn nested_loops_multiply() {
    assert_eq!(outcome("+++[>++++[>++<-]<-]>>.", &[]), (true, vec![24]));
}

#[test]
fn prints_hello_world() {
    let program = "++++++++[>++++[>++>+++>+++>+<<<<-]>+>+>->>+[<]<-]>>.>---.+++++++..+++.\
                   >>.<-.<.+++.------.--------.>>+.>++.";
    assert_eq!(outcome(program, &[]), (true, b"Hello World!\n".to_vec()));
}

#[test]
fn an_endless_loop_stops_at_the_limit() {
    let commands = parse("+[]").unwrap();
    let mut interpreter = Interpreter::new(&commands);
    let mut output = Vec::new();
    assert!(!interpreter.run(&[], &mut output, 10_000).halted);
    assert_eq!(interpreter.action(), Action::Proceed);
}

#[test]
fn the_limit_counts_steps() {
    let commands = parse("+.+.").unwrap();
    let mut output = Vec::new();
    let mut interpreter = Interpreter::new(&commands);
    assert!(!interpreter.run(&[], &mut output, 3).halted);
    assert_eq!(output, vec![1]);
    let mut output = Vec::new();
    let mut interpreter = Interpreter::new(&commands);
    assert!(!interpreter.run(&[], &mut output, 4).halted);
    assert_eq!(output, vec![1, 2]);
    let mut output = Vec::new();
    let mut interpreter = Interpreter::new(&commands);
    assert!(interpreter.run(&[], &mut output, 5).halted);
    assert_eq!(output, vec![1, 2]);
}

#[test]
fn output_is_appended_to_what_is_there() {
    let commands = parse("+.").unwrap();
    let mut interpreter = Interpreter::new(&commands);
    let mut output = vec![9, 8];
    assert!(interpreter.run(&[], &mut output, LIMIT).halted);
    assert_eq!(output, vec![9, 8, 1]);
}

#[test]
fn a_new_interpreter_has_nothing_to_do_until_started() {
    let commands = parse("+").unwrap();
    let mut interpreter = Interpreter::new(&commands);
    assert_eq!(interpreter.action(), Action::Halt);
    assert_eq!(interpreter.step(Event::Idle), Ok(()));
    assert_eq!(interpreter.action(), Action::Halt);
    interpreter.start();
    assert_eq!(interpreter.action(), Action::Proceed);
}

#[test]
fn the_action_tells_what_the_next_step_needs() {
    let commands = parse("+.,[-]").unwrap();
    let mut interpreter = Interpreter::with_size(&commands, 2);
    interpreter.start();
    assert_eq!(interpreter.action(), Action::Proceed);
    assert_eq!(interpreter.step(Event::Idle), Ok(()));
    assert_eq!(interpreter.action(), Action::Write(1));
    assert_eq!(interpreter.step(Event::Written), Ok(()));
    assert_eq!(interpreter.action(), Action::Read);
    assert_eq!(interpreter.step(Event::Byte(2)), Ok(()));
    assert_eq!(interpreter.action(), Action::Proceed);
    let mut steps = 0;
    while interpreter.action() != Action::Halt {
        assert_eq!(interpreter.step(Event::Idle), Ok(()));
        steps += 1;
    }
    assert_eq!(steps, 2 * 2 + 2);
}

#[test]
fn a_failed_read_is_an_input_failure() {
    let commands = parse(",").unwrap();
    let mut interpreter = Interpreter::new(&commands);
    interpreter.start();
    assert_eq!(interpreter.action(), Action::Read);
    assert_eq!(interpreter.step(Event::InputFailed), Err(Error::InputFailure));
}

#[test]
fn a_failed_write_is_an_output_failure() {
    let commands = parse(".").unwrap();
    let mut interpreter = Interpreter::new(&commands);
    interpreter.start();
    assert_eq!(interpreter.action(), Action::Write(0));
    assert_eq!(interpreter.step(Event::OutputFailed), Err(Error::OutputFailure));
}

#[test]
fn the_end_of_the_input_is_no_failure() {
    let commands = parse("+,.").unwrap();
    let mut interpreter = Interpreter::new(&commands);
    interpreter.start();
    assert_eq!(interpreter.step(Event::Idle), Ok(()));
    assert_eq!(interpreter.action(), Action::Read);
    assert_eq!(interpreter.step(Event::EndOfInput), Ok(()));
    assert_eq!(interpreter.action(), Action::Write(1));
}

#[test]
fn a_failure_report_that_the_step_does_not_use_is_ignored() {
    let commands = parse("+.").unwrap();
    let mut interpreter = Interpreter::new(&commands);
    interpreter.start();
    assert_eq!(interpreter.step(Event::InputFailed), Ok(()));
    assert_eq!(interpreter.action(), Action::Write(1));
    assert_eq!(interpreter.step(Event::InputFailed), Ok(()));
    assert_eq!(interpreter.action(), Action::Proceed);
    assert_eq!(interpreter.step(Event::OutputFailed), Ok(()));
    assert_eq!(interpreter.action(), Action::Halt);
}

#[test]
fn run_parses_and_executes() {
    let mut output = Vec::new();
    assert_eq!(
        run("++>+++++[<+>-]<.", &[], &mut output, LIMIT),
        Ok(Outcome { halted: true, consumed: 0 })
    );
    assert_eq!(output, vec![7]);
}

#[test]
fn run_reports_the_parse_error_and_writes_nothing() {
    let mut output = vec![5];
    assert_eq!(run("+.]", &[], &mut output, LIMIT), Err(Error::UnexpectedClosingBracket));
    assert_eq!(output, vec![5]);
    assert_eq!(run("+.[", &[], &mut output, LIMIT), Err(Error::MissingClosingBracket));
    assert_eq!(output, vec![5]);
}

#[test]
fn run_tells_when_the_limit_came_first() {
    let mut output = Vec::new();
    assert_eq!(run("+[.]", &[], &mut output, 7), Ok(Outcome { halted: false, consumed: 0 }));
    assert_eq!(output, vec![1, 1, 1]);
}

#[test]
fn a_second_run_starts_on_a_tape_as_new() {
    let commands = parse("+.").unwrap();
    let mut interpreter = Interpreter::new(&commands);
    let mut first = Vec::new();
    assert!(interpreter.run(&[], &mut first, LIMIT).halted);
    assert_eq!(first, vec![1]);
    let mut second = Vec::new();
    assert!(interpreter.run(&[], &mut second, LIMIT).halted);
    assert_eq!(second, vec![1]);
}

#[test]
fn a_second_run_starts_with_the_pointer_on_the_first_cell() {
    let commands = parse(">+<.").unwrap();
    let mut interpreter = Interpreter::with_size(&commands, 3);
    let mut first = Vec::new();
    assert!(interpreter.run(&[], &mut first, LIMIT).halted);
    let mut second = Vec::new();
    assert!(interpreter.run(&[], &mut second, LIMIT).halted);
    assert_eq!(first, vec![0]);
    assert_eq!(second, vec![0]);
    let commands = parse(">+.").unwrap();
    let mut interpreter = Interpreter::with_size(&commands, 3);
    let mut out = Vec::new();
    interpreter.run(&[], &mut out, LIMIT);
    interpreter.run(&[], &mut out, LIMIT);
    assert_eq!(out, vec![1, 1]);
}

#[test]
fn a_run_after_one_that_the_limit_cut_short_starts_anew() {
    let commands = parse("+[.]").unwrap();
    let mut interpreter = Interpreter::new(&commands);
    let mut first = Vec::new();
    assert!(!interpreter.run(&[], &mut first, 7).halted);
    assert_eq!(first, vec![1, 1, 1]);
    let mut second = Vec::new();
    assert!(!interpreter.run(&[], &mut second, 3).halted);
    assert_eq!(second, vec![1]);
    let commands = parse("+").unwrap();
    let mut interpreter = Interpreter::new(&commands);
    let mut out = Vec::new();
    assert!(!interpreter.run(&[], &mut out, 1).halted);
    assert!(interpreter.run(&[], &mut out, 2).halted);
    assert_eq!(interpreter.action(), Action::Halt);
}

#[test]
fn start_clears_what_an_earlier_run_left() {
    let commands = parse("+.").unwrap();
    let mut interpreter = Interpreter::new(&commands);
    interpreter.start();
    assert_eq!(interpreter.step(Event::Idle), Ok(()));
    assert_eq!(interpreter.action(), Action::Write(1));
    interpreter.start();
    assert_eq!(interpreter.action(), Action::Proceed);
    assert_eq!(interpreter.step(Event::Idle), Ok(()));
    assert_eq!(interpreter.action(), Action::Write(1));
    assert_eq!(interpreter.step(Event::Written), Ok(()));
    assert_eq!(interpreter.action(), Action::Proceed);
    assert_eq!(interpreter.step(Event::Idle), Ok(()));
    assert_eq!(interpreter.action(), Action::Halt);
}

#[test]
fn a_run_tells_how_many_bytes_it_has_read() {
    let commands = parse(",>,>,").unwrap();
    let mut output = Vec::new();
    let mut interpreter = Interpreter::new(&commands);
    assert_eq!(
        interpreter.run(&[1, 2, 3, 4, 5], &mut output, LIMIT),
        Outcome { halted: true, consumed: 3 }
    );
    assert_eq!(
        interpreter.run(&[1, 2], &mut output, LIMIT),
        Outcome { halted: true, consumed: 2 }
    );
    assert_eq!(interpreter.run(&[], &mut output, LIMIT), Outcome { halted: true, consumed: 0 });
    assert_eq!(
        interpreter.run(&[1, 2, 3], &mut output, 3),
        Outcome { halted: false, consumed: 2 }
    );
    let commands = parse("+.").unwrap();
    let mut interpreter = Interpreter::new(&commands);
    assert_eq!(
        interpreter.run(&[9, 9], &mut output, LIMIT),
        Outcome { halted: true, consumed: 0 }
    );
}

#[test]
fn run_tells_how_many_bytes_it_has_read() {
    let mut output = Vec::new();
    assert_eq!(
        run(",.,.", b"abc", &mut output, LIMIT),
        Ok(Outcome { halted: true, consumed: 2 })
    );
    assert_eq!(output, b"ab".to_vec());
}
