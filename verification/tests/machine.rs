use brainfuck::{eval, interpret, match_brackets, submit, Error, Machine, Program, Status, Submission};

/// Runs a fresh machine on `code` until it halts, faults, or needs a key
/// that `keys` no longer holds.
fn run(code: &str, debug: bool, mem_size: usize, offset: usize, keys: &[u8]) -> (Machine, Status) {
    let (program, mut machine) = interpret(code, debug, mem_size, offset).unwrap();
    let mut next = 0;
    loop {
        match eval(&program, &mut machine, 1000) {
            Status::Paused => {}
            Status::NeedKey if next < keys.len() => {
                machine.give_key(keys[next]);
                next += 1;
            }
            status => return (machine, status),
        }
    }
}

#[test]
fn three_increments_output_three() {
    let (machine, status) = run("+++.", false, 30000, 0, &[]);
    assert_eq!(status, Status::Halted);
    assert_eq!(machine.output, "\u{3}");
    assert_eq!(machine.mem, vec![3]);
}

#[test]
fn six_times_ten_outputs_sixty() {
    let (machine, status) = run("++++++[>++++++++++<-]>.", false, 30000, 0, &[]);
    assert_eq!(status, Status::Halted);
    assert_eq!(machine.output, "<");
    assert_eq!(machine.output.chars().next().unwrap() as u32, 60);
    assert_eq!(machine.mem, vec![0, 60]);
    assert_eq!(machine.cellptr, 1);
}

#[test]
fn left_at_offset_zero_is_out_of_bounds() {
    let (machine, status) = run("<", false, 30000, 0, &[]);
    assert_eq!(status, Status::Fault(Error::OutOfBounds));
    assert_eq!(machine.cellptr, 0);
    assert_eq!(machine.output, "");
}

#[test]
fn fault_stops_before_further_output() {
    let (machine, status) = run("+.<.", false, 30000, 0, &[]);
    assert_eq!(status, Status::Fault(Error::OutOfBounds));
    assert_eq!(machine.output, "\u{1}");
    assert_eq!(machine.codeptr, 2);
}

#[test]
fn right_past_the_maximum_index_is_out_of_bounds() {
    let (machine, status) = run(">>.>.", false, 2, 0, &[]);
    assert_eq!(status, Status::Fault(Error::OutOfBounds));
    assert_eq!(machine.cellptr, 2);
    assert_eq!(machine.mem, vec![0, 0, 0]);
    assert_eq!(machine.output, "\u{0}");
}

#[test]
fn right_at_the_maximum_offset_is_out_of_bounds() {
    let (machine, status) = run(">", false, 5, 5, &[]);
    assert_eq!(status, Status::Fault(Error::OutOfBounds));
    assert_eq!(machine.cellptr, 5);
    assert_eq!(machine.mem.len(), 6);
}

#[test]
fn two_hundred_fifty_six_increments_wrap_to_zero() {
    let code = "+".repeat(256);
    let (machine, status) = run(&code, false, 30000, 0, &[]);
    assert_eq!(status, Status::Halted);
    assert_eq!(machine.mem, vec![0]);
}

#[test]
fn two_hundred_fifty_five_increments_do_not_wrap() {
    let code = "+".repeat(255);
    let (machine, _) = run(&code, false, 30000, 0, &[]);
    assert_eq!(machine.mem, vec![255]);
}

#[test]
fn decrement_of_zero_wraps_to_255() {
    let (machine, status) = run("-", false, 30000, 0, &[]);
    assert_eq!(status, Status::Halted);
    assert_eq!(machine.mem, vec![255]);
}

#[test]
fn fresh_tape_has_offset_plus_one_cells() {
    let (_, machine) = interpret("", false, 30000, 4).unwrap();
    assert_eq!(machine.mem, vec![0, 0, 0, 0, 0]);
    assert_eq!(machine.cellptr, 4);
    assert_eq!(machine.codeptr, 0);
    assert!(machine.is_wf());
}

#[test]
fn tape_grows_by_one_cell_past_its_end() {
    let (machine, _) = run(">>+<", false, 30000, 0, &[]);
    assert_eq!(machine.mem, vec![0, 0, 1]);
    assert_eq!(machine.cellptr, 1);
}

#[test]
fn move_inside_the_tape_does_not_grow_it() {
    let (machine, _) = run("<<>", false, 30000, 3, &[]);
    assert_eq!(machine.mem.len(), 4);
    assert_eq!(machine.cellptr, 2);
}

#[test]
fn input_waits_for_a_key() {
    let (program, mut machine) = interpret("+,.", false, 30000, 0).unwrap();
    assert_eq!(eval(&program, &mut machine, 100), Status::NeedKey);
    assert_eq!(machine.codeptr, 1);
    assert_eq!(machine.mem, vec![1]);
    machine.give_key(65);
    assert_eq!(eval(&program, &mut machine, 100), Status::Halted);
    assert_eq!(machine.output, "A");
    assert_eq!(machine.key, None);
}

#[test]
fn keys_are_read_one_per_input() {
    let (machine, status) = run(",.,.", false, 30000, 0, &[104, 105]);
    assert_eq!(status, Status::Halted);
    assert_eq!(machine.output, "hi");
}

#[test]
fn budget_pauses_an_endless_loop() {
    let (program, mut machine) = interpret("+[]", false, 30000, 0).unwrap();
    assert_eq!(eval(&program, &mut machine, 50), Status::Paused);
    assert_eq!(machine.mem, vec![1]);
    assert_eq!(eval(&program, &mut machine, 0), Status::Paused);
}

#[test]
fn budget_counts_instructions() {
    let (program, mut machine) = interpret("++++", false, 30000, 0).unwrap();
    assert_eq!(eval(&program, &mut machine, 3), Status::Paused);
    assert_eq!(machine.mem, vec![3]);
    assert_eq!(machine.codeptr, 3);
    assert_eq!(eval(&program, &mut machine, 1), Status::Halted);
    assert_eq!(machine.mem, vec![4]);
}

#[test]
fn loop_is_skipped_on_a_zero_cell() {
    let (machine, status) = run("[.]+.", false, 30000, 0, &[]);
    assert_eq!(status, Status::Halted);
    assert_eq!(machine.output, "\u{1}");
}

#[test]
fn clear_loop_on_a_zero_cell_does_nothing() {
    let (program, mut machine) = interpret("[-]", false, 30000, 0).unwrap();
    assert_eq!(eval(&program, &mut machine, 1), Status::Halted);
    assert_eq!(machine.mem, vec![0]);
    assert_eq!(machine.codeptr, 3);
}

#[test]
fn nested_loops_jump_to_their_own_partner() {
    let (machine, status) = run("++[>++[>+<-]<-]>>.", false, 30000, 0, &[]);
    assert_eq!(status, Status::Halted);
    assert_eq!(machine.output, "\u{4}");
}

#[test]
fn unknown_character_faults_when_reached() {
    let (machine, status) = run("+.x.", false, 30000, 0, &[]);
    assert_eq!(status, Status::Fault(Error::InvalidCharacter('x')));
    assert_eq!(machine.output, "\u{1}");
    assert_eq!(machine.codeptr, 2);
}

#[test]
fn debug_symbols_do_nothing_without_debug_mode() {
    let (machine, status) = run("+#@.", false, 30000, 0, &[]);
    assert_eq!(status, Status::Halted);
    assert_eq!(machine.output, "\u{1}");
    assert_eq!(machine.debug_count, 0);
}

#[test]
fn cell_dump_prints_counter_cell_and_cursor() {
    let code = "+".repeat(65) + "#>#";
    let (machine, status) = run(&code, true, 30000, 0, &[]);
    assert_eq!(status, Status::Halted);
    assert_eq!(machine.output, "\ndebug flag 1 : A 65 0\n\ndebug flag 2 : \u{0} 0 1\n");
    assert_eq!(machine.debug_count, 2);
}

#[test]
fn window_dump_is_clamped_to_the_tape() {
    let (machine, _) = run("+@", true, 30000, 0, &[]);
    assert_eq!(machine.output, "\nwindow 0 : 1\n");
    let (machine, _) = run("@", true, 30000, 7, &[]);
    assert_eq!(machine.output, "\nwindow 2 : 0 0 0 0 0 0\n");
    let (machine, _) = run(">>>>>>>>>>>>+<<<<<<+@", true, 30000, 0, &[]);
    assert_eq!(machine.output, "\nwindow 1 : 0 0 0 0 0 1 0 0 0 0 0\n");
}

#[test]
fn unbalanced_stream_is_refused_before_execution() {
    assert_eq!(interpret("[[]", false, 30000, 0).err(), Some(Error::UnbalancedBrackets));
    assert_eq!(interpret("][", false, 30000, 0).err(), Some(Error::UnbalancedBrackets));
    assert_eq!(interpret("+]", false, 30000, 0).err(), Some(Error::UnbalancedBrackets));
    assert!(Program::new("[[]").is_err());
}

#[test]
fn machine_needs_its_offset_on_the_tape() {
    assert_eq!(Machine::new(false, 3, 4).err(), Some(Error::OffsetTooLarge));
    let machine = Machine::new(true, 3, 3).unwrap();
    assert_eq!(machine.mem, vec![0, 0, 0, 0]);
    assert_eq!(machine.cellptr, 3);
    assert_eq!(machine.mem_size, 3);
    assert!(machine.debug);
    assert_eq!(machine.key, None);
    assert_eq!(machine.output, "");
}

#[test]
fn offset_beyond_the_tape_is_refused() {
    assert_eq!(interpret("+", false, 3, 4).err(), Some(Error::OffsetTooLarge));
    assert_eq!(interpret("[", false, 3, 4).err(), Some(Error::OffsetTooLarge));
    assert!(interpret("+", false, 3, 3).is_ok());
}

#[test]
fn jump_table_is_symmetric() {
    let code: Vec<char> = "+[[-]>[]]".chars().collect();
    let table = match_brackets(&code).unwrap();
    assert_eq!(table.targets, vec![0, 8, 4, 3, 2, 5, 7, 6, 1]);
    assert_eq!(table.target(1), 8);
    assert_eq!(table.target(8), 1);
}

#[test]
fn jump_table_needs_well_nested_brackets() {
    let close_first: Vec<char> = "][".chars().collect();
    assert!(match_brackets(&close_first).is_none());
    let open_left: Vec<char> = "[[]".chars().collect();
    assert!(match_brackets(&open_left).is_none());
    let none: Vec<char> = Vec::new();
    assert_eq!(match_brackets(&none).unwrap().targets, Vec::<usize>::new());
}

#[test]
fn program_length_counts_characters() {
    assert_eq!(Program::new("+[-]").unwrap().len(), 4);
    assert_eq!(Program::new("").unwrap().len(), 0);
}

#[test]
fn program_keeps_its_symbols() {
    let program = Program::new("+[-]").unwrap();
    assert_eq!(program.symbols(), &vec!['+', '[', '-', ']']);
}

#[test]
fn take_output_empties_the_buffer() {
    let (mut machine, _) = run("+.+.", false, 30000, 0, &[]);
    assert_eq!(machine.take_output(), "\u{1}\u{2}");
    assert_eq!(machine.output, "");
    assert_eq!(machine.take_output(), "");
}

#[test]
fn session_keeps_tape_and_cursor_between_lines() {
    let mut machine = Machine::new(false, 30000, 0).unwrap();
    let first = match submit(&mut machine, "+++>", false) {
        Submission::Run(program) => program,
        _ => panic!("the line is a stream"),
    };
    assert_eq!(eval(&first, &mut machine, 100), Status::Halted);
    let second = match submit(&mut machine, "<.", false) {
        Submission::Run(program) => program,
        _ => panic!("the line is a stream"),
    };
    assert_eq!(machine.codeptr, 0);
    assert_eq!(eval(&second, &mut machine, 100), Status::Halted);
    assert_eq!(machine.output, "\u{3}");
    assert_eq!(machine.mem, vec![3, 0]);
}

#[test]
fn session_survives_a_failed_line() {
    let mut machine = Machine::new(false, 30000, 0).unwrap();
    let bad = match submit(&mut machine, "++<+", false) {
        Submission::Run(program) => program,
        _ => panic!("the line is a stream"),
    };
    assert_eq!(eval(&bad, &mut machine, 100), Status::Fault(Error::OutOfBounds));
    assert_eq!(machine.mem, vec![2]);
    let next = match submit(&mut machine, "+.", false) {
        Submission::Run(program) => program,
        _ => panic!("the line is a stream"),
    };
    assert_eq!(eval(&next, &mut machine, 100), Status::Halted);
    assert_eq!(machine.output, "\u{3}");
}

#[test]
fn rewind_keeps_tape_and_cursor() {
    let (mut machine, _) = run("+>++#", true, 30000, 0, &[]);
    assert_eq!(machine.codeptr, 5);
    assert_eq!(machine.debug_count, 1);
    machine.rewind();
    assert_eq!(machine.codeptr, 0);
    assert_eq!(machine.debug_count, 0);
    assert_eq!(machine.mem, vec![1, 2]);
    assert_eq!(machine.cellptr, 1);
    assert_eq!(machine.output, "\ndebug flag 1 : \u{2} 2 1\n");
}

#[test]
fn quit_ends_the_session() {
    let mut machine = Machine::new(false, 30000, 0).unwrap();
    assert!(matches!(submit(&mut machine, "quit", false), Submission::Quit));
    assert!(matches!(submit(&mut machine, "quit", true), Submission::Quit));
    assert!(matches!(submit(&mut machine, "quit ", false), Submission::Run(_)));
}

#[test]
fn session_refuses_unbalanced_lines() {
    let mut machine = Machine::new(false, 30000, 0).unwrap();
    assert!(matches!(
        submit(&mut machine, "+]", false),
        Submission::Refused(Error::UnbalancedBrackets)
    ));
    assert!(matches!(
        submit(&mut machine, "][", false),
        Submission::Refused(Error::UnbalancedBrackets)
    ));
}

#[test]
fn session_filters_lines_unless_verbose() {
    let mut machine = Machine::new(false, 30000, 0).unwrap();
    let filtered = match submit(&mut machine, "a+b.", false) {
        Submission::Run(program) => program,
        _ => panic!("the line is a stream"),
    };
    assert_eq!(filtered.len(), 2);
    assert_eq!(eval(&filtered, &mut machine, 100), Status::Halted);
    let raw = match submit(&mut machine, "a+b.", true) {
        Submission::Run(program) => program,
        _ => panic!("the line is a stream"),
    };
    assert_eq!(raw.len(), 4);
    assert_eq!(eval(&raw, &mut machine, 100), Status::Fault(Error::InvalidCharacter('a')));
}

#[test]
fn error_messages() {
    assert_eq!(Error::UnbalancedBrackets.message(), "Unbalanced Brackets");
    assert_eq!(Error::OutOfBounds.message(), "Memory index out of bound");
    assert_eq!(Error::InvalidCharacter('x').message(), "Invalid character x");
    assert_eq!(
        Error::OffsetTooLarge.message(),
        "pointer offset cannot be greater than memory size"
    );
}
