use brainfuck::{eval_with_keys, expand, interpret, optimize, Error, Status};

/// What a stream does with the given keystrokes: how it ends, what it has
/// written, its cells without the zeros at the end, and its cursor.
fn behaviour(code: &str, mem_size: usize, offset: usize, keys: &[u8]) -> (Status, String, Vec<u8>, usize) {
    let (program, mut machine) = interpret(code, false, mem_size, offset).unwrap();
    let (status, _) = eval_with_keys(&program, &mut machine, keys, 1_000_000);
    let mut cells = machine.mem.clone();
    while cells.last() == Some(&0) {
        cells.pop();
    }
    (status, machine.output.clone(), cells, machine.cellptr)
}

fn optimized(code: &str) -> String {
    expand(&optimize(code).unwrap())
}

#[test]
fn keys_are_handed_over_as_inputs_ask() {
    let (program, mut machine) = interpret(",.,.", false, 30000, 0).unwrap();
    assert_eq!(eval_with_keys(&program, &mut machine, &[104, 105, 106], 100), (Status::Halted, 2));
    assert_eq!(machine.output, "hi");
    let (program, mut machine) = interpret(",.,.", false, 30000, 0).unwrap();
    assert_eq!(eval_with_keys(&program, &mut machine, &[104], 100), (Status::NeedKey, 1));
    assert_eq!(machine.output, "h");
    assert_eq!(machine.codeptr, 2);
    assert_eq!(eval_with_keys(&program, &mut machine, &[105], 100), (Status::Halted, 1));
    assert_eq!(machine.output, "hi");
}

#[test]
fn keys_are_not_taken_without_budget() {
    let (program, mut machine) = interpret("+,", false, 30000, 0).unwrap();
    assert_eq!(eval_with_keys(&program, &mut machine, &[7], 1), (Status::Paused, 0));
    assert_eq!(machine.mem, vec![1]);
    assert_eq!(eval_with_keys(&program, &mut machine, &[7], 0), (Status::Paused, 0));
    assert_eq!(machine.key, None);
    assert_eq!(eval_with_keys(&program, &mut machine, &[7], 1), (Status::Halted, 1));
    assert_eq!(machine.mem, vec![7]);
    assert_eq!(eval_with_keys(&program, &mut machine, &[8], 1), (Status::Halted, 0));
}

#[test]
fn keys_do_not_help_a_fault() {
    let (program, mut machine) = interpret(",<", false, 30000, 0).unwrap();
    assert_eq!(
        eval_with_keys(&program, &mut machine, &[1, 2], 100),
        (Status::Fault(Error::OutOfBounds), 1)
    );
}

#[test]
fn optimized_stream_writes_the_same_output() {
    let streams = [
        "+++.",
        "++++++[>++++++++++<-]>.",
        "++[>++[>+<-]<-]>>.",
        "+>-<><+>-.<.",
        "+++[-].+.",
        "+++[+].-.",
        ",.,+.[-]+.",
        ",[.,]",
        "+[-],.",
        "--[+-+]++.>[-]<.",
        "><+><-..",
        ",>,<[->+<]>.",
        ">>+<<+[>]<.",
        "+[[-]].",
        ",[>+>+<<-]>>[<<+>>-]<.<.",
    ];
    for code in streams {
        for keys in [&[][..], &[5][..], &[3, 4][..], &[0, 1, 2, 3][..]] {
            assert!(!matches!(behaviour(code, 30000, 0, keys).0, Status::Fault(_)));
            assert_eq!(
                behaviour(&optimized(code), 30000, 0, keys),
                behaviour(code, 30000, 0, keys),
                "stream {} with keys {:?}",
                code,
                keys
            );
        }
    }
}

#[test]
fn optimized_stream_starts_anywhere_on_the_tape() {
    for code in ["<<+>.>-.", "[-]<,>.", "+<[+]>."] {
        assert_eq!(behaviour(&optimized(code), 10, 4, &[9]), behaviour(code, 10, 4, &[9]));
    }
}

#[test]
fn straight_stream_never_faults() {
    for code in ["", "+-+.", ",.,.", "#@+.", "-.-.-."] {
        for keys in [&[][..], &[65][..], &[65, 66, 67][..]] {
            let (status, output, cells, cursor) = behaviour(code, 0, 0, keys);
            assert!(status == Status::Halted || status == Status::NeedKey);
            assert_eq!(behaviour(&optimized(code), 0, 0, keys), (status, output, cells, cursor));
        }
    }
}

#[test]
fn optimized_stream_need_not_fault_where_the_stream_does() {
    assert_eq!(behaviour("<>+.", 30000, 0, &[]).0, Status::Fault(Error::OutOfBounds));
    assert_eq!(
        behaviour(&optimized("<>+."), 30000, 0, &[]),
        (Status::Halted, "\u{1}".to_string(), vec![1], 0)
    );
}

#[test]
fn endless_streams_write_the_same_output() {
    for code in ["+[.]", "+[>+<.><+-]", ",[.[-]+]", "+[[-]+.>+<]", "+[>.+<]"] {
        let (program, mut machine) = interpret(code, false, 30000, 0).unwrap();
        assert_eq!(eval_with_keys(&program, &mut machine, &[7], 5000).0, Status::Paused);
        let (program, mut quick) = interpret(&optimized(code), false, 30000, 0).unwrap();
        assert_eq!(eval_with_keys(&program, &mut quick, &[7], 5000).0, Status::Paused);
        let slow = machine.output.as_str();
        let fast = quick.output.as_str();
        assert!(slow.len() > 100);
        assert!(fast.starts_with(slow), "stream {}", code);
    }
}
