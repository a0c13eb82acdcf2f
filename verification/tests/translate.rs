use brainfuck::args::Args;
use brainfuck::optimizer::{coalesce, lex, normalize};
use brainfuck::{compile, expand, generate, get_code, optimize, translate, Error, Sym, Token};

const HEAD: &str = "#include <stdio.h>\n#include <termios.h>\n\nint getch() {\n    struct termios old, new;\n    int ch;\n    tcgetattr(0, &old);\n    new = old;\n    new.c_lflag &= ~ICANON;\n    new.c_lflag &= ~ECHO;\n    tcsetattr(0, TCSANOW, &new);\n    ch = getchar();\n    tcsetattr(0, TCSANOW, &old);\n    return ch;\n}\n\nint main() {\n    char mem[";

fn program(mem: &str, offset: &str, body: &str) -> String {
    format!("{}{}] = {{0}};\n    char* ptr = mem + {};\n\n{}\treturn 0;\n}}\n", HEAD, mem, offset, body)
}

#[test]
fn clear_loop_becomes_one_assignment() {
    assert_eq!(optimize("[-]"), Ok(vec![Token::Assign(0)]));
    assert_eq!(optimize("[+]"), Ok(vec![Token::Assign(0)]));
    let text = translate("[-]", false, 30000, 0).unwrap();
    assert_eq!(text, program("30000", "0", "\t*ptr = 0;\n"));
    assert!(!text.contains("while"));
}

#[test]
fn adjacent_inverse_operations_cancel() {
    assert_eq!(optimize("+-"), Ok(vec![]));
    assert_eq!(optimize("-+"), Ok(vec![]));
    assert_eq!(optimize("><"), Ok(vec![]));
    assert_eq!(optimize("<>"), Ok(vec![]));
    assert_eq!(optimize("+><-"), Ok(vec![]));
    assert_eq!(optimize("+>-<><+-<>"), Ok(vec![Token::Add(1), Token::Move(1), Token::Add(-1), Token::Move(-1)]));
    assert_eq!(optimize(""), Ok(vec![]));
}

#[test]
fn cancelling_uncovers_a_clear_loop() {
    assert_eq!(optimize("[+-+]"), Ok(vec![Token::Assign(0)]));
    assert_eq!(optimize("[><-]"), Ok(vec![Token::Assign(0)]));
    assert_eq!(
        optimize("[[-]]"),
        Ok(vec![Token::LoopOpen, Token::Assign(0), Token::LoopClose])
    );
}

#[test]
fn runs_of_moves_become_one_displacement() {
    assert_eq!(optimize(">>>"), Ok(vec![Token::Move(3)]));
    assert_eq!(optimize("<<"), Ok(vec![Token::Move(-2)]));
    assert_eq!(optimize(">>><"), Ok(vec![Token::Move(2)]));
    assert_eq!(optimize("<<<>"), Ok(vec![Token::Move(-2)]));
}

#[test]
fn runs_of_changes_become_one_delta() {
    assert_eq!(optimize("+++"), Ok(vec![Token::Add(3)]));
    assert_eq!(optimize("---"), Ok(vec![Token::Add(-3)]));
    assert_eq!(optimize("+++-"), Ok(vec![Token::Add(2)]));
    assert_eq!(optimize(&"+".repeat(256)), Ok(vec![Token::Add(256)]));
}

#[test]
fn clear_resets_the_running_delta() {
    assert_eq!(optimize("+++[-]"), Ok(vec![Token::Assign(0)]));
    assert_eq!(optimize("[-]+++"), Ok(vec![Token::Assign(3)]));
    assert_eq!(optimize("--[-]-"), Ok(vec![Token::Assign(255)]));
    assert_eq!(optimize("[-]++[+]+"), Ok(vec![Token::Assign(1)]));
    assert_eq!(optimize(&("[-]".to_string() + &"+".repeat(257))), Ok(vec![Token::Assign(1)]));
}

#[test]
fn reads_are_counted_and_the_last_delta_is_kept() {
    assert_eq!(optimize(","), Ok(vec![Token::Input(1)]));
    assert_eq!(optimize("++,"), Ok(vec![Token::Input(1)]));
    assert_eq!(optimize(",+,"), Ok(vec![Token::Input(2)]));
    assert_eq!(optimize(",+,--"), Ok(vec![Token::Input(2), Token::Add(-2)]));
    assert_eq!(optimize(",[-]+"), Ok(vec![Token::Input(1), Token::Assign(1)]));
    assert_eq!(optimize("[-]+,"), Ok(vec![Token::Input(1)]));
    assert_eq!(optimize(",,,"), Ok(vec![Token::Input(3)]));
}

#[test]
fn other_symbols_pass_through_one_by_one() {
    assert_eq!(
        optimize("..[]#@"),
        Ok(vec![
            Token::Output,
            Token::Output,
            Token::LoopOpen,
            Token::LoopClose,
            Token::CellDump,
            Token::WindowDump
        ])
    );
}

#[test]
fn runs_end_at_other_symbols() {
    assert_eq!(
        optimize("++++++[>++++++++++<-]>."),
        Ok(vec![
            Token::Add(6),
            Token::LoopOpen,
            Token::Move(1),
            Token::Add(10),
            Token::Move(-1),
            Token::Add(-1),
            Token::LoopClose,
            Token::Move(1),
            Token::Output
        ])
    );
    assert_eq!(optimize("+.+"), Ok(vec![Token::Add(1), Token::Output, Token::Add(1)]));
}

#[test]
fn optimizer_needs_no_balanced_brackets() {
    assert_eq!(optimize("[["), Ok(vec![Token::LoopOpen, Token::LoopOpen]));
    assert_eq!(optimize("-]"), Ok(vec![Token::Add(-1), Token::LoopClose]));
}

#[test]
fn optimizer_reports_the_first_unknown_character() {
    assert_eq!(optimize("+a-b"), Err(Error::InvalidCharacter('a')));
    assert_eq!(optimize(" "), Err(Error::InvalidCharacter(' ')));
    assert_eq!(translate("+\n", false, 1, 0), Err(Error::InvalidCharacter('\n')));
}

#[test]
fn tokens_expand_to_primitive_symbols() {
    assert_eq!(
        expand(&vec![
            Token::Move(2),
            Token::Move(-3),
            Token::Add(2),
            Token::Add(-1),
            Token::Assign(2),
            Token::Input(2),
            Token::Output,
            Token::LoopOpen,
            Token::LoopClose,
            Token::CellDump,
            Token::WindowDump
        ]),
        ">><<<++-[-]++,,.[]#@"
    );
    assert_eq!(expand(&vec![]), "");
}

#[test]
fn optimizer_is_idempotent_on_its_own_output() {
    for code in [
        "++++++[>++++++++++<-]>.",
        "+>-<<>+<-",
        ",+,--[-]+>>><[+-+].#@",
        "[-]-",
        "+[-],",
        "[[-]]><+",
        &"+".repeat(300),
    ] {
        let once = optimize(code).unwrap();
        let again = optimize(&expand(&once)).unwrap();
        assert_eq!(again, once);
    }
}

#[test]
fn translate_emits_one_statement_per_token() {
    let text = translate("++>--<<.,[#@]", false, 30000, 0).unwrap();
    assert_eq!(
        text,
        program(
            "30000",
            "0",
            "\t*ptr += 2;\n\tptr += 1;\n\t*ptr -= 2;\n\tptr -= 2;\n\tprintf(\"%c\", *ptr);\n\t*ptr = getch();\n\twhile (*ptr) {\n\t}\n"
        )
    );
}

#[test]
fn translate_declares_tape_and_pointer() {
    assert_eq!(translate("", false, 1024, 17).unwrap(), program("1024", "17", ""));
    assert_eq!(translate("", false, 0, 0).unwrap(), program("0", "0", ""));
    assert_eq!(
        translate("", false, usize::MAX, 9).unwrap(),
        program(&usize::MAX.to_string(), "9", "")
    );
}

#[test]
fn translate_emits_debug_code_in_debug_mode_only() {
    let text = translate("#", true, 30, 0).unwrap();
    assert_eq!(
        text,
        program(
            "30",
            "0",
            "\tunsigned int debug_count = 0;\n\tdebug_count += 1;printf(\"\\ndebug flag %d : %c, %d, %ld\\n\", debug_count, *ptr, *ptr, ptr-mem);\n"
        )
    );
    let text = translate("@", true, 30, 0).unwrap();
    assert_eq!(
        text,
        program(
            "30",
            "0",
            "\tunsigned int debug_count = 0;\n\t{ long at = ptr - mem; long lo = at > 5 ? at - 5 : 0; printf(\"\\nwindow %ld :\", lo); for (long i = lo; i <= at + 5 && i < 30; i++) printf(\" %d\", (unsigned char) mem[i]); printf(\"\\n\"); }\n"
        )
    );
    assert_eq!(translate("#@", false, 30, 0).unwrap(), program("30", "0", ""));
}

#[test]
fn generate_writes_each_kind_of_token() {
    let tokens = vec![
        Token::Move(12),
        Token::Move(-340),
        Token::Add(7),
        Token::Add(-100),
        Token::Assign(255),
        Token::Input(3),
        Token::Output,
    ];
    assert_eq!(
        generate(&tokens, false, 8, 2),
        program(
            "8",
            "2",
            "\tptr += 12;\n\tptr -= 340;\n\t*ptr += 7;\n\t*ptr -= 100;\n\t*ptr = 255;\n\t*ptr = getch();\n\t*ptr = getch();\n\t*ptr = getch();\n\tprintf(\"%c\", *ptr);\n"
        )
    );
}

#[test]
fn generate_writes_the_extreme_amounts() {
    assert_eq!(
        generate(&vec![Token::Move(i128::MIN), Token::Add(i128::MAX)], false, 1, 0),
        program(
            "1",
            "0",
            "\tptr -= 170141183460469231731687303715884105728;\n\t*ptr += 170141183460469231731687303715884105727;\n"
        )
    );
}

#[test]
fn compile_drops_debug_code_in_release_mode() {
    let mut args = Args::default();
    args.debug = true;
    args.mem_size = 64;
    args.offset = 3;
    assert_eq!(
        compile("+#", &args).unwrap(),
        translate("+#", true, 64, 3).unwrap()
    );
    args.release = true;
    assert_eq!(
        compile("+#", &args).unwrap(),
        program("64", "3", "\t*ptr += 1;\n")
    );
    assert_eq!(compile("?", &args), Err(Error::InvalidCharacter('?')));
}

#[test]
fn get_code_keeps_instructions_only() {
    assert_eq!(get_code("a+b-\n[c]. ,<>#@!", false), Ok("+-[].,<>#@".to_string()));
    assert_eq!(get_code("", false), Ok(String::new()));
    assert_eq!(get_code("no code", false), Ok(String::new()));
}

#[test]
fn get_code_keeps_everything_in_verbose_mode() {
    assert_eq!(get_code("a+b-\n[c].", true), Ok("a+b-\n[c].".to_string()));
}

#[test]
fn get_code_refuses_unbalanced_brackets() {
    assert_eq!(get_code("[[]", false), Err(Error::UnbalancedBrackets));
    assert_eq!(get_code("[]]", false), Err(Error::UnbalancedBrackets));
    assert_eq!(get_code("x[y", true), Err(Error::UnbalancedBrackets));
    assert_eq!(get_code("][", false), Ok("][".to_string()));
}

#[test]
fn phases_of_the_optimizer() {
    let code: Vec<char> = "+[+-+]><-,".chars().collect();
    let syms = lex(&code).unwrap();
    assert_eq!(
        syms,
        vec![
            Sym::Inc,
            Sym::Open,
            Sym::Inc,
            Sym::Dec,
            Sym::Inc,
            Sym::Close,
            Sym::Right,
            Sym::Left,
            Sym::Dec,
            Sym::In
        ]
    );
    let normal = normalize(&syms);
    assert_eq!(normal, vec![Sym::Inc, Sym::Clear, Sym::Dec, Sym::In]);
    assert_eq!(coalesce(&normal), vec![Token::Input(1)]);
    assert_eq!(
        coalesce(&syms),
        vec![
            Token::Add(1),
            Token::LoopOpen,
            Token::Add(1),
            Token::LoopClose,
            Token::Input(1)
        ]
    );
    let bad: Vec<char> = "+ -".chars().collect();
    assert_eq!(lex(&bad), Err(Error::InvalidCharacter(' ')));
}

#[test]
fn coalescer_alone_merges_mixed_runs() {
    assert_eq!(coalesce(&vec![Sym::Right, Sym::Left]), vec![]);
    assert_eq!(coalesce(&vec![Sym::Right, Sym::Left, Sym::Left]), vec![Token::Move(-1)]);
    assert_eq!(coalesce(&vec![Sym::Inc, Sym::Dec]), vec![]);
    assert_eq!(coalesce(&vec![Sym::Inc, Sym::Dec, Sym::Dec, Sym::Out]), vec![
        Token::Add(-1),
        Token::Output
    ]);
    assert_eq!(coalesce(&vec![Sym::Clear, Sym::Dec, Sym::Dec]), vec![Token::Assign(254)]);
}
