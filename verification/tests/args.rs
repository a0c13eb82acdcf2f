use brainfuck::args::{parse_number, DEBUG, FILE, KEEP, MEM_SIZE};
use brainfuck::{parse_args, validate_args, ArgError, ArgFlags, Args, Flag, NumberError};

fn line(words: &[&str]) -> Vec<String> {
    words.iter().map(|w| w.to_string()).collect()
}

#[test]
fn default_options() {
    let args = Args::default();
    assert!(!args.console);
    assert!(!args.interpret);
    assert_eq!(args.file, "");
    assert!(!args.debug);
    assert_eq!(args.mem_size, 30000);
    assert_eq!(args.offset, 0);
    assert!(!args.release);
    assert!(!args.run);
    assert_eq!(args.output, "output");
    assert!(!args.keep);
    assert_eq!(args.compiler, "gcc");
    assert!(!args.verbose);
}

#[test]
fn no_argument_asks_for_the_console() {
    let words = line(&["brainfuck"]);
    let parse = parse_args(&words);
    assert!(!parse.help);
    let args = parse.outcome.unwrap();
    assert!(args.console);
    assert_eq!(args.mem_size, 30000);
    let none: Vec<String> = Vec::new();
    assert!(parse_args(&none).outcome.unwrap().console);
}

#[test]
fn file_alone_is_compiled() {
    let words = line(&["brainfuck", "hello.bf"]);
    let args = parse_args(&words).outcome.unwrap();
    assert!(!args.console);
    assert!(!args.interpret);
    assert_eq!(args.file, "hello.bf");
}

#[test]
fn switches_and_values_are_recorded() {
    let words = line(&[
        "brainfuck",
        "-i",
        "--keep",
        "-r",
        "-rl",
        "-v",
        "--output=out=put",
        "-c=clang",
        "prog.bf",
    ]);
    let args = parse_args(&words).outcome.unwrap();
    assert!(args.interpret);
    assert!(args.keep);
    assert!(args.run);
    assert!(args.release);
    assert!(args.verbose);
    assert!(!args.debug);
    assert!(!args.console);
    assert_eq!(args.output, "out=put");
    assert_eq!(args.compiler, "clang");
    assert_eq!(args.file, "prog.bf");
}

#[test]
fn long_and_short_forms_agree() {
    let long = line(&[
        "brainfuck",
        "--interpret",
        "--run",
        "--release",
        "--verbose",
        "--compiler=cc",
        "a.bf",
    ]);
    let args = parse_args(&long).outcome.unwrap();
    assert!(args.interpret && args.run && args.release && args.verbose);
    assert_eq!(args.compiler, "cc");
    let short = line(&["brainfuck", "-o=x", "-k", "a.bf"]);
    let args = parse_args(&short).outcome.unwrap();
    assert_eq!(args.output, "x");
    assert!(args.keep);
}

#[test]
fn debug_capacity_and_offset_ask_for_the_console() {
    let words = line(&["brainfuck", "-d", "prog.bf"]);
    let args = parse_args(&words).outcome.unwrap();
    assert!(args.debug);
    assert!(args.console);
    let words = line(&["brainfuck", "--mem-size=100", "-po=7"]);
    let args = parse_args(&words).outcome.unwrap();
    assert!(args.console);
    assert_eq!(args.mem_size, 100);
    assert_eq!(args.offset, 7);
    let words = line(&["brainfuck", "-m=+12", "--ptr-offset=012"]);
    let args = parse_args(&words).outcome.unwrap();
    assert_eq!(args.mem_size, 12);
    assert_eq!(args.offset, 12);
}

#[test]
fn help_is_noted_and_needs_no_file() {
    let words = line(&["brainfuck", "--help"]);
    let parse = parse_args(&words);
    assert!(parse.help);
    let args = parse.outcome.unwrap();
    assert!(!args.console);
    assert_eq!(args.file, "");
    let words = line(&["brainfuck", "-h", "-h", "-k"]);
    let parse = parse_args(&words);
    assert!(parse.help);
    assert_eq!(parse.outcome.err(), Some(ArgError::NoFile));
}

#[test]
fn help_after_an_error_is_not_noted() {
    let words = line(&["brainfuck", "-k", "-k", "-h"]);
    let parse = parse_args(&words);
    assert!(!parse.help);
    assert_eq!(parse.outcome.err(), Some(ArgError::Repeated(Flag::Keep)));
}

#[test]
fn repeated_options_are_refused() {
    let cases = [
        ("-k", "--keep", Flag::Keep, "More than 1 build flag passed"),
        ("-rl", "--release", Flag::Release, "More than 1 release flag passed"),
        ("-d", "--debug", Flag::Debug, "More than 1 debug flag passed"),
        ("-i", "--interpret", Flag::Interpret, "More than 1 interpret flag passed"),
        ("-r", "--run", Flag::Run, "More than 1 run flag passed"),
        ("-v", "--verbose", Flag::Verbose, "More than 1 verbose flag passed"),
        ("-o=a", "--output=b", Flag::Output, "More than 1 output flag passed"),
        ("-m=1", "--mem-size=x", Flag::MemSize, "More than 1 output flag passed"),
        ("-po=1", "--ptr-offset=2", Flag::Offset, "More than 1 output flag passed"),
        ("-c=a", "--compiler=b", Flag::Compiler, "More than 1 compiler flag passed"),
    ];
    for (first, second, flag, message) in cases {
        let words = line(&["brainfuck", first, second]);
        let error = parse_args(&words).outcome.err().unwrap();
        assert_eq!(error, ArgError::Repeated(flag));
        assert_eq!(error.message(&words), message);
    }
}

#[test]
fn files_are_checked() {
    let words = line(&["brainfuck", "a.bf", "b.bf"]);
    let error = parse_args(&words).outcome.err().unwrap();
    assert_eq!(error, ArgError::SecondFile);
    assert_eq!(error.message(&words), "More than 1 file passed");
    for name in ["a.txt", "bf", ".b", "", "a.bf ", "--nope"] {
        let words = line(&["brainfuck", name]);
        let error = parse_args(&words).outcome.err().unwrap();
        assert_eq!(error, ArgError::NotBf);
        assert_eq!(error.message(&words), "File must end with .bf");
    }
    let words = line(&["brainfuck", ".bf"]);
    assert_eq!(parse_args(&words).outcome.unwrap().file, ".bf");
}

#[test]
fn unknown_keys_are_refused() {
    let words = line(&["brainfuck", "a.bf", "--what=1"]);
    let error = parse_args(&words).outcome.err().unwrap();
    assert_eq!(error, ArgError::Invalid(2));
    assert_eq!(error.message(&words), "Invalid argument --what=1");
    let words = line(&["brainfuck", "=x.bf"]);
    assert_eq!(parse_args(&words).outcome.err(), Some(ArgError::Invalid(1)));
    let words = line(&["brainfuck", "--keep=1"]);
    assert_eq!(parse_args(&words).outcome.err(), Some(ArgError::Invalid(1)));
    assert_eq!(ArgError::Invalid(9).message(&words), "Invalid argument ");
}

#[test]
fn numbers_are_checked() {
    let words = line(&["brainfuck", "--mem-size=abc"]);
    let error = parse_args(&words).outcome.err().unwrap();
    assert_eq!(error, ArgError::Number(NumberError::InvalidDigit));
    assert_eq!(error.message(&words), "invalid digit found in string");
    let words = line(&["brainfuck", "-po="]);
    let error = parse_args(&words).outcome.err().unwrap();
    assert_eq!(error, ArgError::Number(NumberError::Empty));
    assert_eq!(error.message(&words), "cannot parse integer from empty string");
    let words = line(&["brainfuck", "-m=340282366920938463463374607431768211456"]);
    let error = parse_args(&words).outcome.err().unwrap();
    assert_eq!(error, ArgError::Number(NumberError::Overflow));
    assert_eq!(error.message(&words), "number too large to fit in target type");
}

#[test]
fn number_reading() {
    let read = |text: &str| parse_number(&text.chars().collect(), 0);
    assert_eq!(read("0"), Ok(0));
    assert_eq!(read("30000"), Ok(30000));
    assert_eq!(read("+5"), Ok(5));
    assert_eq!(read("007"), Ok(7));
    assert_eq!(read(&usize::MAX.to_string()), Ok(usize::MAX));
    assert_eq!(read(""), Err(NumberError::Empty));
    assert_eq!(read("+"), Err(NumberError::InvalidDigit));
    assert_eq!(read("-"), Err(NumberError::InvalidDigit));
    assert_eq!(read("-5"), Err(NumberError::InvalidDigit));
    assert_eq!(read("++5"), Err(NumberError::InvalidDigit));
    assert_eq!(read("5 "), Err(NumberError::InvalidDigit));
    assert_eq!(read("1_000"), Err(NumberError::InvalidDigit));
    assert_eq!(read("12a"), Err(NumberError::InvalidDigit));
    assert_eq!(read(&(usize::MAX.to_string() + "0")), Err(NumberError::Overflow));
    let above = (usize::MAX as u128 + 1).to_string();
    assert_eq!(read(&above), Err(NumberError::Overflow));
    assert_eq!(read(&(above + "x")), Err(NumberError::Overflow));
    assert_eq!(parse_number(&"ab12".chars().collect(), 2), Ok(12));
    assert_eq!(parse_number(&"ab".chars().collect(), 2), Err(NumberError::Empty));
}

#[test]
fn offset_must_not_exceed_capacity() {
    let words = line(&["brainfuck", "--ptr-offset=5", "--mem-size=3"]);
    let error = parse_args(&words).outcome.err().unwrap();
    assert_eq!(error, ArgError::OffsetTooLarge);
    assert_eq!(
        error.message(&words),
        "pointer offset cannot be greater than memory size"
    );
    let words = line(&["brainfuck", "--ptr-offset=3", "--mem-size=3"]);
    assert!(parse_args(&words).outcome.is_ok());
    let words = line(&["brainfuck", "-po=30001"]);
    assert_eq!(parse_args(&words).outcome.err(), Some(ArgError::OffsetTooLarge));
}

#[test]
fn options_need_a_file() {
    for option in ["-k", "-rl", "-i", "-r", "-v", "-o=x", "-c=cc"] {
        let words = line(&["brainfuck", option]);
        let error = parse_args(&words).outcome.err().unwrap();
        assert_eq!(error, ArgError::NoFile);
        assert_eq!(error.message(&words), "No File passed");
    }
}

#[test]
fn validate_checks_the_options_as_a_whole() {
    let mut args = Args::default();
    args.offset = 30001;
    assert_eq!(validate_args(ArgFlags(0), args).err(), Some(ArgError::OffsetTooLarge));
    args.offset = 30000;
    assert!(validate_args(ArgFlags(0), args).unwrap().console);
    assert!(validate_args(ArgFlags(DEBUG | FILE), args).unwrap().console);
    assert!(validate_args(ArgFlags(MEM_SIZE), args).unwrap().console);
    assert!(!validate_args(ArgFlags(FILE), args).unwrap().console);
    assert!(!validate_args(ArgFlags(KEEP | FILE), args).unwrap().console);
    assert_eq!(validate_args(ArgFlags(KEEP), args).err(), Some(ArgError::NoFile));
    assert!(!validate_args(ArgFlags(1), args).unwrap().console);
}
