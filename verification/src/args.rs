//! The configuration of a run and how it is read from the command line.
use vstd::prelude::*;
use crate::text::{chars_of, text_is};

verus! {

/// The bit that records each kind of argument once it was seen.
pub const HELP: u16 = 1;

pub const FILE: u16 = 2;

pub const OUTPUT: u16 = 4;

pub const KEEP: u16 = 8;

pub const COMPILER: u16 = 16;

pub const RUN: u16 = 32;

pub const INTERPRET: u16 = 64;

pub const DEBUG: u16 = 128;

pub const MEM_SIZE: u16 = 256;

pub const OFFSET: u16 = 512;

pub const RELEASE: u16 = 1024;

pub const VERBOSE: u16 = 2048;

/// The options that a run is configured with.
#[derive(Clone, Copy, Debug)]
pub struct Args<'a> {
    /// Run the interactive loop.
    pub console: bool,
    /// Interpret the file instead of compiling it.
    pub interpret: bool,
    /// The source file, empty if none was named.
    pub file: &'a str,
    /// Let the debug symbols act.
    pub debug: bool,
    /// The tape capacity.
    pub mem_size: usize,
    /// Where on the tape the pointer starts.
    pub offset: usize,
    /// Generate no debug code, even in debug mode.
    pub release: bool,
    /// Run the program after compiling it.
    pub run: bool,
    /// The name of the output file.
    pub output: &'a str,
    /// Keep the generated C file.
    pub keep: bool,
    /// The compiler that compiles the generated C file.
    pub compiler: &'a str,
    /// Hand the source to the core as it is, without filtering it.
    pub verbose: bool,
}

/// The options as plain values.
pub struct ArgsView {
    pub console: bool,
    pub interpret: bool,
    pub file: Seq<char>,
    pub debug: bool,
    pub mem_size: usize,
    pub offset: usize,
    pub release: bool,
    pub run: bool,
    pub output: Seq<char>,
    pub keep: bool,
    pub compiler: Seq<char>,
    pub verbose: bool,
}

impl<'a> View for Args<'a> {
    type V = ArgsView;

    open spec fn view(&self) -> ArgsView {
        ArgsView {
            console: self.console,
            interpret: self.interpret,
            file: self.file@,
            debug: self.debug,
            mem_size: self.mem_size,
            offset: self.offset,
            release: self.release,
            run: self.run,
            output: self.output@,
            keep: self.keep,
            compiler: self.compiler@,
            verbose: self.verbose,
        }
    }
}

/// The options of a run that was given no argument: a tape of 30000 cells,
/// the pointer at its start, `gcc` as the compiler and `output` as the
/// output file.
pub open spec fn defaults() -> ArgsView {
    ArgsView {
        console: false,
        interpret: false,
        file: ""@,
        debug: false,
        mem_size: 30000,
        offset: 0,
        release: false,
        run: false,
        output: "output"@,
        keep: false,
        compiler: "gcc"@,
        verbose: false,
    }
}

impl<'a> Default for Args<'a> {
    fn default() -> (a: Self)
        ensures
            a@ == defaults(),
    {
        Args {
            release: false,
            offset: 0,
            mem_size: 30000,
            console: false,
            run: false,
            file: "",
            output: "output",
            keep: false,
            compiler: "gcc",
            interpret: false,
            debug: false,
            verbose: false,
        }
    }
}

/// The kinds of argument seen so far, one bit each.
pub struct ArgFlags(pub u16);

/// An option that may be given once.
#[derive(Clone, Copy, Debug, PartialEq, Eq, Structural)]
pub enum Flag {
    Keep,
    Release,
    Debug,
    Interpret,
    Run,
    Verbose,
    Output,
    MemSize,
    Offset,
    Compiler,
}

/// Why a number could not be read.
#[derive(Clone, Copy, Debug, PartialEq, Eq, Structural)]
pub enum NumberError {
    /// There is nothing to read.
    Empty,
    /// A character is not a decimal digit.
    InvalidDigit,
    /// The number does not fit.
    Overflow,
}

/// Why the arguments were refused.
#[derive(Clone, Copy, Debug, PartialEq, Eq, Structural)]
pub enum ArgError {
    /// An option was given twice.
    Repeated(Flag),
    /// A second file was named.
    SecondFile,
    /// The file's name does not end with `.bf`.
    NotBf,
    /// The argument at this position has a `=` but no known key in front of it.
    Invalid(usize),
    /// The value of a numeric option is no number.
    Number(NumberError),
    /// The pointer offset exceeds the tape capacity.
    OffsetTooLarge,
    /// An option that needs a file was given, and no file.
    NoFile,
}

/// The value of a decimal digit.
pub open spec fn digit_value(c: char) -> Option<nat> {
    if c == '0' {
        Some(0)
    } else if c == '1' {
        Some(1)
    } else if c == '2' {
        Some(2)
    } else if c == '3' {
        Some(3)
    } else if c == '4' {
        Some(4)
    } else if c == '5' {
        Some(5)
    } else if c == '6' {
        Some(6)
    } else if c == '7' {
        Some(7)
    } else if c == '8' {
        Some(8)
    } else if c == '9' {
        Some(9)
    } else {
        None
    }
}

/// The number that a row of digits stands for, read from the left; the first
/// character that is no digit, or the first digit with which the number no
/// longer fits, ends the reading with an error.
pub open spec fn digits_value(s: Seq<char>) -> Result<usize, NumberError>
    decreases s.len(),
{
    if s.len() == 0 {
        Ok(0)
    } else {
        match digits_value(s.drop_last()) {
            Err(e) => Err(e),
            Ok(v) => match digit_value(s.last()) {
                None => Err(NumberError::InvalidDigit),
                Some(d) => if v * 10 + d > usize::MAX {
                    Err(NumberError::Overflow)
                } else {
                    Ok((v * 10 + d) as usize)
                },
            },
        }
    }
}

/// The number that a text stands for: decimal digits, with an optional `+` in front.
pub open spec fn number(s: Seq<char>) -> Result<usize, NumberError> {
    if s.len() == 0 {
        Err(NumberError::Empty)
    } else {
        let body = if s[0] == '+' {
            s.skip(1)
        } else {
            s
        };
        if body.len() == 0 {
            Err(NumberError::InvalidDigit)
        } else {
            digits_value(body)
        }
    }
}

fn digit_of(c: char) -> (r: Option<usize>)
    ensures
        match r {
            Some(d) => digit_value(c) == Some(d as nat),
            None => digit_value(c) is None,
        },
{
    if c == '0' {
        Some(0)
    } else if c == '1' {
        Some(1)
    } else if c == '2' {
        Some(2)
    } else if c == '3' {
        Some(3)
    } else if c == '4' {
        Some(4)
    } else if c == '5' {
        Some(5)
    } else if c == '6' {
        Some(6)
    } else if c == '7' {
        Some(7)
    } else if c == '8' {
        Some(8)
    } else if c == '9' {
        Some(9)
    } else {
        None
    }
}

/// Reads the number that the characters from `from` on stand for.
pub fn parse_number(text: &Vec<char>, from: usize) -> (r: Result<usize, NumberError>)
    requires
        from <= text.len(),
    ensures
        r == number(text@.skip(from as int)),
{
    let ghost s = text@.skip(from as int);
    let n = text.len();
    if from == n {
        return Err(NumberError::Empty);
    }
    let start: usize = if text[from] == '+' {
        from + 1
    } else {
        from
    };
    let ghost body = text@.skip(start as int);
    proof {
        if text[from as int] == '+' {
            assert(s.skip(1) =~= body);
        }
        assert(s[0] == text@[from as int]);
    }
    if start == n {
        return Err(NumberError::InvalidDigit);
    }
    let mut acc: usize = 0;
    let mut i: usize = start;
    while i < n
        invariant
            start <= i <= n,
            n == text.len(),
            from <= start,
            body == text@.skip(start as int),
            number(text@.skip(from as int)) == digits_value(body),
            digits_value(body.take(i - start)) == Ok::<usize, NumberError>(acc),
        decreases n - i,
    {
        proof {
            assert(body.take(i - start + 1).drop_last() == body.take(i - start));
            assert(body.take(i - start + 1).last() == text@[i as int]);
        }
        match digit_of(text[i]) {
            None => {
                proof {
                    lemma_digits_error_stays(body, i - start + 1);
                }
                return Err(NumberError::InvalidDigit);
            },
            Some(d) => {
                if acc > (usize::MAX - d) / 10 {
                    proof {
                        lemma_digits_error_stays(body, i - start + 1);
                    }
                    return Err(NumberError::Overflow);
                }
                acc = acc * 10 + d;
            },
        }
        i += 1;
    }
    assert(body.take(n - start) == body);
    Ok(acc)
}

/// Once the reading of a prefix has failed, the reading of the whole fails the same way.
pub proof fn lemma_digits_error_stays(s: Seq<char>, k: int)
    requires
        0 <= k <= s.len(),
        digits_value(s.take(k)) is Err,
    ensures
        digits_value(s) == digits_value(s.take(k)),
    decreases s.len() - k,
{
    if k == s.len() {
        assert(s.take(k) == s);
    } else {
        assert(s.take(k + 1).drop_last() == s.take(k));
        lemma_digits_error_stays(s, k + 1);
    }
}

impl ArgFlags {
    /// An argument of the kind that `bit` stands for was seen.
    pub open spec fn has(self, bit: u16) -> bool {
        self.0 & bit != 0
    }
}

/// What the check of the options as a whole gives: the offset must not exceed
/// the tape capacity; a debug, capacity or offset option, or no argument at
/// all, asks for the interactive loop; any other option but help needs a file.
pub open spec fn validated(flags: ArgFlags, args: ArgsView) -> Result<ArgsView, ArgError> {
    if args.offset > args.mem_size {
        Err(ArgError::OffsetTooLarge)
    } else if flags.has(DEBUG) || flags.has(MEM_SIZE) || flags.has(OFFSET) || flags.0 == 0 {
        Ok(ArgsView { console: true, ..args })
    } else if (flags.has(OUTPUT) || flags.has(KEEP) || flags.has(COMPILER) || flags.has(RUN)
        || flags.has(INTERPRET) || flags.has(RELEASE) || flags.has(VERBOSE)) && !flags.has(FILE) {
        Err(ArgError::NoFile)
    } else {
        Ok(args)
    }
}

/// A result with its options as plain values.
pub open spec fn outcome(r: Result<Args, ArgError>) -> Result<ArgsView, ArgError> {
    match r {
        Ok(a) => Ok(a@),
        Err(e) => Err(e),
    }
}

/// Checks the options as a whole, once every argument is read.
pub fn validate_args<'a>(flags: ArgFlags, args: Args<'a>) -> (r: Result<Args<'a>, ArgError>)
    ensures
        outcome(r) == validated(flags, args@),
{
    let f = flags.0;
    proof {
        assert(f & 896 != 0 <==> (f & 128 != 0 || f & 256 != 0 || f & 512 != 0)) by (bit_vector);
        assert(f & 3324 != 0 <==> (f & 4 != 0 || f & 8 != 0 || f & 16 != 0 || f & 32 != 0 || f
            & 64 != 0 || f & 128 != 0 || f & 1024 != 0 || f & 2048 != 0)) by (bit_vector);
    }
    if args.offset > args.mem_size {
        return Err(ArgError::OffsetTooLarge);
    }
    if f & 896 != 0 || f == 0 {
        return Ok(Args { console: true, ..args });
    }
    if f & 3324 != 0 && f & 2 == 0 {
        return Err(ArgError::NoFile);
    }
    Ok(args)
}

/// What the reading of the arguments has come to: the kinds seen, the
/// options so far, and the error that ended the reading, if any.
pub struct Scan {
    pub seen: u16,
    pub args: ArgsView,
    pub error: Option<ArgError>,
}

/// An option that may be given once: it is an error the second time, and
/// else it is recorded and takes effect.
pub open spec fn switch(s: Scan, bit: u16, flag: Flag, on: ArgsView) -> Scan {
    if s.seen & bit != 0 {
        Scan { error: Some(ArgError::Repeated(flag)), ..s }
    } else {
        Scan { seen: s.seen | bit, args: on, error: None }
    }
}

/// Position `i` holds the first `=` of the argument.
pub open spec fn first_eq(arg: Seq<char>, i: int) -> bool {
    &&& 0 <= i < arg.len()
    &&& arg[i] == '='
    &&& forall|j: int| 0 <= j < i ==> arg[j] != '='
}

/// The name ends with `.bf`.
pub open spec fn ends_bf(arg: Seq<char>) -> bool {
    &&& arg.len() >= 3
    &&& arg[arg.len() - 3] == '.'
    &&& arg[arg.len() - 2] == 'b'
    &&& arg[arg.len() - 1] == 'f'
}

/// An argument without `=` names the source file.
pub open spec fn apply_file(s: Scan, arg: Seq<char>) -> Scan {
    if s.seen & FILE != 0 {
        Scan { error: Some(ArgError::SecondFile), ..s }
    } else if !ends_bf(arg) {
        Scan { error: Some(ArgError::NotBf), ..s }
    } else {
        Scan { seen: s.seen | FILE, args: ArgsView { file: arg, ..s.args }, error: None }
    }
}

/// A numeric option: an error the second time, an error if its value is no
/// number, and else recorded with its value.
pub open spec fn numeric(s: Scan, bit: u16, flag: Flag, var: Seq<char>, capacity: bool) -> Scan {
    if s.seen & bit != 0 {
        Scan { error: Some(ArgError::Repeated(flag)), ..s }
    } else {
        match number(var) {
            Ok(n) => Scan {
                seen: s.seen | bit,
                args: if capacity {
                    ArgsView { mem_size: n, ..s.args }
                } else {
                    ArgsView { offset: n, ..s.args }
                },
                error: None,
            },
            Err(e) => Scan { error: Some(ArgError::Number(e)), ..s },
        }
    }
}

/// An argument of the form key, `=`, value.
pub open spec fn apply_keyed(s: Scan, key: Seq<char>, var: Seq<char>, index: int) -> Scan {
    if key == "--output"@ || key == "-o"@ {
        switch(s, OUTPUT, Flag::Output, ArgsView { output: var, ..s.args })
    } else if key == "--mem-size"@ || key == "-m"@ {
        numeric(s, MEM_SIZE, Flag::MemSize, var, true)
    } else if key == "--ptr-offset"@ || key == "-po"@ {
        numeric(s, OFFSET, Flag::Offset, var, false)
    } else if key == "--compiler"@ || key == "-c"@ {
        switch(s, COMPILER, Flag::Compiler, ArgsView { compiler: var, ..s.args })
    } else {
        Scan { error: Some(ArgError::Invalid(index as usize)), ..s }
    }
}

/// The reading after one more argument, which stands at position `index`.
pub open spec fn apply(s: Scan, arg: Seq<char>, index: int) -> Scan {
    if arg == "--help"@ || arg == "-h"@ {
        Scan { seen: s.seen | HELP, ..s }
    } else if arg == "--keep"@ || arg == "-k"@ {
        switch(s, KEEP, Flag::Keep, ArgsView { keep: true, ..s.args })
    } else if arg == "--release"@ || arg == "-rl"@ {
        switch(s, RELEASE, Flag::Release, ArgsView { release: true, ..s.args })
    } else if arg == "--debug"@ || arg == "-d"@ {
        switch(s, DEBUG, Flag::Debug, ArgsView { debug: true, ..s.args })
    } else if arg == "--interpret"@ || arg == "-i"@ {
        switch(s, INTERPRET, Flag::Interpret, ArgsView { interpret: true, ..s.args })
    } else if arg == "--run"@ || arg == "-r"@ {
        switch(s, RUN, Flag::Run, ArgsView { run: true, ..s.args })
    } else if arg == "--verbose"@ || arg == "-v"@ {
        switch(s, VERBOSE, Flag::Verbose, ArgsView { verbose: true, ..s.args })
    } else if exists|i: int| first_eq(arg, i) {
        let i = choose|i: int| first_eq(arg, i);
        apply_keyed(s, arg.take(i), arg.skip(i + 1), index)
    } else {
        apply_file(s, arg)
    }
}

/// The reading of the arguments in front of position `n`. The first
/// argument is the program's name and is skipped; the first error ends the
/// reading.
pub open spec fn scan(args: Seq<Seq<char>>, n: int) -> Scan
    decreases n,
{
    if n <= 1 {
        Scan { seen: 0, args: defaults(), error: None }
    } else {
        let before = scan(args, n - 1);
        if before.error is Some {
            before
        } else {
            apply(before, args[n - 1], n - 1)
        }
    }
}

/// Once the reading has ended with an error, more arguments change nothing.
pub proof fn lemma_scan_stops(args: Seq<Seq<char>>, n: int, m: int)
    requires
        n <= m,
        scan(args, n).error is Some,
    ensures
        scan(args, m) == scan(args, n),
    decreases m - n,
{
    if n < m {
        lemma_scan_stops(args, n, m - 1);
    }
}

/// The arguments as texts.
pub open spec fn texts(args: Seq<String>) -> Seq<Seq<char>> {
    Seq::new(args.len(), |i: int| args[i]@)
}

/// What came of the command line: whether help was asked for before the
/// reading ended, and the options or the error.
pub struct Parse<'a> {
    pub help: bool,
    pub outcome: Result<Args<'a>, ArgError>,
}

fn find_eq(chars: &Vec<char>) -> (r: Option<usize>)
    ensures
        match r {
            Some(i) => first_eq(chars@, i as int),
            None => !exists|i: int| first_eq(chars@, i),
        },
{
    let mut i: usize = 0;
    while i < chars.len()
        invariant
            i <= chars.len(),
            forall|j: int| 0 <= j < i ==> chars@[j] != '=',
        decreases chars.len() - i,
    {
        if chars[i] == '=' {
            return Some(i);
        }
        i += 1;
    }
    None
}

proof fn lemma_first_eq_unique(arg: Seq<char>, i: int, j: int)
    requires
        first_eq(arg, i),
        first_eq(arg, j),
    ensures
        i == j,
{
}

fn switch_arg<'a>(seen: u16, parsed: Args<'a>, bit: u16, flag: Flag, on: Args<'a>) -> (r: (
    u16,
    Args<'a>,
    Option<ArgError>,
))
    ensures
        (Scan { seen: r.0, args: r.1@, error: r.2 }) == switch(
            Scan { seen, args: parsed@, error: None },
            bit,
            flag,
            on@,
        ),
{
    if seen & bit != 0 {
        (seen, parsed, Some(ArgError::Repeated(flag)))
    } else {
        (seen | bit, on, None)
    }
}

fn numeric_arg<'a>(
    seen: u16,
    parsed: Args<'a>,
    bit: u16,
    flag: Flag,
    chars: &Vec<char>,
    from: usize,
    capacity: bool,
) -> (r: (u16, Args<'a>, Option<ArgError>))
    requires
        from <= chars.len(),
    ensures
        (Scan { seen: r.0, args: r.1@, error: r.2 }) == numeric(
            Scan { seen, args: parsed@, error: None },
            bit,
            flag,
            chars@.skip(from as int),
            capacity,
        ),
{
    if seen & bit != 0 {
        (seen, parsed, Some(ArgError::Repeated(flag)))
    } else {
        match parse_number(chars, from) {
            Ok(v) => if capacity {
                (seen | bit, Args { mem_size: v, ..parsed }, None)
            } else {
                (seen | bit, Args { offset: v, ..parsed }, None)
            },
            Err(e) => (seen, parsed, Some(ArgError::Number(e))),
        }
    }
}

fn keyed_arg<'a>(
    seen: u16,
    parsed: Args<'a>,
    arg: &'a str,
    chars: &Vec<char>,
    at: usize,
    index: usize,
) -> (r: (u16, Args<'a>, Option<ArgError>))
    requires
        chars@ == arg@,
        at < chars.len(),
    ensures
        (Scan { seen: r.0, args: r.1@, error: r.2 }) == apply_keyed(
            Scan { seen, args: parsed@, error: None },
            arg@.take(at as int),
            arg@.skip(at + 1),
            index as int,
        ),
{
    let n = chars.len();
    proof {
        assert(arg@.skip(at + 1) == arg@.subrange(at + 1, n as int));
    }
    if text_is(chars, at, "--output") || text_is(chars, at, "-o") {
        let var = arg.substring_char(at + 1, n);
        switch_arg(seen, parsed, OUTPUT, Flag::Output, Args { output: var, ..parsed })
    } else if text_is(chars, at, "--mem-size") || text_is(chars, at, "-m") {
        numeric_arg(seen, parsed, MEM_SIZE, Flag::MemSize, chars, at + 1, true)
    } else if text_is(chars, at, "--ptr-offset") || text_is(chars, at, "-po") {
        numeric_arg(seen, parsed, OFFSET, Flag::Offset, chars, at + 1, false)
    } else if text_is(chars, at, "--compiler") || text_is(chars, at, "-c") {
        let var = arg.substring_char(at + 1, n);
        switch_arg(seen, parsed, COMPILER, Flag::Compiler, Args { compiler: var, ..parsed })
    } else {
        (seen, parsed, Some(ArgError::Invalid(index)))
    }
}

fn file_arg<'a>(seen: u16, parsed: Args<'a>, arg: &'a str, chars: &Vec<char>) -> (r: (
    u16,
    Args<'a>,
    Option<ArgError>,
))
    requires
        chars@ == arg@,
    ensures
        (Scan { seen: r.0, args: r.1@, error: r.2 }) == apply_file(
            Scan { seen, args: parsed@, error: None },
            arg@,
        ),
{
    let n = chars.len();
    if seen & FILE != 0 {
        (seen, parsed, Some(ArgError::SecondFile))
    } else if !(n >= 3 && chars[n - 3] == '.' && chars[n - 2] == 'b' && chars[n - 1] == 'f') {
        (seen, parsed, Some(ArgError::NotBf))
    } else {
        (seen | FILE, Args { file: arg, ..parsed }, None)
    }
}

fn apply_arg<'a>(seen: u16, parsed: Args<'a>, arg: &'a str, index: usize) -> (r: (
    u16,
    Args<'a>,
    Option<ArgError>,
))
    ensures
        (Scan { seen: r.0, args: r.1@, error: r.2 }) == apply(
            Scan { seen, args: parsed@, error: None },
            arg@,
            index as int,
        ),
{
    let chars = chars_of(arg);
    let n = chars.len();
    assert(chars@.take(n as int) == arg@);
    if text_is(&chars, n, "--help") || text_is(&chars, n, "-h") {
        (seen | HELP, parsed, None)
    } else if text_is(&chars, n, "--keep") || text_is(&chars, n, "-k") {
        switch_arg(seen, parsed, KEEP, Flag::Keep, Args { keep: true, ..parsed })
    } else if text_is(&chars, n, "--release") || text_is(&chars, n, "-rl") {
        switch_arg(seen, parsed, RELEASE, Flag::Release, Args { release: true, ..parsed })
    } else if text_is(&chars, n, "--debug") || text_is(&chars, n, "-d") {
        switch_arg(seen, parsed, DEBUG, Flag::Debug, Args { debug: true, ..parsed })
    } else if text_is(&chars, n, "--interpret") || text_is(&chars, n, "-i") {
        switch_arg(seen, parsed, INTERPRET, Flag::Interpret, Args { interpret: true, ..parsed })
    } else if text_is(&chars, n, "--run") || text_is(&chars, n, "-r") {
        switch_arg(seen, parsed, RUN, Flag::Run, Args { run: true, ..parsed })
    } else if text_is(&chars, n, "--verbose") || text_is(&chars, n, "-v") {
        switch_arg(seen, parsed, VERBOSE, Flag::Verbose, Args { verbose: true, ..parsed })
    } else {
        match find_eq(&chars) {
            Some(at) => {
                proof {
                    lemma_first_eq_unique(arg@, at as int, choose|i: int| first_eq(arg@, i));
                }
                keyed_arg(seen, parsed, arg, &chars, at, index)
            },
            None => file_arg(seen, parsed, arg, &chars),
        }
    }
}

/// Reads the command line. The first argument is the program's name; each
/// of the others is a switch, a key with a value, or the source file. The
/// first error ends the reading; without one, the options are checked as a
/// whole.
pub fn parse_args<'a>(args: &'a [String]) -> (p: Parse<'a>)
    ensures
        ({
            let s = scan(texts(args@), args@.len() as int);
            &&& p.help == (s.seen & HELP != 0)
            &&& outcome(p.outcome) == match s.error {
                Some(e) => Err(e),
                None => validated(ArgFlags(s.seen), s.args),
            }
        }),
{
    let n = args.len();
    let mut seen: u16 = 0;
    let mut parsed = Args::default();
    let mut i: usize = 1;
    while i < n
        invariant
            1 <= i,
            n == args@.len(),
            i <= n || (n == 0 && i == 1),
            scan(texts(args@), i as int) == (Scan { seen, args: parsed@, error: None }),
        decreases n - i,
    {
        let ghost before = Scan { seen, args: parsed@, error: None };
        assert(texts(args@)[i as int] == args@[i as int]@);
        let (seen1, parsed1, error) = apply_arg(seen, parsed, args[i].as_str(), i);
        seen = seen1;
        parsed = parsed1;
        match error {
            Some(e) => {
                proof {
                    lemma_scan_stops(texts(args@), i as int + 1, n as int);
                }
                return Parse { help: seen & HELP != 0, outcome: Err(e) };
            },
            None => {},
        }
        i += 1;
    }
    assert(scan(texts(args@), n as int) == scan(texts(args@), i as int));
    Parse { help: seen & HELP != 0, outcome: validate_args(ArgFlags(seen), parsed) }
}

impl Flag {
    /// The word by which a repeated option is reported.
    pub open spec fn word(self) -> Seq<char> {
        match self {
            Flag::Keep => "build"@,
            Flag::Release => "release"@,
            Flag::Debug => "debug"@,
            Flag::Interpret => "interpret"@,
            Flag::Run => "run"@,
            Flag::Verbose => "verbose"@,
            Flag::Compiler => "compiler"@,
            _ => "output"@,
        }
    }
}

impl NumberError {
    /// The message that reports this failure.
    pub open spec fn text(self) -> Seq<char> {
        match self {
            NumberError::Empty => "cannot parse integer from empty string"@,
            NumberError::InvalidDigit => "invalid digit found in string"@,
            NumberError::Overflow => "number too large to fit in target type"@,
        }
    }
}

impl ArgError {
    /// The message that reports this failure, for the command line `args`.
    pub open spec fn text(self, args: Seq<Seq<char>>) -> Seq<char> {
        match self {
            ArgError::Repeated(flag) => "More than 1 "@ + flag.word() + " flag passed"@,
            ArgError::SecondFile => "More than 1 file passed"@,
            ArgError::NotBf => "File must end with .bf"@,
            ArgError::Invalid(i) => "Invalid argument "@ + (if i < args.len() {
                args[i as int]
            } else {
                Seq::empty()
            }),
            ArgError::Number(e) => e.text(),
            ArgError::OffsetTooLarge => "pointer offset cannot be greater than memory size"@,
            ArgError::NoFile => "No File passed"@,
        }
    }

    /// Renders the message that reports this failure, for the command line `args`.
    pub fn message(&self, args: &[String]) -> (s: String)
        ensures
            s@ == self.text(texts(args@)),
    {
        match self {
            ArgError::Repeated(flag) => {
                let mut s = String::from_str("More than 1 ");
                s.append(
                    match flag {
                        Flag::Keep => "build",
                        Flag::Release => "release",
                        Flag::Debug => "debug",
                        Flag::Interpret => "interpret",
                        Flag::Run => "run",
                        Flag::Verbose => "verbose",
                        Flag::Compiler => "compiler",
                        _ => "output",
                    },
                );
                s.append(" flag passed");
                s
            },
            ArgError::SecondFile => String::from_str("More than 1 file passed"),
            ArgError::NotBf => String::from_str("File must end with .bf"),
            ArgError::Invalid(i) => {
                let mut s = String::from_str("Invalid argument ");
                if *i < args.len() {
                    s.append(args[*i].as_str());
                } else {
                    assert(s@ =~= s@ + Seq::<char>::empty());
                }
                s
            },
            ArgError::Number(e) => match e {
                NumberError::Empty => String::from_str("cannot parse integer from empty string"),
                NumberError::InvalidDigit => String::from_str("invalid digit found in string"),
                NumberError::Overflow => String::from_str(
                    "number too large to fit in target type",
                ),
            },
            ArgError::OffsetTooLarge => String::from_str(
                "pointer offset cannot be greater than memory size",
            ),
            ArgError::NoFile => String::from_str("No File passed"),
        }
    }
}

} // verus!
