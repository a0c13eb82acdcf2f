//! The tape machine: the state machine that executes an instruction stream
//! against a byte tape and a cursor, with the jump table resolving loops.
use vstd::prelude::*;
use crate::brackets::{
    close_of, lemma_links_partner, match_brackets, open_of, well_nested, JumpTable,
};
use crate::error::Error;
use crate::source::{get_code, kept};
use crate::text::{chars_of, digits, push_decimal, text_is};

verus! {

/// How many cells a window dump shows on each side of the cursor.
pub const WINDOW: usize = 5;

/// The symbols that have a meaning: moves, increment and decrement, output
/// and input, the loop markers, and the two debug symbols.
pub open spec fn is_instruction(c: char) -> bool {
    c == '>' || c == '<' || c == '+' || c == '-' || c == '.' || c == ',' || c == '[' || c == ']'
        || c == '#' || c == '@'
}

/// The cell value after an increment: it wraps from 255 to 0.
pub open spec fn incr(v: u8) -> u8 {
    if v == 255 {
        0
    } else {
        (v + 1) as u8
    }
}

/// The cell value after a decrement: it wraps from 0 to 255.
pub open spec fn decr(v: u8) -> u8 {
    if v == 0 {
        255
    } else {
        (v - 1) as u8
    }
}

/// The debug counter after one more cell dump; it stays at its greatest value.
pub open spec fn bump(count: u64) -> u64 {
    if count < u64::MAX {
        (count + 1) as u64
    } else {
        count
    }
}

/// The mathematical state of a tape machine.
pub struct State {
    /// The cells materialised so far.
    pub tape: Seq<u8>,
    /// The current tape index.
    pub cursor: int,
    /// The position of the next instruction.
    pub ip: int,
    /// The cell dumps made so far.
    pub dumps: u64,
    /// The keystroke waiting to be read, if any.
    pub key: Option<u8>,
    /// What the program has written and nobody has collected yet.
    pub output: Seq<char>,
    /// Whether the debug symbols act.
    pub debug: bool,
    /// The greatest index the cursor may reach.
    pub limit: int,
}

impl State {
    /// The cursor is on a materialised cell and within the configured range.
    pub open spec fn wf(self) -> bool {
        0 <= self.cursor < self.tape.len() <= self.limit + 1
    }

    /// The cell under the cursor.
    pub open spec fn cell(self) -> u8 {
        self.tape[self.cursor]
    }
}

/// A fresh machine: a zeroed tape of `offset + 1` cells, the cursor on the last one.
pub open spec fn initial(debug: bool, mem_size: usize, offset: usize) -> State {
    State {
        tape: Seq::new((offset + 1) as nat, |i: int| 0u8),
        cursor: offset as int,
        ip: 0,
        dumps: 0,
        key: None,
        output: Seq::empty(),
        debug,
        limit: mem_size as int,
    }
}

/// Why a machine is not executing.
#[derive(Clone, Copy, Debug, PartialEq, Eq, Structural)]
pub enum Status {
    /// The instruction pointer passed the end of the stream.
    Halted,
    /// The next instruction is an input and no keystroke is waiting.
    NeedKey,
    /// The next instruction cannot be executed.
    Fault(Error),
    /// The step budget ran out; the machine can go on.
    Paused,
}

/// What a cell dump writes: the counter, the cell as a character and as a
/// number, and the cursor.
pub open spec fn cell_dump_text(count: u64, value: u8, cursor: int) -> Seq<char> {
    "\ndebug flag "@ + digits(count as nat) + " : "@.push(value as char) + " "@ + digits(
        value as nat,
    ) + " "@ + digits(cursor as nat) + "\n"@
}

/// The first index a window dump shows.
pub open spec fn window_start(cursor: int) -> int {
    if cursor >= WINDOW {
        cursor - WINDOW
    } else {
        0
    }
}

/// One past the last index a window dump shows.
pub open spec fn window_end(len: int, cursor: int) -> int {
    if cursor + WINDOW + 1 <= len {
        cursor + WINDOW + 1
    } else {
        len
    }
}

/// The values of the cells `lo..hi`, each after a blank.
pub open spec fn cells_text(tape: Seq<u8>, lo: int, hi: int) -> Seq<char>
    decreases hi - lo,
{
    if lo >= hi {
        Seq::empty()
    } else {
        cells_text(tape, lo, hi - 1) + " "@ + digits(tape[hi - 1] as nat)
    }
}

/// What a window dump writes: the first index shown, then the values of the
/// cells around the cursor, clamped to the materialised tape.
pub open spec fn window_text(tape: Seq<u8>, cursor: int) -> Seq<char> {
    "\nwindow "@ + digits(window_start(cursor) as nat) + " :"@ + cells_text(
        tape,
        window_start(cursor),
        window_end(tape.len() as int, cursor),
    ) + "\n"@
}

/// Whether, and why, the machine cannot execute its next instruction.
pub open spec fn blocked(code: Seq<char>, s: State) -> Option<Status> {
    if s.ip < 0 || s.ip >= code.len() {
        Some(Status::Halted)
    } else {
        let c = code[s.ip];
        if c == '>' && s.cursor >= s.limit {
            Some(Status::Fault(Error::OutOfBounds))
        } else if c == '<' && s.cursor <= 0 {
            Some(Status::Fault(Error::OutOfBounds))
        } else if c == ',' && s.key is None {
            Some(Status::NeedKey)
        } else if !is_instruction(c) {
            Some(Status::Fault(Error::InvalidCharacter(c)))
        } else {
            None
        }
    }
}

/// The state after the next instruction, for a machine that is not blocked.
pub open spec fn step(code: Seq<char>, s: State) -> State {
    let c = code[s.ip];
    let next = State { ip: s.ip + 1, ..s };
    if c == '>' {
        State {
            cursor: s.cursor + 1,
            tape: if s.cursor + 1 == s.tape.len() {
                s.tape.push(0u8)
            } else {
                s.tape
            },
            ..next
        }
    } else if c == '<' {
        State { cursor: s.cursor - 1, ..next }
    } else if c == '+' {
        State { tape: s.tape.update(s.cursor, incr(s.cell())), ..next }
    } else if c == '-' {
        State { tape: s.tape.update(s.cursor, decr(s.cell())), ..next }
    } else if c == '.' {
        State { output: s.output.push(s.cell() as char), ..next }
    } else if c == ',' {
        State { tape: s.tape.update(s.cursor, s.key->0), key: None, ..next }
    } else if c == '[' {
        if s.cell() == 0 {
            State { ip: close_of(code, s.ip) + 1, ..s }
        } else {
            next
        }
    } else if c == ']' {
        if s.cell() != 0 {
            State { ip: open_of(code, s.ip) + 1, ..s }
        } else {
            next
        }
    } else if c == '#' && s.debug {
        State {
            dumps: bump(s.dumps),
            output: s.output + cell_dump_text(bump(s.dumps), s.cell(), s.cursor),
            ..next
        }
    } else if c == '@' && s.debug {
        State { output: s.output + window_text(s.tape, s.cursor), ..next }
    } else {
        next
    }
}

/// The state after at most `n` instructions: the machine stops earlier where
/// it is blocked.
pub open spec fn run(code: Seq<char>, s: State, n: nat) -> State
    decreases n,
{
    if n == 0 || blocked(code, s) is Some {
        s
    } else {
        run(code, step(code, s), (n - 1) as nat)
    }
}

/// The status that describes a state: why it is blocked, or `Paused` if it is not.
pub open spec fn status_of(code: Seq<char>, s: State) -> Status {
    match blocked(code, s) {
        Some(status) => status,
        None => Status::Paused,
    }
}

/// Whether, and why, a machine that is handed keystrokes as it asks for them
/// cannot go on: it only waits for a key when none is left.
pub open spec fn fed_blocked(code: Seq<char>, s: State, keys: Seq<u8>) -> Option<Status> {
    match blocked(code, s) {
        Some(Status::NeedKey) => if keys.len() > 0 {
            None
        } else {
            Some(Status::NeedKey)
        },
        other => other,
    }
}

/// The next instruction of a machine that is handed keystrokes as it asks
/// for them: an input that finds no key waiting takes the next of `keys`.
pub open spec fn fed_step(code: Seq<char>, s: State, keys: Seq<u8>) -> (State, Seq<u8>) {
    if blocked(code, s) == Some(Status::NeedKey) {
        (step(code, State { key: Some(keys[0]), ..s }), keys.skip(1))
    } else {
        (step(code, s), keys)
    }
}

/// The state after at most `n` instructions, and the keystrokes left, of a
/// machine that is handed keystrokes as it asks for them.
pub open spec fn fed_run(code: Seq<char>, s: State, keys: Seq<u8>, n: nat) -> (State, Seq<u8>)
    decreases n,
{
    if n == 0 || fed_blocked(code, s, keys) is Some {
        (s, keys)
    } else {
        let (next, rest) = fed_step(code, s, keys);
        fed_run(code, next, rest, (n - 1) as nat)
    }
}

/// An instruction stream whose brackets pair up, with its jump table.
pub struct Program {
    code: Vec<char>,
    jumps: JumpTable,
}

impl View for Program {
    type V = Seq<char>;

    closed spec fn view(&self) -> Seq<char> {
        self.code@
    }
}

impl Program {
    #[verifier::type_invariant]
    spec fn linked(&self) -> bool {
        well_nested(self.code@) && self.jumps.links(self.code@)
    }


    /// Checks the brackets of `contents` and builds its jump table. The
    /// stream is refused exactly when it is not well nested.
    pub fn new(contents: &str) -> (r: Result<Program, Error>)
        ensures
            r is Ok <==> well_nested(contents@),
            r matches Ok(p) ==> p@ == contents@,
            r matches Err(e) ==> e == Error::UnbalancedBrackets,
    {
        let code = chars_of(contents);
        match match_brackets(&code) {
            Some(jumps) => Ok(Program { code, jumps }),
            None => Err(Error::UnbalancedBrackets),
        }
    }

    /// The number of symbols in the stream.
    pub fn len(&self) -> (n: usize)
        ensures
            n == self@.len(),
    {
        self.code.len()
    }

    /// The symbols of the stream, which is well nested.
    pub fn symbols(&self) -> (code: &Vec<char>)
        ensures
            code@ == self@,
            well_nested(self@),
    {
        proof {
            use_type_invariant(self);
        }
        &self.code
    }
}

/// A tape machine: the tape and cursor, which outlive one evaluation, and the
/// instruction pointer, debug counter, waiting keystroke and pending output.
pub struct Machine {
    /// The cells materialised so far.
    pub mem: Vec<u8>,
    /// The current tape index.
    pub cellptr: usize,
    /// The position of the next instruction.
    pub codeptr: usize,
    /// The cell dumps made so far.
    pub debug_count: u64,
    /// The keystroke waiting to be read, if any.
    pub key: Option<u8>,
    /// What the program has written and nobody has collected yet.
    pub output: String,
    /// Whether the debug symbols act.
    pub debug: bool,
    /// The greatest index the cursor may reach.
    pub mem_size: usize,
}

impl View for Machine {
    type V = State;

    open spec fn view(&self) -> State {
        State {
            tape: self.mem@,
            cursor: self.cellptr as int,
            ip: self.codeptr as int,
            dumps: self.debug_count,
            key: self.key,
            output: self.output@,
            debug: self.debug,
            limit: self.mem_size as int,
        }
    }
}

fn cell_char(v: u8) -> (c: char)
    ensures
        c == v as char,
{
    v as char
}

impl Machine {
    /// The cursor is on a materialised cell and within the configured range.
    pub open spec fn wf(&self) -> bool {
        self@.wf()
    }

    /// Tests whether the machine is well formed.
    pub fn is_wf(&self) -> (r: bool)
        ensures
            r == self.wf(),
    {
        self.cellptr < self.mem.len() && self.mem.len() - 1 <= self.mem_size
    }

    /// A fresh machine for a tape of the given capacity, its cursor at
    /// `ptr_offset`: a zeroed tape of `ptr_offset + 1` cells. An offset
    /// beyond the capacity is refused.
    pub fn new(debug: bool, mem_size: usize, ptr_offset: usize) -> (r: Result<Machine, Error>)
        requires
            ptr_offset < usize::MAX,
        ensures
            r is Ok <==> ptr_offset <= mem_size,
            r matches Ok(m) ==> m.wf() && m@ == initial(debug, mem_size, ptr_offset),
            r matches Err(e) ==> e == Error::OffsetTooLarge,
    {
        if ptr_offset > mem_size {
            return Err(Error::OffsetTooLarge);
        }
        let mut mem: Vec<u8> = Vec::new();
        let mut i: usize = 0;
        while i <= ptr_offset
            invariant
                i <= ptr_offset + 1,
                ptr_offset < usize::MAX,
                mem@.len() == i,
                forall|j: int| 0 <= j < i ==> mem@[j] == 0u8,
            decreases ptr_offset + 1 - i,
        {
            mem.push(0u8);
            i += 1;
        }
        let m = Machine {
            mem,
            cellptr: ptr_offset,
            codeptr: 0,
            debug_count: 0,
            key: None,
            output: String::new(),
            debug,
            mem_size,
        };
        assert(m@.tape =~= initial(debug, mem_size, ptr_offset).tape);
        Ok(m)
    }

    /// Whether, and why, the machine cannot execute its next instruction.
    pub fn status(&self, program: &Program) -> (r: Option<Status>)
        ensures
            r == blocked(program@, self@),
    {
        if self.codeptr >= program.code.len() {
            return Some(Status::Halted);
        }
        let c = program.code[self.codeptr];
        if c == '>' && self.cellptr >= self.mem_size {
            Some(Status::Fault(Error::OutOfBounds))
        } else if c == '<' && self.cellptr == 0 {
            Some(Status::Fault(Error::OutOfBounds))
        } else if c == ',' && self.key.is_none() {
            Some(Status::NeedKey)
        } else if !(c == '>' || c == '<' || c == '+' || c == '-' || c == '.' || c == ','
            || c == '[' || c == ']' || c == '#' || c == '@') {
            Some(Status::Fault(Error::InvalidCharacter(c)))
        } else {
            None
        }
    }

    fn dump_cell(&mut self)
        requires
            old(self).wf(),
        ensures
            final(self)@ == (State {
                dumps: bump(old(self)@.dumps),
                output: old(self)@.output + cell_dump_text(
                    bump(old(self)@.dumps),
                    old(self)@.cell(),
                    old(self)@.cursor,
                ),
                ..old(self)@
            }),
    {
        if self.debug_count < u64::MAX {
            self.debug_count += 1;
        }
        let v = self.mem[self.cellptr];
        self.output.append("\ndebug flag ");
        push_decimal(&mut self.output, self.debug_count as u128);
        self.output.append(" : ");
        self.output.push(cell_char(v));
        self.output.append(" ");
        push_decimal(&mut self.output, v as u128);
        self.output.append(" ");
        push_decimal(&mut self.output, self.cellptr as u128);
        self.output.append("\n");
        proof {
            let o = old(self)@.output;
            let c = bump(old(self)@.dumps);
            assert(self@.output =~= o + cell_dump_text(c, v, self.cellptr as int));
        }
    }

    fn dump_window(&mut self)
        requires
            old(self).wf(),
        ensures
            final(self)@ == (State {
                output: old(self)@.output + window_text(old(self)@.tape, old(self)@.cursor),
                ..old(self)@
            }),
    {
        let lo: usize = if self.cellptr >= WINDOW {
            self.cellptr - WINDOW
        } else {
            0
        };
        let hi: usize = if self.mem.len() - self.cellptr > WINDOW + 1 {
            self.cellptr + WINDOW + 1
        } else {
            self.mem.len()
        };
        self.output.append("\nwindow ");
        push_decimal(&mut self.output, lo as u128);
        self.output.append(" :");
        let ghost head = self.output@;
        let mut i: usize = lo;
        while i < hi
            invariant
                lo <= i <= hi <= self.mem.len(),
                self.output@ == head + cells_text(self.mem@, lo as int, i as int),
                self.mem == old(self).mem,
                self.cellptr == old(self).cellptr,
                self.codeptr == old(self).codeptr,
                self.debug_count == old(self).debug_count,
                self.key == old(self).key,
                self.debug == old(self).debug,
                self.mem_size == old(self).mem_size,
            decreases hi - i,
        {
            let ghost before = self.output@;
            self.output.append(" ");
            push_decimal(&mut self.output, self.mem[i] as u128);
            proof {
                assert(self.output@ =~= head + (cells_text(self.mem@, lo as int, i as int) + " "@
                    + digits(self.mem@[i as int] as nat)));
            }
            i += 1;
        }
        self.output.append("\n");
        proof {
            assert(self@.output =~= old(self)@.output + window_text(
                old(self)@.tape,
                old(self)@.cursor,
            ));
        }
    }

    /// Hands the machine the keystroke that its next input instruction reads.
    pub fn give_key(&mut self, key: u8)
        ensures
            final(self)@ == (State { key: Some(key), ..old(self)@ }),
    {
        self.key = Some(key);
    }

    /// Collects what the program has written since the last collection.
    pub fn take_output(&mut self) -> (out: String)
        ensures
            out@ == old(self)@.output,
            final(self)@ == (State { output: Seq::empty(), ..old(self)@ }),
    {
        let mut out = String::new();
        std::mem::swap(&mut self.output, &mut out);
        out
    }

    /// Makes the machine ready for another stream: the instruction pointer
    /// and the debug counter start over, the tape and the cursor stay.
    pub fn rewind(&mut self)
        ensures
            final(self)@ == (State { ip: 0, dumps: 0, ..old(self)@ }),
    {
        self.codeptr = 0;
        self.debug_count = 0;
    }

    /// Executes the next instruction of a machine that is not blocked.
    pub fn advance(&mut self, program: &Program)
        requires
            old(self).wf(),
            blocked(program@, old(self)@) is None,
        ensures
            final(self).wf(),
            final(self)@ == step(program@, old(self)@),
    {
        proof {
            use_type_invariant(program);
            assert(program@ == program.code@);
            assert(self.codeptr < program.code.len());
            lemma_links_partner(program.jumps, program.code@, self.codeptr as int);
        }
        let c = program.code[self.codeptr];
        if c == '>' {
            self.cellptr += 1;
            if self.cellptr == self.mem.len() {
                self.mem.push(0u8);
            }
            self.codeptr += 1;
        } else if c == '<' {
            self.cellptr -= 1;
            self.codeptr += 1;
        } else if c == '+' {
            let v = self.mem[self.cellptr];
            self.mem.set(self.cellptr, if v == 255 { 0 } else { v + 1 });
            self.codeptr += 1;
        } else if c == '-' {
            let v = self.mem[self.cellptr];
            self.mem.set(self.cellptr, if v == 0 { 255 } else { v - 1 });
            self.codeptr += 1;
        } else if c == '.' {
            let v = self.mem[self.cellptr];
            self.output.push(cell_char(v));
            self.codeptr += 1;
        } else if c == ',' {
            let k = self.key.unwrap();
            self.mem.set(self.cellptr, k);
            self.key = None;
            self.codeptr += 1;
        } else if c == '[' {
            if self.mem[self.cellptr] == 0 {
                self.codeptr = program.jumps.target(self.codeptr);
            }
            self.codeptr += 1;
        } else if c == ']' {
            if self.mem[self.cellptr] != 0 {
                self.codeptr = program.jumps.target(self.codeptr);
            }
            self.codeptr += 1;
        } else if c == '#' && self.debug {
            self.dump_cell();
            self.codeptr += 1;
        } else if c == '@' && self.debug {
            self.dump_window();
            self.codeptr += 1;
        } else {
            self.codeptr += 1;
        }
    }
}

/// Continues the evaluation of `program` on `machine` for at most `budget`
/// instructions, and says why it stopped. The machine stops early where it
/// halts, needs a keystroke or faults; a fault leaves the state as it was
/// in front of the failing instruction.
pub fn eval(program: &Program, machine: &mut Machine, budget: usize) -> (status: Status)
    requires
        old(machine).wf(),
    ensures
        final(machine).wf(),
        final(machine)@ == run(program@, old(machine)@, budget as nat),
        status == status_of(program@, final(machine)@),
{
    let mut left = budget;
    loop
        invariant
            machine.wf(),
            run(program@, machine@, left as nat) == run(program@, old(machine)@, budget as nat),
        decreases left,
    {
        match machine.status(program) {
            Some(status) => {
                return status;
            },
            None => {
                if left == 0 {
                    return Status::Paused;
                }
                machine.advance(program);
                left -= 1;
            },
        }
    }
}

/// The status that describes a machine that is handed keystrokes as it asks
/// for them: why it is blocked, or `Paused` if it is not.
pub open spec fn fed_status_of(code: Seq<char>, s: State, keys: Seq<u8>) -> Status {
    match fed_blocked(code, s, keys) {
        Some(status) => status,
        None => Status::Paused,
    }
}

/// Continues the evaluation of `program` on `machine` for at most `budget`
/// instructions, handing it the keystrokes of `keys` one by one as its
/// inputs ask for them. Says why it stopped and how many keystrokes were
/// taken.
pub fn eval_with_keys(program: &Program, machine: &mut Machine, keys: &[u8], budget: usize) -> (r:
    (Status, usize))
    requires
        old(machine).wf(),
    ensures
        final(machine).wf(),
        r.1 <= keys@.len(),
        (final(machine)@, keys@.skip(r.1 as int)) == fed_run(
            program@,
            old(machine)@,
            keys@,
            budget as nat,
        ),
        r.0 == fed_status_of(program@, final(machine)@, keys@.skip(r.1 as int)),
{
    let mut left = budget;
    let mut used: usize = 0;
    assert(keys@.skip(0) =~= keys@);
    loop
        invariant
            machine.wf(),
            used <= keys@.len(),
            fed_run(program@, machine@, keys@.skip(used as int), left as nat) == fed_run(
                program@,
                old(machine)@,
                keys@,
                budget as nat,
            ),
        decreases left,
    {
        match machine.status(program) {
            Some(Status::NeedKey) => {
                if used == keys.len() {
                    return (Status::NeedKey, used);
                }
                if left == 0 {
                    return (Status::Paused, used);
                }
                proof {
                    assert(keys@.skip(used as int)[0] == keys@[used as int]);
                    assert(keys@.skip(used as int).skip(1) =~= keys@.skip(used as int + 1));
                }
                machine.give_key(keys[used]);
                used += 1;
                machine.advance(program);
                left -= 1;
            },
            Some(status) => {
                return (status, used);
            },
            None => {
                if left == 0 {
                    return (Status::Paused, used);
                }
                machine.advance(program);
                left -= 1;
            },
        }
    }
}

/// Prepares the interpretation of `contents`: checks the configuration and
/// the brackets, builds the jump table, and sets up a zeroed tape with the
/// cursor at `ptr_offset`. Nothing is executed yet.
pub fn interpret(contents: &str, debug: bool, mem_size: usize, ptr_offset: usize) -> (r: Result<
    (Program, Machine),
    Error,
>)
    requires
        ptr_offset < usize::MAX,
    ensures
        r is Ok <==> ptr_offset <= mem_size && well_nested(contents@),
        r matches Ok((program, machine)) ==> {
            &&& program@ == contents@
            &&& machine.wf()
            &&& machine@ == initial(debug, mem_size, ptr_offset)
        },
        r matches Err(e) ==> e == (if ptr_offset > mem_size {
            Error::OffsetTooLarge
        } else {
            Error::UnbalancedBrackets
        }),
{
    match Machine::new(debug, mem_size, ptr_offset) {
        Ok(machine) => match Program::new(contents) {
            Ok(program) => Ok((program, machine)),
            Err(e) => Err(e),
        },
        Err(e) => Err(e),
    }
}

/// What the interactive loop does with a line.
pub enum Submission {
    /// The line is the command that ends the session.
    Quit,
    /// The line is a stream; the machine is ready to evaluate it.
    Run(Program),
    /// The line is refused; the machine is as it was.
    Refused(Error),
}

/// Decides what the interactive loop does with a line: `quit` ends the
/// session; any other line is filtered as source text is and, if its
/// brackets pair up, becomes the next stream for the machine, whose tape and
/// cursor carry over.
pub fn submit(machine: &mut Machine, line: &str, verbose: bool) -> (r: Submission)
    ensures
        line@ == "quit"@ ==> r is Quit && final(machine)@ == old(machine)@,
        line@ != "quit"@ && well_nested(kept(line@, verbose)) ==> {
            &&& r matches Submission::Run(program)
            &&& program@ == kept(line@, verbose)
            &&& final(machine)@ == (State { ip: 0, dumps: 0, ..old(machine)@ })
        },
        line@ != "quit"@ && !well_nested(kept(line@, verbose)) ==> {
            &&& r == Submission::Refused(Error::UnbalancedBrackets)
            &&& final(machine)@ == old(machine)@
        },
{
    let typed = chars_of(line);
    if text_is(&typed, typed.len(), "quit") {
        assert(typed@.take(typed.len() as int) == typed@);
        return Submission::Quit;
    }
    assert(typed@.take(typed.len() as int) == typed@);
    match get_code(line, verbose) {
        Err(e) => Submission::Refused(e),
        Ok(code) => match Program::new(code.as_str()) {
            Err(e) => Submission::Refused(e),
            Ok(program) => {
                machine.rewind();
                Submission::Run(program)
            },
        },
    }
}

} // verus!
