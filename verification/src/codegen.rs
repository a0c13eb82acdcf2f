//! The code generator: it walks the optimized stream and emits a C program
//! that behaves as the stream does.
use vstd::prelude::*;
use crate::args::Args;
use crate::error::Error;
use crate::optimizer::{all_known, first_unknown, optimize, optimized, Token};
use crate::text::{digits, push_decimal};

verus! {

/// The absolute value of a signed amount.
pub open spec fn magnitude(k: i128) -> nat {
    if k >= 0 {
        k as nat
    } else {
        (-k) as nat
    }
}

/// `text` written `n` times in a row.
pub open spec fn repeated(text: Seq<char>, n: nat) -> Seq<char>
    decreases n,
{
    if n == 0 {
        Seq::empty()
    } else {
        repeated(text, (n - 1) as nat) + text
    }
}

/// The head of every generated program: the keystroke helper, then the tape
/// of `mem` zeroed cells and the pointer that starts `offset` cells into it.
pub open spec fn preamble(mem: usize, offset: usize) -> Seq<char> {
    "#include <stdio.h>\n#include <termios.h>\n\nint getch() {\n    struct termios old, new;\n    int ch;\n    tcgetattr(0, &old);\n    new = old;\n    new.c_lflag &= ~ICANON;\n    new.c_lflag &= ~ECHO;\n    tcsetattr(0, TCSANOW, &new);\n    ch = getchar();\n    tcsetattr(0, TCSANOW, &old);\n    return ch;\n}\n\nint main() {\n    char mem["@
        + digits(mem as nat) + "] = {0};\n    char* ptr = mem + "@ + digits(offset as nat)
        + ";\n\n"@
}

/// The declaration of the debug counter, present in debug mode only.
pub open spec fn debug_counter(debug: bool) -> Seq<char> {
    if debug {
        "\tunsigned int debug_count = 0;\n"@
    } else {
        Seq::empty()
    }
}

/// The tail of every generated program.
pub open spec fn postamble() -> Seq<char> {
    "\treturn 0;\n}\n"@
}

/// The statement that one token becomes. The debug tokens become nothing
/// unless debug mode is requested.
pub open spec fn statement(t: Token, debug: bool, mem: usize) -> Seq<char> {
    match t {
        Token::Move(k) => if k >= 0 {
            "\tptr += "@ + digits(magnitude(k)) + ";\n"@
        } else {
            "\tptr -= "@ + digits(magnitude(k)) + ";\n"@
        },
        Token::Add(d) => if d >= 0 {
            "\t*ptr += "@ + digits(magnitude(d)) + ";\n"@
        } else {
            "\t*ptr -= "@ + digits(magnitude(d)) + ";\n"@
        },
        Token::Assign(v) => "\t*ptr = "@ + digits(v as nat) + ";\n"@,
        Token::Input(n) => repeated("\t*ptr = getch();\n"@, n as nat),
        Token::Output => "\tprintf(\"%c\", *ptr);\n"@,
        Token::LoopOpen => "\twhile (*ptr) {\n"@,
        Token::LoopClose => "\t}\n"@,
        Token::CellDump => if debug {
            "\tdebug_count += 1;printf(\"\\ndebug flag %d : %c, %d, %ld\\n\", debug_count, *ptr, *ptr, ptr-mem);\n"@
        } else {
            Seq::empty()
        },
        Token::WindowDump => if debug {
            "\t{ long at = ptr - mem; long lo = at > 5 ? at - 5 : 0; printf(\"\\nwindow %ld :\", lo); for (long i = lo; i <= at + 5 && i < "@
                + digits(mem as nat)
                + "; i++) printf(\" %d\", (unsigned char) mem[i]); printf(\"\\n\"); }\n"@
        } else {
            Seq::empty()
        },
    }
}

/// The statements of a token stream, one after the other.
pub open spec fn statements(tokens: Seq<Token>, debug: bool, mem: usize) -> Seq<char>
    decreases tokens.len(),
{
    if tokens.len() == 0 {
        Seq::empty()
    } else {
        statements(tokens.drop_last(), debug, mem) + statement(tokens.last(), debug, mem)
    }
}

/// The whole generated program.
pub open spec fn program_text(tokens: Seq<Token>, debug: bool, mem: usize, offset: usize) -> Seq<
    char,
> {
    preamble(mem, offset) + debug_counter(debug) + statements(tokens, debug, mem) + postamble()
}

fn amount(k: i128) -> (m: u128)
    ensures
        m == magnitude(k),
{
    if k >= 0 {
        k as u128
    } else {
        (-(k + 1)) as u128 + 1
    }
}

/// Appends the statement of one token to `out`.
fn emit(out: &mut String, t: &Token, debug: bool, mem: usize)
    ensures
        final(out)@ == old(out)@ + statement(*t, debug, mem),
{
    match t {
        Token::Move(k) => {
            if *k >= 0 {
                out.append("\tptr += ");
            } else {
                out.append("\tptr -= ");
            }
            push_decimal(out, amount(*k));
            out.append(";\n");
        },
        Token::Add(d) => {
            if *d >= 0 {
                out.append("\t*ptr += ");
            } else {
                out.append("\t*ptr -= ");
            }
            push_decimal(out, amount(*d));
            out.append(";\n");
        },
        Token::Assign(v) => {
            out.append("\t*ptr = ");
            push_decimal(out, *v as u128);
            out.append(";\n");
        },
        Token::Input(n) => {
            let mut i: usize = 0;
            while i < *n
                invariant
                    i <= *n,
                    out@ == old(out)@ + repeated("\t*ptr = getch();\n"@, i as nat),
                decreases *n - i,
            {
                out.append("\t*ptr = getch();\n");
                i += 1;
                assert(out@ =~= old(out)@ + repeated("\t*ptr = getch();\n"@, i as nat));
            }
        },
        Token::Output => {
            out.append("\tprintf(\"%c\", *ptr);\n");
        },
        Token::LoopOpen => {
            out.append("\twhile (*ptr) {\n");
        },
        Token::LoopClose => {
            out.append("\t}\n");
        },
        Token::CellDump => {
            if debug {
                out.append(
                    "\tdebug_count += 1;printf(\"\\ndebug flag %d : %c, %d, %ld\\n\", debug_count, *ptr, *ptr, ptr-mem);\n",
                );
            }
        },
        Token::WindowDump => {
            if debug {
                out.append(
                    "\t{ long at = ptr - mem; long lo = at > 5 ? at - 5 : 0; printf(\"\\nwindow %ld :\", lo); for (long i = lo; i <= at + 5 && i < ",
                );
                push_decimal(out, mem as u128);
                out.append("; i++) printf(\" %d\", (unsigned char) mem[i]); printf(\"\\n\"); }\n");
            }
        },
    }
    assert(out@ =~= old(out)@ + statement(*t, debug, mem));
}

/// Emits the C program of an optimized stream: the preamble for a tape of
/// `mem` cells with the pointer at `offset`, one statement per token, and the
/// postamble.
pub fn generate(tokens: &Vec<Token>, debug: bool, mem: usize, offset: usize) -> (text: String)
    ensures
        text@ == program_text(tokens@, debug, mem, offset),
{
    let mut text = String::from_str(
        "#include <stdio.h>\n#include <termios.h>\n\nint getch() {\n    struct termios old, new;\n    int ch;\n    tcgetattr(0, &old);\n    new = old;\n    new.c_lflag &= ~ICANON;\n    new.c_lflag &= ~ECHO;\n    tcsetattr(0, TCSANOW, &new);\n    ch = getchar();\n    tcsetattr(0, TCSANOW, &old);\n    return ch;\n}\n\nint main() {\n    char mem[",
    );
    push_decimal(&mut text, mem as u128);
    text.append("] = {0};\n    char* ptr = mem + ");
    push_decimal(&mut text, offset as u128);
    text.append(";\n\n");
    if debug {
        text.append("\tunsigned int debug_count = 0;\n");
    }
    let ghost head = text@;
    assert(head =~= preamble(mem, offset) + debug_counter(debug));
    let mut i: usize = 0;
    while i < tokens.len()
        invariant
            i <= tokens.len(),
            text@ == head + statements(tokens@.take(i as int), debug, mem),
        decreases tokens.len() - i,
    {
        proof {
            assert(tokens@.take(i as int + 1).drop_last() == tokens@.take(i as int));
        }
        emit(&mut text, &tokens[i], debug, mem);
        i += 1;
        assert(text@ =~= head + statements(tokens@.take(i as int), debug, mem));
    }
    assert(tokens@.take(tokens.len() as int) == tokens@);
    text.append("\treturn 0;\n}\n");
    assert(text@ =~= program_text(tokens@, debug, mem, offset));
    text
}

/// Translates an instruction stream into a C program: optimizes it, then
/// generates the code. A character outside the alphabet aborts the
/// translation and is reported.
pub fn translate(contents: &str, debug: bool, mem: usize, offset: usize) -> (r: Result<
    String,
    Error,
>)
    ensures
        r is Ok <==> all_known(contents@),
        r matches Ok(text) ==> text@ == program_text(optimized(contents@), debug, mem, offset),
        r matches Err(e) ==> exists|i: int|
            first_unknown(contents@, i) && e == Error::InvalidCharacter(contents@[i]),
{
    match optimize(contents) {
        Ok(tokens) => Ok(generate(&tokens, debug, mem, offset)),
        Err(e) => Err(e),
    }
}

/// Produces the C program for `contents` under the given options: release
/// mode generates no debug code, even in debug mode.
pub fn compile(contents: &str, args: &Args) -> (r: Result<String, Error>)
    ensures
        r is Ok <==> all_known(contents@),
        r matches Ok(text) ==> text@ == program_text(
            optimized(contents@),
            args.debug && !args.release,
            args.mem_size,
            args.offset,
        ),
        r matches Err(e) ==> exists|i: int|
            first_unknown(contents@, i) && e == Error::InvalidCharacter(contents@[i]),
{
    translate(contents, args.debug && !args.release, args.mem_size, args.offset)
}

} // verus!
