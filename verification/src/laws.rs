//! Laws of the tape machine that hold of every stream and every state.
use vstd::prelude::*;
use crate::error::Error;
use crate::machine::{blocked, run, step, State, Status};

verus! {

/// The cell value after `k` increments of `v`.
pub open spec fn raised(v: u8, k: nat) -> u8 {
    ((v + k) % 256) as u8
}

/// A row of `k` increments adds `k` to the current cell modulo 256 and
/// changes nothing else but the instruction pointer.
pub proof fn law_increments_add_modulo_256(code: Seq<char>, s: State, k: nat)
    requires
        s.wf(),
        0 <= s.ip,
        s.ip + k <= code.len(),
        forall|i: int| s.ip <= i < s.ip + k ==> code[i] == '+',
    ensures
        run(code, s, k) == (State {
            ip: s.ip + k,
            tape: s.tape.update(s.cursor, raised(s.cell(), k)),
            ..s
        }),
    decreases k,
{
    if k == 0 {
        assert(s.tape.update(s.cursor, raised(s.cell(), 0)) =~= s.tape);
    } else {
        assert(code[s.ip] == '+');
        let next = step(code, s);
        law_increments_add_modulo_256(code, next, (k - 1) as nat);
        assert(raised(next.cell(), (k - 1) as nat) == raised(s.cell(), k));
        assert(next.tape.update(next.cursor, raised(next.cell(), (k - 1) as nat)) =~= s.tape.update(
            s.cursor,
            raised(s.cell(), k),
        ));
    }
}

/// Cell arithmetic wraps: 256 increments in a row leave every cell, a zero
/// cell among them, at the value it had.
pub proof fn law_256_increments_wrap(code: Seq<char>, s: State)
    requires
        s.wf(),
        0 <= s.ip,
        s.ip + 256 <= code.len(),
        forall|i: int| s.ip <= i < s.ip + 256 ==> code[i] == '+',
    ensures
        run(code, s, 256) == (State { ip: s.ip + 256, ..s }),
{
    law_increments_add_modulo_256(code, s, 256);
    assert(s.tape.update(s.cursor, raised(s.cell(), 256)) =~= s.tape);
}

/// A move to the left of the first cell, or to the right of the greatest
/// index, is a bounds fault: the machine is blocked on it and stays as it
/// is however long it is run, so it writes nothing further.
pub proof fn law_move_out_of_range_faults(code: Seq<char>, s: State, n: nat)
    requires
        0 <= s.ip < code.len(),
        (code[s.ip] == '<' && s.cursor == 0) || (code[s.ip] == '>' && s.cursor == s.limit),
    ensures
        blocked(code, s) == Some(Status::Fault(Error::OutOfBounds)),
        run(code, s, n) == s,
        run(code, s, n).output == s.output,
{
}

} // verus!
