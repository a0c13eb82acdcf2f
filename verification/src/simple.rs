//! Streams without loops other than the loops that clear a cell: the tape
//! machine does to the store what their symbols are said to do.
use vstd::prelude::*;
use crate::brackets::{depth, lemma_well_nested_concat, well_nested};
use crate::effect::{act, effect, lemma_effect_push, lemma_effect_single, refines, Outcome, Store};
use crate::error::Error;
use crate::machine::{State, Status};
use crate::optimizer::{sym_of, Sym};
use crate::runs::{
    rationed_blocked, rationed_step, Feed, end_of, exact_run, feed_of, lemma_exact_compose,
    lemma_exact_steady, lemma_exact_stop_unique, lemma_run_within, lemma_step_within, moved,
    steady, store_of,
};
use crate::simulation::{
    cut_short, echoes, faulted, follows_back, stopped, akin, answers, finished, follows,
    lemma_loop_partners, looped, restart, simulates,
};

verus! {

/// The characters that a symbol is written with; the clear-cell symbol is
/// written as the loop that counts the cell down to zero.
pub open spec fn sym_chars(c: Sym) -> Seq<char> {
    match c {
        Sym::Right => seq!['>'],
        Sym::Left => seq!['<'],
        Sym::Inc => seq!['+'],
        Sym::Dec => seq!['-'],
        Sym::Out => seq!['.'],
        Sym::In => seq![','],
        Sym::Open => seq!['['],
        Sym::Close => seq![']'],
        Sym::Dump => seq!['#'],
        Sym::Window => seq!['@'],
        Sym::Clear => looped(seq!['-']),
    }
}

/// A stream of symbols, written in characters.
pub open spec fn written(s: Seq<Sym>) -> Seq<char>
    decreases s.len(),
{
    if s.len() == 0 {
        Seq::empty()
    } else {
        written(s.drop_last()) + sym_chars(s.last())
    }
}

/// The stream holds no loop marker.
pub open spec fn simple(s: Seq<Sym>) -> bool {
    forall|i: int| 0 <= i < s.len() ==> #[trigger] s[i] != Sym::Open && s[i] != Sym::Close
}

/// Writing two streams in a row.
pub proof fn lemma_written_concat(a: Seq<Sym>, b: Seq<Sym>)
    ensures
        written(a + b) == written(a) + written(b),
    decreases b.len(),
{
    if b.len() == 0 {
        assert(a + b =~= a);
        assert(written(a) + written(b) =~= written(a));
    } else {
        assert((a + b).drop_last() =~= a + b.drop_last());
        lemma_written_concat(a, b.drop_last());
        assert(written(a + b) =~= written(a) + written(b));
    }
}

/// Writing a stream of one symbol.
pub proof fn lemma_written_single(c: Sym)
    ensures
        written(seq![c]) == sym_chars(c),
{
    assert(seq![c].drop_last() =~= Seq::<Sym>::empty());
    reveal_with_fuel(written, 2);
    assert(Seq::<char>::empty() + sym_chars(c) =~= sym_chars(c));
}

/// One character that is no loop marker is well nested.
pub proof fn lemma_well_nested_char(c: char)
    requires
        c != '[',
        c != ']',
    ensures
        well_nested(seq![c]),
{
    reveal_with_fuel(depth, 2);
}

/// What a symbol other than a loop marker is written with is well nested.
pub proof fn lemma_sym_chars_well_nested(c: Sym)
    requires
        c != Sym::Open,
        c != Sym::Close,
    ensures
        well_nested(sym_chars(c)),
{
    if c == Sym::Clear {
        lemma_well_nested_char('-');
        lemma_loop_partners(seq!['-']);
    } else {
        lemma_well_nested_char(sym_chars(c)[0]);
        assert(sym_chars(c) =~= seq![sym_chars(c)[0]]);
    }
}

/// A stream without loop markers is written as a well-nested stream.
pub proof fn lemma_written_well_nested(s: Seq<Sym>)
    requires
        simple(s),
    ensures
        well_nested(written(s)),
    decreases s.len(),
{
    if s.len() > 0 {
        lemma_written_well_nested(s.drop_last());
        lemma_sym_chars_well_nested(s.last());
        lemma_well_nested_concat(written(s.drop_last()), sym_chars(s.last()));
    }
}

/// The character is an instruction and no loop marker.
pub open spec fn plain_char(c: char) -> bool {
    sym_of(c) is Some && c != '[' && c != ']'
}

/// One instruction of the machine does what its symbol does to the store.
pub proof fn lemma_step_acts(code: Seq<char>, s: State, feed: Feed)
    requires
        steady(s),
        0 <= s.ip < code.len(),
        plain_char(code[s.ip]),
    ensures
        match act(sym_of(code[s.ip])->0, store_of(s, feed)) {
            Outcome::Done(st) => {
                &&& rationed_blocked(code, s, feed) is None
                &&& store_of(rationed_step(code, s, feed).0, rationed_step(code, s, feed).1) == st
                &&& rationed_step(code, s, feed).0.ip == s.ip + 1
            },
            Outcome::Stalled(o) => rationed_blocked(code, s, feed) == Some(Status::NeedKey) && o
                == s.output,
            Outcome::Cut(st) => cut_short(code, s, feed) && st == store_of(s, feed),
            Outcome::Failed => rationed_blocked(code, s, feed) == Some(
                Status::Fault(Error::OutOfBounds),
            ),
        },
{
    let c = code[s.ip];
    let st0 = store_of(s, feed);
    match act(sym_of(c)->0, st0) {
        Outcome::Done(st) => {
            let (t, rest) = rationed_step(code, s, feed);
            assert(store_of(t, rest).cells =~= st.cells);
        },
        _ => {},
    }
}

/// The loop that counts a cell up, or down, to zero.
pub open spec fn clear_loop(up: bool) -> Seq<char> {
    looped(
        seq![if up {
            '+'
        } else {
            '-'
        }],
    )
}

/// The state behind a clear loop: the cell is zero, all else is as it was.
pub open spec fn cleared(s: State) -> State {
    State { ip: 3, tape: s.tape.update(s.cursor, 0u8), ..s }
}

/// From inside a clear loop, with a cell that is not zero, the machine
/// comes to stand behind the loop with the cell at zero.
proof fn lemma_clear_loop_body(up: bool, s: State, feed: Feed) -> (n: nat)
    requires
        steady(s),
        s.ip == 1,
        s.cell() != 0,
    ensures
        exact_run(clear_loop(up), s, feed, n) == Some((cleared(s), feed)),
    decreases
            (if up {
                256 - s.cell()
            } else {
                s.cell() as int
            }),
{
    let code = clear_loop(up);
    lemma_well_nested_char(if up {
        '+'
    } else {
        '-'
    });
    lemma_loop_partners(seq![if up {
        '+'
    } else {
        '-'
    }]);
    assert(code.len() == 3);
    assert(code[1] == (if up {
        '+'
    } else {
        '-'
    }));
    assert(code[2] == ']');
    let (s1, k1) = rationed_step(code, s, feed);
    let (s2, k2) = rationed_step(code, s1, k1);
    assert(exact_run(code, s, feed, 2) == Some((s2, k2))) by {
        reveal_with_fuel(exact_run, 3);
    }
    if s1.cell() == 0 {
        assert(s2.tape =~= cleared(s).tape);
        2
    } else {
        let m = lemma_clear_loop_body(up, s2, feed);
        lemma_exact_compose(code, s, feed, 2, m);
        assert(cleared(s2).tape =~= cleared(s).tape);
        2 + m
    }
}

/// From the start of a clear loop the machine comes to stand behind the
/// loop with the cell at zero.
pub proof fn lemma_clear_loop(up: bool, s: State, feed: Feed) -> (n: nat)
    requires
        steady(s),
        s.ip == 0,
    ensures
        exact_run(clear_loop(up), s, feed, n) == Some((cleared(s), feed)),
{
    let code = clear_loop(up);
    lemma_well_nested_char(if up {
        '+'
    } else {
        '-'
    });
    lemma_loop_partners(seq![if up {
        '+'
    } else {
        '-'
    }]);
    assert(code.len() == 3);
    assert(code[0] == '[');
    let (s1, k1) = rationed_step(code, s, feed);
    assert(exact_run(code, s, feed, 1) == Some((s1, k1))) by {
        reveal_with_fuel(exact_run, 2);
    }
    if s.cell() == 0 {
        assert(s1.tape =~= cleared(s).tape);
        1
    } else {
        let m = lemma_clear_loop_body(up, s1, feed);
        lemma_exact_compose(code, s, feed, 1, m);
        1 + m
    }
}

/// The machine on `code` has ended in `e` as the outcome says: at the end
/// of the stream with the store of a done outcome, waiting for a keystroke
/// with the output of a stalled one, cut short with the store of a cut one,
/// or faulted for a failed one.
pub open spec fn realizes(code: Seq<char>, e: State, ke: Feed, o: Outcome) -> bool {
    match o {
        Outcome::Done(st) => e.ip == code.len() && store_of(e, ke) == st,
        Outcome::Stalled(out) => rationed_blocked(code, e, ke) == Some(Status::NeedKey) && e.output
            == out,
        Outcome::Cut(st) => cut_short(code, e, ke) && store_of(e, ke) == st,
        Outcome::Failed => faulted(code, e, ke),
    }
}

/// The machine does what one symbol is said to do.
pub proof fn lemma_symbol_run(c: Sym, s: State, feed: Feed) -> (n: nat)
    requires
        steady(s),
        s.ip == 0,
        c != Sym::Open,
        c != Sym::Close,
    ensures
        exact_run(sym_chars(c), s, feed, n) is Some,
        realizes(
            sym_chars(c),
            end_of(sym_chars(c), s, feed, n),
            feed_of(sym_chars(c), s, feed, n),
            act(c, store_of(s, feed)),
        ),
{
    let code = sym_chars(c);
    if c == Sym::Clear {
        let n = lemma_clear_loop(false, s, feed);
        assert(store_of(cleared(s), feed).cells =~= store_of(s, feed).with_cell(0).cells);
        n
    } else {
        assert(code.len() == 1);
        assert(sym_of(code[0]) == Some(c));
        lemma_step_acts(code, s, feed);
        match act(c, store_of(s, feed)) {
            Outcome::Done(st) => {
                assert(exact_run(code, s, feed, 1) == Some(rationed_step(code, s, feed))) by {
                    reveal_with_fuel(exact_run, 2);
                }
                1
            },
            _ => 0,
        }
    }
}

/// The machine does what a stream without loop markers is said to do.
pub proof fn lemma_simple_run(syms: Seq<Sym>, s: State, feed: Feed) -> (n: nat)
    requires
        steady(s),
        s.ip == 0,
        simple(syms),
    ensures
        exact_run(written(syms), s, feed, n) is Some,
        realizes(
            written(syms),
            end_of(written(syms), s, feed, n),
            feed_of(written(syms), s, feed, n),
            effect(syms, store_of(s, feed)),
        ),
    decreases syms.len(),
{
    if syms.len() == 0 {
        0
    } else {
        let none = Seq::<char>::empty();
        let front = syms.drop_last();
        let c = syms.last();
        let head = written(front);
        let tail = sym_chars(c);
        let code = written(syms);
        assert(none + head + tail =~= code);
        assert(head + tail + none =~= code);
        assert(syms =~= front.push(c));
        lemma_effect_push(front, c, store_of(s, feed));
        lemma_written_well_nested(front);
        lemma_sym_chars_well_nested(c);
        assert(moved(s, 0) == s);
        let n1 = lemma_simple_run(front, s, feed);
        let e1 = end_of(head, s, feed, n1);
        let k1 = feed_of(head, s, feed, n1);
        lemma_run_within(none, head, tail, s, feed, n1);
        lemma_exact_steady(head, s, feed, n1);
        assert(moved(e1, 0) == e1);
        match effect(front, store_of(s, feed)) {
            Outcome::Done(mid) => {
                let e0 = restart(e1);
                assert(moved(e0, head.len() as int) == e1);
                assert(store_of(e0, k1) == mid);
                lemma_effect_single(c, mid);
                let n2 = lemma_symbol_run(c, e0, k1);
                let e2 = end_of(tail, e0, k1, n2);
                let k2 = feed_of(tail, e0, k1, n2);
                lemma_run_within(head, tail, none, e0, k1, n2);
                lemma_exact_compose(code, s, feed, n1, n2);
                if e2.ip < tail.len() {
                    lemma_step_within(head, tail, none, e2, k2);
                }
                n1 + n2
            },
            _ => {
                lemma_step_within(none, head, tail, e1, k1);
                n1
            },
        }
    }
}

/// Whatever the store, `b` does what `a` does, unless `a` fails.
pub open spec fn always_refines(a: Seq<Sym>, b: Seq<Sym>) -> bool {
    forall|st: Store| st.wf() ==> refines(#[trigger] effect(a, st), effect(b, st))
}

/// Of two streams without loop markers, the second does on the machine what
/// the first does if its symbols are said to do what those of the first do.
pub proof fn lemma_simple_simulates(a: Seq<Sym>, b: Seq<Sym>)
    requires
        simple(a),
        simple(b),
        always_refines(a, b),
    ensures
        simulates(written(a), written(b)),
{
    let x = written(a);
    let y = written(b);
    lemma_written_well_nested(a);
    lemma_written_well_nested(b);
    assert forall|s: State, t: State, feed: Feed, n: nat| #[trigger]
        follows(x, y, s, t, feed, n) by {
        if akin(s, t, feed) && s.ip == 0 && exact_run(x, s, feed, n) is Some && finished(
            x,
            end_of(x, s, feed, n),
            feed_of(x, s, feed, n),
        ) {
            let st = store_of(s, feed);
            assert(st.wf());
            let n0 = lemma_simple_run(a, s, feed);
            lemma_exact_stop_unique(x, s, feed, n, n0);
            assert(refines(effect(a, st), effect(b, st)));
            let m = lemma_simple_run(b, t, feed);
            assert(answers(x, end_of(x, s, feed, n), feed_of(x, s, feed, n), y, t, feed, m));
        }
    }    assert forall|s: State, t: State, feed: Feed, m: nat| #[trigger]
        follows_back(x, y, s, t, feed, m) by {
        if akin(s, t, feed) && s.ip == 0 && exact_run(y, t, feed, m) is Some && stopped(
            y,
            end_of(y, t, feed, m),
            feed_of(y, t, feed, m),
        ) {
            let st = store_of(s, feed);
            assert(st.wf());
            let m0 = lemma_simple_run(b, t, feed);
            lemma_exact_stop_unique(y, t, feed, m, m0);
            assert(refines(effect(a, st), effect(b, st)));
            let n = lemma_simple_run(a, s, feed);
            assert(echoes(y, end_of(y, t, feed, m), feed_of(y, t, feed, m), x, s, feed, n));
        }
    }
}


/// The loop that counts a cell up to zero does what the loop that counts it
/// down does.
pub proof fn lemma_clear_loops_simulate(up: bool)
    ensures
        simulates(clear_loop(up), clear_loop(false)),
{
    let x = clear_loop(up);
    let y = clear_loop(false);
    lemma_well_nested_char('+');
    lemma_well_nested_char('-');
    lemma_loop_partners(seq!['+']);
    lemma_loop_partners(seq!['-']);
    assert forall|s: State, t: State, feed: Feed, n: nat| #[trigger]
        follows(x, y, s, t, feed, n) by {
        if akin(s, t, feed) && s.ip == 0 && exact_run(x, s, feed, n) is Some && finished(
            x,
            end_of(x, s, feed, n),
            feed_of(x, s, feed, n),
        ) {
            let n0 = lemma_clear_loop(up, s, feed);
            lemma_exact_stop_unique(x, s, feed, n, n0);
            let m = lemma_clear_loop(false, t, feed);
            assert(store_of(cleared(s), feed).cells =~= store_of(cleared(t), feed).cells) by {
                assert(store_of(s, feed).cells =~= store_of(t, feed).cells);
                assert forall|i: int|
                    store_of(cleared(s), feed).cells[i] == store_of(cleared(t), feed).cells[i] by {
                    assert(store_of(s, feed).cells[i] == store_of(t, feed).cells[i]);
                }
            }
            assert(answers(x, end_of(x, s, feed, n), feed_of(x, s, feed, n), y, t, feed, m));
        }
    }    assert forall|s: State, t: State, feed: Feed, m: nat| #[trigger]
        follows_back(x, y, s, t, feed, m) by {
        if akin(s, t, feed) && s.ip == 0 && exact_run(y, t, feed, m) is Some && stopped(
            y,
            end_of(y, t, feed, m),
            feed_of(y, t, feed, m),
        ) {
            let m0 = lemma_clear_loop(false, t, feed);
            lemma_exact_stop_unique(y, t, feed, m, m0);
            let n = lemma_clear_loop(up, s, feed);
            assert(store_of(cleared(s), feed).cells =~= store_of(cleared(t), feed).cells) by {
                assert(store_of(s, feed).cells =~= store_of(t, feed).cells);
                assert forall|i: int|
                    store_of(cleared(s), feed).cells[i] == store_of(cleared(t), feed).cells[i] by {
                    assert(store_of(s, feed).cells[i] == store_of(t, feed).cells[i]);
                }
            }
            assert(echoes(y, end_of(y, t, feed, m), feed_of(y, t, feed, m), x, s, feed, n));
        }
    }
}


} // verus!
