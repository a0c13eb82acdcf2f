//! What a stream without loops does to the tape, the keystrokes and the
//! output, stated as one function, and the proof that neither phase of the
//! optimizer changes it.
use vstd::prelude::*;
use crate::machine::{decr, incr};
use crate::optimizer::{
    cancels, cell_after, closes_idiom, coalesced, emitted, feed, gathered, normal_form, plain,
    Gathered, Pending, Sym, Token,
};

verus! {

/// What a stream works on: the cells of the tape (every cell that was never
/// written holds zero), the cursor, the keystrokes still to be typed, the
/// output written so far, the greatest index the cursor may reach, and, if
/// the output is rationed, how many characters may still be written.
pub struct Store {
    pub cells: Map<int, u8>,
    pub cursor: int,
    pub keys: Seq<u8>,
    pub output: Seq<char>,
    pub limit: int,
    pub room: Option<nat>,
}

/// The ration of output after one more character is written.
pub open spec fn less_room(room: Option<nat>) -> Option<nat> {
    match room {
        Some(n) => Some((n - 1) as nat),
        None => None,
    }
}

impl Store {
    /// Every cell has a value, and the cursor is within the configured range.
    pub open spec fn wf(self) -> bool {
        &&& self.cells.dom() == Set::<int>::full()
        &&& 0 <= self.cursor <= self.limit
    }

    /// The cell under the cursor.
    pub open spec fn cell(self) -> u8 {
        self.cells[self.cursor]
    }

    /// The store with the cell under the cursor overwritten.
    pub open spec fn with_cell(self, v: u8) -> Store {
        Store { cells: self.cells.insert(self.cursor, v), ..self }
    }
}

/// How the execution of a stream ends.
pub enum Outcome {
    /// Every symbol was executed.
    Done(Store),
    /// An input found no keystroke left; this is the output written before it.
    Stalled(Seq<char>),
    /// An output found the ration of output used up; this is the store in
    /// front of it.
    Cut(Store),
    /// A move left the legal range of the tape, or a loop marker was met.
    Failed,
}

/// What one symbol does. Debug symbols do nothing: debug mode is off.
pub open spec fn act(c: Sym, st: Store) -> Outcome {
    match c {
        Sym::Right => if st.cursor >= st.limit {
            Outcome::Failed
        } else {
            Outcome::Done(Store { cursor: st.cursor + 1, ..st })
        },
        Sym::Left => if st.cursor <= 0 {
            Outcome::Failed
        } else {
            Outcome::Done(Store { cursor: st.cursor - 1, ..st })
        },
        Sym::Inc => Outcome::Done(st.with_cell(incr(st.cell()))),
        Sym::Dec => Outcome::Done(st.with_cell(decr(st.cell()))),
        Sym::Clear => Outcome::Done(st.with_cell(0)),
        Sym::Out => if st.room == Some(0nat) {
            Outcome::Cut(st)
        } else {
            Outcome::Done(
                Store {
                    output: st.output.push(st.cell() as char),
                    room: less_room(st.room),
                    ..st
                },
            )
        },
        Sym::In => if st.keys.len() == 0 {
            Outcome::Stalled(st.output)
        } else {
            Outcome::Done(Store { keys: st.keys.skip(1), ..st.with_cell(st.keys[0]) })
        },
        Sym::Dump => Outcome::Done(st),
        Sym::Window => Outcome::Done(st),
        Sym::Open => Outcome::Failed,
        Sym::Close => Outcome::Failed,
    }
}

/// What a stream of symbols does, one symbol after the other; a stall, a
/// cut or a failure ends the execution.
pub open spec fn effect(s: Seq<Sym>, st: Store) -> Outcome
    decreases s.len(),
{
    if s.len() == 0 {
        Outcome::Done(st)
    } else {
        match effect(s.drop_last(), st) {
            Outcome::Done(mid) => act(s.last(), mid),
            other => other,
        }
    }
}

/// The outcome `first`, continued with the stream `s` where it is done.
pub open spec fn then(first: Outcome, s: Seq<Sym>) -> Outcome {
    match first {
        Outcome::Done(mid) => effect(s, mid),
        other => other,
    }
}

/// The outcome `tgt` is as good as `src`: where `src` is done, stalled or
/// cut, `tgt` is the same; where `src` failed, nothing is asked of `tgt`.
pub open spec fn refines(src: Outcome, tgt: Outcome) -> bool {
    src is Failed || src == tgt
}

/// A done outcome of a well-formed store is well formed.
pub open spec fn sound(o: Outcome) -> bool {
    o matches Outcome::Done(st) ==> st.wf()
}

/// The effect of two streams in a row is the effect of the second on the
/// outcome of the first.
pub proof fn lemma_effect_concat(a: Seq<Sym>, b: Seq<Sym>, st: Store)
    ensures
        effect(a + b, st) == then(effect(a, st), b),
    decreases b.len(),
{
    if b.len() == 0 {
        assert(a + b =~= a);
    } else {
        assert((a + b).drop_last() =~= a + b.drop_last());
        lemma_effect_concat(a, b.drop_last(), st);
    }
}

/// The effect of a stream of one symbol is what the symbol does.
pub proof fn lemma_effect_single(c: Sym, st: Store)
    ensures
        effect(seq![c], st) == act(c, st),
{
    assert(seq![c].drop_last() =~= Seq::<Sym>::empty());
    reveal_with_fuel(effect, 2);
}

/// The effect of a stream that ends with `c`.
pub proof fn lemma_effect_push(s: Seq<Sym>, c: Sym, st: Store)
    ensures
        effect(s.push(c), st) == then(effect(s, st), seq![c]),
{
    assert(s.push(c).drop_last() =~= s);
    match effect(s, st) {
        Outcome::Done(mid) => {
            lemma_effect_single(c, mid);
        },
        _ => {},
    }
}

/// Execution keeps the cursor within the configured range.
pub proof fn lemma_effect_sound(s: Seq<Sym>, st: Store)
    requires
        st.wf(),
    ensures
        sound(effect(s, st)),
    decreases s.len(),
{
    if s.len() > 0 {
        lemma_effect_sound(s.drop_last(), st);
        match effect(s.drop_last(), st) {
            Outcome::Done(mid) => {
                assert(mid.cells.dom().insert(mid.cursor) =~= Set::<int>::full());
            },
            _ => {},
        }
    }
}

/// A stream does to a failed or stalled outcome nothing, so it keeps the
/// order between outcomes.
pub proof fn lemma_then_keeps_order(src: Outcome, tgt: Outcome, s: Seq<Sym>)
    requires
        refines(src, tgt),
    ensures
        refines(then(src, s), then(tgt, s)),
{
}

/// `c` written `n` times in a row.
pub open spec fn sym_row(c: Sym, n: nat) -> Seq<Sym>
    decreases n,
{
    if n == 0 {
        Seq::empty()
    } else {
        sym_row(c, (n - 1) as nat).push(c)
    }
}

/// The cell value `k` units above `v`, modulo 256; `k` may be negative.
pub open spec fn shifted(v: u8, k: int) -> u8 {
    ((v + k) % 256) as u8
}

/// A row of increments adds its length to the cell, modulo 256.
pub proof fn lemma_row_inc(n: nat, st: Store)
    requires
        st.wf(),
    ensures
        effect(sym_row(Sym::Inc, n), st) == Outcome::Done(st.with_cell(shifted(st.cell(), n as int))),
    decreases n,
{
    if n == 0 {
        assert(st.with_cell(shifted(st.cell(), 0)).cells =~= st.cells);
    } else {
        lemma_row_inc((n - 1) as nat, st);
        let mid = st.with_cell(shifted(st.cell(), n - 1));
        assert(sym_row(Sym::Inc, n).drop_last() =~= sym_row(Sym::Inc, (n - 1) as nat));
        assert(mid.with_cell(incr(mid.cell())).cells =~= st.with_cell(
            shifted(st.cell(), n as int),
        ).cells);
    }
}

/// A row of decrements subtracts its length from the cell, modulo 256.
pub proof fn lemma_row_dec(n: nat, st: Store)
    requires
        st.wf(),
    ensures
        effect(sym_row(Sym::Dec, n), st) == Outcome::Done(st.with_cell(shifted(st.cell(), -(n as int)))),
    decreases n,
{
    if n == 0 {
        assert(st.with_cell(shifted(st.cell(), 0)).cells =~= st.cells);
    } else {
        lemma_row_dec((n - 1) as nat, st);
        let mid = st.with_cell(shifted(st.cell(), -(n - 1)));
        assert(sym_row(Sym::Dec, n).drop_last() =~= sym_row(Sym::Dec, (n - 1) as nat));
        assert(mid.with_cell(decr(mid.cell())).cells =~= st.with_cell(
            shifted(st.cell(), -(n as int)),
        ).cells);
    }
}

/// A row of moves to the right moves the cursor by its length, and fails
/// if that leads past the greatest index.
pub proof fn lemma_row_right(n: nat, st: Store)
    requires
        st.wf(),
    ensures
        effect(sym_row(Sym::Right, n), st) == (if st.cursor + n <= st.limit {
            Outcome::Done(Store { cursor: st.cursor + n, ..st })
        } else {
            Outcome::Failed
        }),
    decreases n,
{
    if n > 0 {
        lemma_row_right((n - 1) as nat, st);
        assert(sym_row(Sym::Right, n).drop_last() =~= sym_row(Sym::Right, (n - 1) as nat));
    }
}

/// A row of moves to the left moves the cursor by its length, and fails
/// if that leads in front of the first cell.
pub proof fn lemma_row_left(n: nat, st: Store)
    requires
        st.wf(),
    ensures
        effect(sym_row(Sym::Left, n), st) == (if st.cursor - n >= 0 {
            Outcome::Done(Store { cursor: st.cursor - n, ..st })
        } else {
            Outcome::Failed
        }),
    decreases n,
{
    if n > 0 {
        lemma_row_left((n - 1) as nat, st);
        assert(sym_row(Sym::Left, n).drop_last() =~= sym_row(Sym::Left, (n - 1) as nat));
    }
}

/// A row of inputs reads one keystroke each and leaves the last one in the
/// cell; it stalls if the keystrokes run out.
pub proof fn lemma_row_in(n: nat, st: Store)
    ensures
        effect(sym_row(Sym::In, n), st) == (if n == 0 {
            Outcome::Done(st)
        } else if n <= st.keys.len() {
            Outcome::Done(Store { keys: st.keys.skip(n as int), ..st.with_cell(st.keys[n - 1]) })
        } else {
            Outcome::Stalled(st.output)
        }),
    decreases n,
{
    if n > 0 {
        lemma_row_in((n - 1) as nat, st);
        assert(sym_row(Sym::In, n).drop_last() =~= sym_row(Sym::In, (n - 1) as nat));
        if n <= st.keys.len() {
            if n == 1 {
                assert(st.keys.skip(1) =~= st.keys.skip(n as int));
            } else {
                let mid = Store {
                    keys: st.keys.skip(n - 1),
                    ..st.with_cell(st.keys[n - 2])
                };
                assert(mid.keys.skip(1) =~= st.keys.skip(n as int));
                assert(mid.with_cell(mid.keys[0]).cells =~= st.with_cell(st.keys[n - 1]).cells);
            }
        }
    }
}

/// Two adjacent symbols that undo each other do nothing, unless the first
/// one fails.
pub proof fn lemma_cancel(d: Sym, c: Sym, st: Store)
    requires
        st.wf(),
        cancels(d, c),
    ensures
        refines(then(act(d, st), seq![c]), Outcome::Done(st)),
{
    match act(d, st) {
        Outcome::Done(mid) => {
            lemma_effect_single(c, mid);
            if d == Sym::Inc || d == Sym::Dec {
                assert(mid.with_cell(if d == Sym::Inc {
                    decr(mid.cell())
                } else {
                    incr(mid.cell())
                }).cells =~= st.cells);
            }
        },
        _ => {},
    }
}

/// Phase one keeps what a stream does: the normal form does the same as the
/// stream, wherever the stream does not fail.
pub proof fn lemma_normal_form_refines(s: Seq<Sym>, st: Store)
    requires
        st.wf(),
    ensures
        refines(effect(s, st), effect(normal_form(s), st)),
    decreases s.len(),
{
    if s.len() > 0 {
        let p = s.drop_last();
        let c = s.last();
        let n = normal_form(p);
        lemma_normal_form_refines(p, st);
        assert(s =~= p.push(c));
        lemma_effect_push(p, c, st);
        lemma_effect_push(n, c, st);
        lemma_then_keeps_order(effect(p, st), effect(n, st), seq![c]);
        if n.len() > 0 && cancels(n.last(), c) {
            let m = n.drop_last();
            let d = n.last();
            assert(n =~= m.push(d));
            lemma_effect_push(m, d, st);
            lemma_effect_sound(m, st);
            match effect(m, st) {
                Outcome::Done(mid) => {
                    lemma_effect_single(d, mid);
                    lemma_cancel(d, c, mid);
                },
                _ => {},
            }
        } else if closes_idiom(n, c) {
            let m = n.take(n.len() - 2);
            let x = n[n.len() - 1];
            assert(n =~= m.push(Sym::Open).push(x));
            lemma_effect_push(m.push(Sym::Open), x, st);
            lemma_effect_push(m, Sym::Open, st);
            lemma_effect_push(m, Sym::Clear, st);
            match effect(m, st) {
                Outcome::Done(mid) => {
                    lemma_effect_single(Sym::Open, mid);
                },
                _ => {},
            }
        }
    }
}

/// A signed amount as a row of symbols: `up` for each unit above zero,
/// `down` for each unit below.
pub open spec fn signed_sym_row(k: int, up: Sym, down: Sym) -> Seq<Sym> {
    if k >= 0 {
        sym_row(up, k as nat)
    } else {
        sym_row(down, (-k) as nat)
    }
}

/// The symbols that a token abbreviates, with the clear-cell symbol for the
/// loop that clears the cell.
pub open spec fn spelled_token(t: Token) -> Seq<Sym> {
    match t {
        Token::Move(k) => signed_sym_row(k as int, Sym::Right, Sym::Left),
        Token::Add(d) => signed_sym_row(d as int, Sym::Inc, Sym::Dec),
        Token::Assign(v) => seq![Sym::Clear] + sym_row(Sym::Inc, v as nat),
        Token::Input(n) => sym_row(Sym::In, n as nat),
        Token::Output => seq![Sym::Out],
        Token::LoopOpen => seq![Sym::Open],
        Token::LoopClose => seq![Sym::Close],
        Token::CellDump => seq![Sym::Dump],
        Token::WindowDump => seq![Sym::Window],
    }
}

/// The symbols that a token stream abbreviates.
pub open spec fn spelled(t: Seq<Token>) -> Seq<Sym>
    decreases t.len(),
{
    if t.len() == 0 {
        Seq::empty()
    } else {
        spelled(t.drop_last()) + spelled_token(t.last())
    }
}

/// Spelling out two token streams in a row.
pub proof fn lemma_spelled_concat(a: Seq<Token>, b: Seq<Token>)
    ensures
        spelled(a + b) == spelled(a) + spelled(b),
    decreases b.len(),
{
    if b.len() == 0 {
        assert(a + b =~= a);
        assert(spelled(a) + spelled(b) =~= spelled(a));
    } else {
        assert((a + b).drop_last() =~= a + b.drop_last());
        lemma_spelled_concat(a, b.drop_last());
        assert(spelled(a + b) =~= spelled(a) + spelled(b));
    }
}

/// Spelling out one token.
pub proof fn lemma_spelled_single(t: Token)
    ensures
        spelled(seq![t]) == spelled_token(t),
{
    assert(seq![t].drop_last() =~= Seq::<Token>::empty());
    reveal_with_fuel(spelled, 2);
    assert(Seq::<Sym>::empty() + spelled_token(t) =~= spelled_token(t));
}

/// The counters of the run fit the integers that tokens carry.
pub open spec fn fits(p: Pending, n: int) -> bool {
    &&& n <= usize::MAX
    &&& match p {
        Pending::Idle => true,
        Pending::Moving(net) => -n <= net <= n,
        Pending::Cell { reads, cleared, delta } => reads <= n && -n <= delta <= n,
    }
}

/// What a run does as a whole: a run of moves moves the cursor by its net
/// displacement; a run of cell operations reads its keystrokes and leaves
/// the cell at its net change above what was last written to it.
pub open spec fn run_effect(p: Pending, st: Store) -> Outcome {
    match p {
        Pending::Idle => Outcome::Done(st),
        Pending::Moving(net) => if 0 <= st.cursor + net <= st.limit {
            Outcome::Done(Store { cursor: st.cursor + net, ..st })
        } else {
            Outcome::Failed
        },
        Pending::Cell { reads, cleared, delta } => if reads > st.keys.len() {
            Outcome::Stalled(st.output)
        } else {
            let base: u8 = if cleared {
                0
            } else if reads > 0 {
                st.keys[reads - 1]
            } else {
                st.cell()
            };
            Outcome::Done(
                Store { keys: st.keys.skip(reads as int), ..st.with_cell(shifted(base, delta)) },
            )
        },
    }
}

/// The tokens of a run do what the run does as a whole.
pub proof fn lemma_run_effect(p: Pending, st: Store, n: int)
    requires
        st.wf(),
        fits(p, n),
    ensures
        effect(spelled(emitted(p)), st) == run_effect(p, st),
{
    match p {
        Pending::Idle => {},
        Pending::Moving(net) => {
            if net != 0 {
                lemma_spelled_single(Token::Move(net as i128));
                if net > 0 {
                    lemma_row_right(net as nat, st);
                } else {
                    lemma_row_left((-net) as nat, st);
                }
            } else {
                assert(Store { cursor: st.cursor + 0, ..st } == st);
            }
        },
        Pending::Cell { reads, cleared, delta } => {
            let first = if reads > 0 {
                seq![Token::Input(reads as usize)]
            } else {
                Seq::<Token>::empty()
            };
            let second = if cleared {
                seq![Token::Assign((delta % 256) as u8)]
            } else if delta != 0 {
                seq![Token::Add(delta as i128)]
            } else {
                Seq::<Token>::empty()
            };
            lemma_spelled_concat(first, second);
            lemma_effect_concat(spelled(first), spelled(second), st);
            if reads > 0 {
                lemma_spelled_single(Token::Input(reads as usize));
            }
            lemma_row_in(reads, st);
            assert(st.keys.skip(0) =~= st.keys);
            if reads <= st.keys.len() {
                let mid = if reads == 0 {
                    st
                } else {
                    Store { keys: st.keys.skip(reads as int), ..st.with_cell(st.keys[reads - 1]) }
                };
                assert(effect(spelled(first), st) == Outcome::Done(mid));
                assert(mid.cells.dom() =~= Set::<int>::full());
                if cleared {
                    let v = (delta % 256) as u8;
                    lemma_spelled_single(Token::Assign(v));
                    lemma_effect_concat(seq![Sym::Clear], sym_row(Sym::Inc, v as nat), mid);
                    lemma_effect_single(Sym::Clear, mid);
                    let zero = mid.with_cell(0);
                    assert(zero.cells.dom() =~= Set::<int>::full());
                    lemma_row_inc(v as nat, zero);
                    assert(zero.with_cell(shifted(0, v as int)).cells =~= st.with_cell(
                        shifted(0, delta),
                    ).cells);
                } else if delta != 0 {
                    lemma_spelled_single(Token::Add(delta as i128));
                    if delta > 0 {
                        lemma_row_inc(delta as nat, mid);
                    } else {
                        lemma_row_dec((-delta) as nat, mid);
                    }
                    assert(mid.with_cell(shifted(mid.cell(), delta)).cells =~= st.with_cell(
                        shifted(mid.cell(), delta),
                    ).cells);
                } else {
                    assert(mid.cells =~= st.with_cell(shifted(mid.cell(), 0)).cells);
                }
            }
        },
    }
}

/// The run that a symbol starts does what the symbol does.
pub proof fn lemma_run_starts(c: Sym, st: Store)
    requires
        st.wf(),
        c == Sym::Right || c == Sym::Left || c == Sym::Inc || c == Sym::Dec || c == Sym::Clear || c
            == Sym::In,
    ensures
        run_effect(
            feed(Gathered { out: Seq::empty(), pending: Pending::Idle }, c).pending,
            st,
        ) == act(c, st),
{
    assert(st.keys.skip(0) =~= st.keys);
}

/// A run extended by one more symbol of its kind does what the run did,
/// followed by the symbol.
pub proof fn lemma_run_extends(p: Pending, c: Sym, st: Store, out: Seq<Token>)
    requires
        st.wf(),
        (p is Moving && (c == Sym::Right || c == Sym::Left)) || (p is Cell && (c == Sym::Inc || c
            == Sym::Dec || c == Sym::Clear || c == Sym::In)),
    ensures
        refines(
            then(run_effect(p, st), seq![c]),
            run_effect(feed(Gathered { out, pending: p }, c).pending, st),
        ),
{
    match run_effect(p, st) {
        Outcome::Done(mid) => {
            lemma_effect_single(c, mid);
            match p {
                Pending::Cell { reads, cleared, delta } => {
                    let base: u8 = if cleared {
                        0
                    } else if reads > 0 {
                        st.keys[reads - 1]
                    } else {
                        st.cell()
                    };
                    let after = cell_after(p, c);
                    if c == Sym::In {
                        if mid.keys.len() > 0 {
                            assert(mid.keys.skip(1) =~= st.keys.skip(reads as int + 1));
                            assert(mid.with_cell(mid.keys[0]).cells =~= st.with_cell(
                                shifted(st.keys[reads as int], 0),
                            ).cells);
                        }
                    } else if c == Sym::Clear {
                        assert(mid.with_cell(0).cells =~= st.with_cell(shifted(0, 0)).cells);
                    } else if c == Sym::Inc {
                        assert(mid.with_cell(incr(mid.cell())).cells =~= st.with_cell(
                            shifted(base, delta + 1),
                        ).cells);
                    } else {
                        assert(mid.with_cell(decr(mid.cell())).cells =~= st.with_cell(
                            shifted(base, delta - 1),
                        ).cells);
                    }
                },
                _ => {},
            }
        },
        _ => {},
    }
}

/// What the coalescer's state does: its tokens, then its run.
pub open spec fn gathered_effect(g: Gathered, st: Store) -> Outcome {
    match effect(spelled(g.out), st) {
        Outcome::Done(mid) => run_effect(g.pending, mid),
        other => other,
    }
}

/// The counters of the coalescer's run are bounded by the symbols read.
pub proof fn lemma_gathered_fits(n: Seq<Sym>)
    requires
        n.len() <= usize::MAX,
    ensures
        fits(gathered(n).pending, n.len() as int),
    decreases n.len(),
{
    if n.len() > 0 {
        lemma_gathered_fits(n.drop_last());
    }
}

/// The coalescer's state after a stream does what the stream does, wherever
/// the stream does not fail.
pub proof fn lemma_gathered_refines(n: Seq<Sym>, st: Store)
    requires
        st.wf(),
        n.len() <= usize::MAX,
    ensures
        refines(effect(n, st), gathered_effect(gathered(n), st)),
    decreases n.len(),
{
    if n.len() > 0 {
        let front = n.drop_last();
        let c = n.last();
        let g = gathered(front);
        let h = feed(g, c);
        lemma_gathered_refines(front, st);
        lemma_gathered_fits(front);
        assert(n =~= front.push(c));
        lemma_effect_push(front, c, st);
        lemma_then_keeps_order(effect(front, st), gathered_effect(g, st), seq![c]);
        lemma_effect_sound(spelled(g.out), st);
        let moves = c == Sym::Right || c == Sym::Left;
        let cells = c == Sym::Inc || c == Sym::Dec || c == Sym::Clear || c == Sym::In;
        let extends = (moves && g.pending is Moving) || (cells && g.pending is Cell);
        if !extends {
            lemma_spelled_concat(g.out, emitted(g.pending));
            lemma_effect_concat(spelled(g.out), spelled(emitted(g.pending)), st);
            if !moves && !cells {
                assert(h.out =~= (g.out + emitted(g.pending)) + seq![plain(c)]);
                lemma_spelled_concat(g.out + emitted(g.pending), seq![plain(c)]);
                lemma_spelled_single(plain(c));
                lemma_effect_concat(spelled(g.out + emitted(g.pending)), seq![c], st);
            }
        }
        match effect(spelled(g.out), st) {
            Outcome::Done(mid) => {
                if extends {
                    lemma_run_extends(g.pending, c, mid, g.out);
                } else {
                    lemma_run_effect(g.pending, mid, front.len() as int);
                    match run_effect(g.pending, mid) {
                        Outcome::Done(last) => {
                            lemma_effect_sound(spelled(emitted(g.pending)), mid);
                            lemma_effect_single(c, last);
                            if moves || cells {
                                lemma_run_starts(c, last);
                            }
                        },
                        _ => {},
                    }
                }
            },
            _ => {},
        }
    }
}

/// Phase two keeps what a stream does: the tokens, spelled out, do the same
/// as the stream, wherever the stream does not fail.
pub proof fn lemma_coalesced_refines(n: Seq<Sym>, st: Store)
    requires
        st.wf(),
        n.len() <= usize::MAX,
    ensures
        refines(effect(n, st), effect(spelled(coalesced(n)), st)),
{
    let g = gathered(n);
    lemma_gathered_refines(n, st);
    lemma_gathered_fits(n);
    lemma_spelled_concat(g.out, emitted(g.pending));
    lemma_effect_concat(spelled(g.out), spelled(emitted(g.pending)), st);
    lemma_effect_sound(spelled(g.out), st);
    match effect(spelled(g.out), st) {
        Outcome::Done(mid) => {
            lemma_run_effect(g.pending, mid, n.len() as int);
        },
        _ => {},
    }
}

} // verus!
