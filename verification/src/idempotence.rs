//! The optimizer is idempotent on its own output: an optimized stream,
//! written out in primitive symbols and optimized again, is the optimized
//! stream.
use vstd::prelude::*;
use crate::effect::{fits, lemma_gathered_fits, spelled, spelled_token, sym_row};
use crate::equivalence::lemma_written_spelled;
use crate::optimizer::{expanded, lemma_normal_form_irreducible, optimized};
use crate::equivalence::lemma_normal_form_len;
use crate::optimizer::{
    all_known, cancels, closes_idiom, coalesced, emitted, feed, gathered, irreducible, lexed,
    no_idiom_at, no_pair_at, normal_form, plain, sym_of, weight, Gathered, Pending, Sym, Token,
};
use crate::simple::{sym_chars, written};

verus! {

/// What is left of an irreducible stream without its last symbol is irreducible.
pub proof fn lemma_irreducible_front(e: Seq<Sym>)
    requires
        irreducible(e),
        e.len() > 0,
    ensures
        irreducible(e.drop_last()),
{
    let f = e.drop_last();
    assert forall|i: int| 0 <= i < f.len() - 1 implies #[trigger] no_pair_at(f, i) by {
        assert(no_pair_at(e, i));
    }
    assert forall|i: int| 0 <= i < f.len() - 2 implies #[trigger] no_idiom_at(f, i) by {
        assert(no_idiom_at(e, i));
    }
}

/// An irreducible stream, written in characters and read again, has itself
/// as its normal form.
pub proof fn lemma_normal_form_of_written(e: Seq<Sym>)
    requires
        irreducible(e),
    ensures
        all_known(written(e)),
        normal_form(lexed(written(e))) == e,
    decreases e.len(),
{
    if e.len() == 0 {
        assert(lexed(written(e)) =~= Seq::<Sym>::empty());
    } else {
        let f = e.drop_last();
        let c = e.last();
        lemma_irreducible_front(e);
        lemma_normal_form_of_written(f);
        let x = lexed(written(f));
        let tail = sym_chars(c);
        assert(lexed(written(f) + tail) =~= x + lexed(tail));
        assert forall|i: int| 0 <= i < written(e).len() implies sym_of(
            #[trigger] written(e)[i],
        ) is Some by {
            if i < written(f).len() {
                assert(written(e)[i] == written(f)[i]);
            } else {
                assert(written(e)[i] == tail[i - written(f).len()]);
            }
        }
        if f.len() >= 1 {
            assert(no_pair_at(e, f.len() - 1));
        }
        if f.len() >= 2 {
            assert(no_idiom_at(e, f.len() - 2));
        }
        if c == Sym::Clear {
            let x1 = x.push(Sym::Open);
            let x2 = x1.push(Sym::Dec);
            let x3 = x2.push(Sym::Close);
            assert(x + lexed(tail) =~= x3);
            assert(x1.drop_last() =~= x);
            assert(x2.drop_last() =~= x1);
            assert(x3.drop_last() =~= x2);
            assert(normal_form(x1) == f.push(Sym::Open));
            assert(normal_form(x2) == f.push(Sym::Open).push(Sym::Dec));
            assert(f.push(Sym::Open).push(Sym::Dec).take(f.len() as int).push(Sym::Clear) =~= e);
        } else {
            assert(x + lexed(tail) =~= x.push(c));
            assert(x.push(c).drop_last() =~= x);
            assert(f.push(c) =~= e);
        }
    }
}

/// The token stands for something: a move or a change is not zero, and an
/// input reads at least once.
pub open spec fn sound_token(t: Token) -> bool {
    match t {
        Token::Move(k) => k != 0,
        Token::Add(d) => d != 0,
        Token::Input(n) => n > 0,
        _ => true,
    }
}

/// The token works on the current cell.
pub open spec fn cell_token(t: Token) -> bool {
    t is Add || t is Assign || t is Input
}

/// The token `t` may stand behind `prev`: two moves, two changes and two
/// inputs are never neighbours, and behind a change or an assignment the
/// cell is left alone.
pub open spec fn may_follow(prev: Token, t: Token) -> bool {
    &&& !(prev is Move && t is Move)
    &&& (prev is Add || prev is Assign ==> !cell_token(t))
    &&& (prev is Input ==> !(t is Input))
}

/// The three tokens are a loop around one increment or one decrement.
pub open spec fn unit_loop(a: Token, b: Token, c: Token) -> bool {
    a == Token::LoopOpen && (b == Token::Add(1i128) || b == Token::Add(-1i128)) && c == Token::LoopClose
}

/// The token stream is one that the optimizer emits: every token is sound
/// and may follow the one before it, and no loop is left that phase one
/// would have turned into an assignment.
pub open spec fn canonical(t: Seq<Token>) -> bool
    decreases t.len(),
{
    t.len() == 0 || {
        &&& canonical(t.drop_last())
        &&& sound_token(t.last())
        &&& (t.len() >= 2 ==> may_follow(t[t.len() - 2], t.last()))
        &&& (t.len() >= 3 ==> !unit_loop(t[t.len() - 3], t[t.len() - 2], t[t.len() - 1]))
    }
}

/// A row holds its symbol at every position.
pub proof fn lemma_sym_row_holds(c: Sym, n: nat)
    ensures
        sym_row(c, n).len() == n,
        forall|i: int| 0 <= i < n ==> #[trigger] sym_row(c, n)[i] == c,
    decreases n,
{
    if n > 0 {
        lemma_sym_row_holds(c, (n - 1) as nat);
        let r = sym_row(c, n);
        let f = sym_row(c, (n - 1) as nat);
        assert forall|i: int| 0 <= i < n implies #[trigger] r[i] == c by {
            if i < n - 1 {
                assert(r[i] == f[i]);
            }
        }
    }
}

/// An irreducible stream stays irreducible with one more symbol that its
/// last symbol does not cancel and that closes no clear-cell loop.
pub proof fn lemma_irreducible_push(a: Seq<Sym>, c: Sym)
    requires
        irreducible(a),
        a.len() > 0 ==> !cancels(a.last(), c),
        !closes_idiom(a, c),
    ensures
        irreducible(a.push(c)),
{
    let e = a.push(c);
    assert forall|i: int| 0 <= i < e.len() - 1 implies #[trigger] no_pair_at(e, i) by {
        if i < a.len() - 1 {
            assert(no_pair_at(a, i));
        }
    }
    assert forall|i: int| 0 <= i < e.len() - 2 implies #[trigger] no_idiom_at(e, i) by {
        if i < a.len() - 2 {
            assert(no_idiom_at(a, i));
        }
    }
}

/// An irreducible stream stays irreducible with a row of one symbol that
/// is no loop-close and that its last symbol does not cancel.
pub proof fn lemma_irreducible_row(a: Seq<Sym>, c: Sym, n: nat)
    requires
        irreducible(a),
        c != Sym::Close,
        a.len() > 0 ==> !cancels(a.last(), c),
    ensures
        irreducible(a + sym_row(c, n)),
    decreases n,
{
    if n == 0 {
        assert(a + sym_row(c, 0) =~= a);
    } else {
        lemma_irreducible_row(a, c, (n - 1) as nat);
        lemma_sym_row_holds(c, (n - 1) as nat);
        let front = a + sym_row(c, (n - 1) as nat);
        assert(a + sym_row(c, n) =~= front.push(c));
        if n > 1 {
            assert(front.last() == sym_row(c, (n - 1) as nat)[n - 2]);
        } else {
            assert(front =~= a);
        }
        lemma_irreducible_push(front, c);
    }
}

/// The coalescer's state after `n` more symbols `c`.
pub open spec fn fed_row(g: Gathered, c: Sym, n: nat) -> Gathered
    decreases n,
{
    if n == 0 {
        g
    } else {
        feed(fed_row(g, c, (n - 1) as nat), c)
    }
}

/// The coalescer's state after a stream with one more symbol.
pub proof fn lemma_gathered_push(x: Seq<Sym>, c: Sym)
    ensures
        gathered(x.push(c)) == feed(gathered(x), c),
{
    assert(x.push(c).drop_last() =~= x);
}

/// The coalescer's state after a stream with a row behind it.
pub proof fn lemma_gathered_row(x: Seq<Sym>, c: Sym, n: nat)
    ensures
        gathered(x + sym_row(c, n)) == fed_row(gathered(x), c, n),
    decreases n,
{
    if n == 0 {
        assert(x + sym_row(c, 0) =~= x);
    } else {
        lemma_gathered_row(x, c, (n - 1) as nat);
        assert(x + sym_row(c, n) =~= (x + sym_row(c, (n - 1) as nat)).push(c));
        lemma_gathered_push(x + sym_row(c, (n - 1) as nat), c);
    }
}

/// A row of moves, of changes or of inputs opens a run, or extends the run
/// of its kind.
pub proof fn lemma_fed_row(g: Gathered, c: Sym, n: nat)
    requires
        n >= 1,
        c == Sym::Right || c == Sym::Left || c == Sym::Inc || c == Sym::Dec || c == Sym::In,
    ensures
        fed_row(g, c, n) == (if c == Sym::Right || c == Sym::Left {
            match g.pending {
                Pending::Moving(net) => Gathered {
                    out: g.out,
                    pending: Pending::Moving(net + n * weight(c)),
                },
                _ => Gathered {
                    out: g.out + emitted(g.pending),
                    pending: Pending::Moving(n * weight(c)),
                },
            }
        } else if c == Sym::In {
            match g.pending {
                Pending::Cell { reads, cleared, delta } => Gathered {
                    out: g.out,
                    pending: Pending::Cell { reads: reads + n, cleared: false, delta: 0 },
                },
                _ => Gathered {
                    out: g.out + emitted(g.pending),
                    pending: Pending::Cell { reads: n, cleared: false, delta: 0 },
                },
            }
        } else {
            match g.pending {
                Pending::Cell { reads, cleared, delta } => Gathered {
                    out: g.out,
                    pending: Pending::Cell { reads, cleared, delta: delta + n * weight(c) },
                },
                _ => Gathered {
                    out: g.out + emitted(g.pending),
                    pending: Pending::Cell { reads: 0, cleared: false, delta: n * weight(c) },
                },
            }
        }),
    decreases n,
{
    if n > 1 {
        lemma_fed_row(g, c, (n - 1) as nat);
        assert(n * weight(c) == (n - 1) * weight(c) + weight(c)) by (nonlinear_arith);
    } else {
        assert(fed_row(g, c, 1) == feed(g, c)) by {
            reveal_with_fuel(fed_row, 2);
        }
        assert(1 * weight(c) == weight(c));
    }
}

/// The last symbol that a token is spelled with.
pub open spec fn last_sym(t: Token) -> Sym {
    match t {
        Token::Move(k) => if k >= 0 {
            Sym::Right
        } else {
            Sym::Left
        },
        Token::Add(d) => if d >= 0 {
            Sym::Inc
        } else {
            Sym::Dec
        },
        Token::Assign(v) => if v > 0 {
            Sym::Inc
        } else {
            Sym::Clear
        },
        Token::Input(n) => Sym::In,
        Token::Output => Sym::Out,
        Token::LoopOpen => Sym::Open,
        Token::LoopClose => Sym::Close,
        Token::CellDump => Sym::Dump,
        Token::WindowDump => Sym::Window,
    }
}

/// The keystrokes that an input token reads; zero for any other token.
pub open spec fn reads_of(t: Token) -> nat {
    match t {
        Token::Input(n) => n as nat,
        _ => 0,
    }
}

/// The keystrokes that the token in front of the last one reads.
pub open spec fn reads_before(t: Seq<Token>) -> nat {
    if t.len() >= 2 {
        reads_of(t[t.len() - 2])
    } else {
        0
    }
}

/// The run that the coalescer has open after the spelling of `t`.
pub open spec fn pend(t: Seq<Token>) -> Pending {
    if t.len() == 0 {
        Pending::Idle
    } else {
        match t.last() {
            Token::Move(k) => Pending::Moving(k as int),
            Token::Input(n) => Pending::Cell { reads: n as nat, cleared: false, delta: 0 },
            Token::Add(d) => Pending::Cell {
                reads: reads_before(t),
                cleared: false,
                delta: d as int,
            },
            Token::Assign(v) => Pending::Cell {
                reads: reads_before(t),
                cleared: true,
                delta: v as int,
            },
            _ => Pending::Idle,
        }
    }
}

/// How many tokens at the end of `t` the open run stands for.
pub open spec fn held(t: Seq<Token>) -> int {
    if t.len() == 0 {
        0
    } else {
        match t.last() {
            Token::Move(k) => 1,
            Token::Input(n) => 1,
            Token::Add(d) => if reads_before(t) > 0 {
                2
            } else {
                1
            },
            Token::Assign(v) => if reads_before(t) > 0 {
                2
            } else {
                1
            },
            _ => 0,
        }
    }
}

/// What holds of the spelling of a canonical token stream: it is
/// irreducible, and the coalescer, run on it, has emitted the tokens in
/// front of the last run and holds that run open.
pub open spec fn respelled(t: Seq<Token>) -> bool {
    let e = spelled(t);
    &&& irreducible(e)
    &&& 0 <= held(t) <= t.len()
    &&& gathered(e) == (Gathered { out: t.take(t.len() - held(t)), pending: pend(t) })
    &&& emitted(pend(t)) == t.skip(t.len() - held(t))
    &&& t.len() > 0 ==> e.len() > 0 && e.last() == last_sym(t.last())
    &&& t.len() > 0 && e.len() >= 2 && e[e.len() - 2] == Sym::Open ==> t.len() >= 2 && t[t.len()
        - 2] == Token::LoopOpen && spelled_token(t.last()).len() == 1
}

/// The spelling of a token stream with one more token.
pub proof fn lemma_spelled_push(f: Seq<Token>, t: Token)
    ensures
        spelled(f.push(t)) == spelled(f) + spelled_token(t),
{
    assert(f.push(t).drop_last() =~= f);
}

/// The length of the row that a row token is spelled with.
pub open spec fn row_len(t: Token) -> nat {
    match t {
        Token::Move(k) => if k >= 0 {
            k as nat
        } else {
            (-k) as nat
        },
        Token::Add(d) => if d >= 0 {
            d as nat
        } else {
            (-d) as nat
        },
        Token::Input(n) => n as nat,
        _ => 0,
    }
}

/// The invariant of the spelling carries over to one more move, change or
/// input.
proof fn lemma_respelled_row(f: Seq<Token>, t: Token)
    requires
        canonical(f.push(t)),
        respelled(f),
        t is Move || t is Add || t is Input,
    ensures
        respelled(f.push(t)),
{
    let all = f.push(t);
    let c = last_sym(t);
    let n = row_len(t);
    let front = spelled(f);
    let e = spelled(all);
    assert(all.drop_last() =~= f);
    assert(all.last() == t);
    lemma_spelled_push(f, t);
    assert(spelled_token(t) == sym_row(c, n));
    assert(n >= 1);
    lemma_sym_row_holds(c, n);
    if f.len() > 0 {
        assert(all[all.len() - 2] == f.last());
        assert(may_follow(f.last(), t));
    }
    lemma_irreducible_row(front, c, n);
    lemma_gathered_row(front, c, n);
    lemma_fed_row(gathered(front), c, n);
    assert(n * weight(c) == (if c == Sym::Right || c == Sym::Inc {
        n as int
    } else if c == Sym::Left || c == Sym::Dec {
        -(n as int)
    } else {
        0
    })) by (nonlinear_arith)
        requires
            weight(c) == 1 || weight(c) == -1 || weight(c) == 0,
            c == Sym::Right || c == Sym::Inc ==> weight(c) == 1,
            c == Sym::Left || c == Sym::Dec ==> weight(c) == -1,
            c == Sym::In ==> weight(c) == 0,
    ;
    assert(e.last() == sym_row(c, n)[n - 1]);
    if n >= 2 {
        assert(e[e.len() - 2] == sym_row(c, n)[n - 2]);
    } else if front.len() > 0 {
        assert(e[e.len() - 2] == front.last());
    }
    let extends = t is Add && f.len() > 0 && f.last() is Input;
    if extends {
        assert(held(f) == 1);
        assert(all.take(all.len() - 2) =~= f.take(f.len() - 1));
        assert(all.skip(all.len() - 2) =~= seq![f.last(), t]);
        assert(emitted(pend(all)) =~= seq![f.last(), t]);
    } else {
        assert(f.take(f.len() - held(f)) + f.skip(f.len() - held(f)) =~= f);
        assert(all.take(all.len() - 1) =~= f);
        assert(all.skip(all.len() - 1) =~= seq![t]);
        assert(emitted(pend(all)) =~= seq![t]);
    }
}

/// The value of an assignment; zero for any other token.
pub open spec fn assigned(t: Token) -> nat {
    match t {
        Token::Assign(v) => v as nat,
        _ => 0,
    }
}

/// The invariant of the spelling carries over to one more assignment.
proof fn lemma_respelled_assign(f: Seq<Token>, t: Token)
    requires
        canonical(f.push(t)),
        respelled(f),
        t is Assign,
    ensures
        respelled(f.push(t)),
{
    let all = f.push(t);
    let v = assigned(t);
    let front = spelled(f);
    let e = spelled(all);
    assert(all.drop_last() =~= f);
    assert(all.last() == t);
    lemma_spelled_push(f, t);
    let mid = front.push(Sym::Clear);
    assert(e =~= mid + sym_row(Sym::Inc, v));
    lemma_sym_row_holds(Sym::Inc, v);
    if f.len() > 0 {
        assert(all[all.len() - 2] == f.last());
        assert(may_follow(f.last(), t));
    }
    lemma_irreducible_push(front, Sym::Clear);
    lemma_irreducible_row(mid, Sym::Inc, v);
    lemma_gathered_push(front, Sym::Clear);
    lemma_gathered_row(mid, Sym::Inc, v);
    if v >= 1 {
        lemma_fed_row(gathered(mid), Sym::Inc, v);
        assert(v * weight(Sym::Inc) == v) by (nonlinear_arith)
            requires
                weight(Sym::Inc) == 1,
        ;
        assert(e.last() == sym_row(Sym::Inc, v)[v - 1]);
        if v >= 2 {
            assert(e[e.len() - 2] == sym_row(Sym::Inc, v)[v - 2]);
        } else {
            assert(e[e.len() - 2] == Sym::Clear);
        }
    } else {
        assert(e =~= mid);
        if front.len() > 0 {
            assert(e[e.len() - 2] == front.last());
        }
    }
    let extends = f.len() > 0 && f.last() is Input;
    if extends {
        assert(held(f) == 1);
        assert(all.take(all.len() - 2) =~= f.take(f.len() - 1));
        assert(all.skip(all.len() - 2) =~= seq![f.last(), t]);
        assert(emitted(pend(all)) =~= seq![f.last(), t]);
    } else {
        assert(f.take(f.len() - held(f)) + f.skip(f.len() - held(f)) =~= f);
        assert(all.take(all.len() - 1) =~= f);
        assert(all.skip(all.len() - 1) =~= seq![t]);
        assert(emitted(pend(all)) =~= seq![t]);
    }
}

/// The invariant of the spelling carries over to one more token that is
/// passed through.
proof fn lemma_respelled_plain(f: Seq<Token>, t: Token)
    requires
        canonical(f.push(t)),
        respelled(f),
        !(t is Move || t is Add || t is Input || t is Assign),
    ensures
        respelled(f.push(t)),
{
    let all = f.push(t);
    let c = last_sym(t);
    let front = spelled(f);
    let e = spelled(all);
    assert(all.drop_last() =~= f);
    assert(all.last() == t);
    lemma_spelled_push(f, t);
    assert(e =~= front.push(c));
    assert(plain(c) == t);
    if f.len() > 0 {
        assert(all[all.len() - 2] == f.last());
    }
    if closes_idiom(front, c) {
        // The loop around one change would be a unit loop of the tokens.
        assert(f.len() >= 2);
        assert(all[all.len() - 3] == f[f.len() - 2]);
        let x = f.last();
        assert(spelled_token(x).len() == 1);
        match x {
            Token::Add(d) => {
                lemma_sym_row_holds(Sym::Inc, row_len(x));
                lemma_sym_row_holds(Sym::Dec, row_len(x));
                assert(d == 1 || d == -1);
            },
            Token::Assign(v) => {
                lemma_sym_row_holds(Sym::Inc, v as nat);
                assert(spelled_token(x)[0] == Sym::Clear);
            },
            _ => {},
        }
        assert(unit_loop(all[all.len() - 3], all[all.len() - 2], all[all.len() - 1]));
        assert(false);
    }
    lemma_irreducible_push(front, c);
    lemma_gathered_push(front, c);
    assert(f.take(f.len() - held(f)) + f.skip(f.len() - held(f)) =~= f);
    assert(all.take(all.len() as int) =~= all);
    assert(all.skip(all.len() as int) =~= Seq::<Token>::empty());
    if front.len() > 0 {
        assert(e[e.len() - 2] == front.last());
    }
}

/// The spelling of a canonical token stream is irreducible, and the
/// coalescer, run on it, comes back to the token stream.
pub proof fn lemma_respelled(t: Seq<Token>)
    requires
        canonical(t),
    ensures
        respelled(t),
    decreases t.len(),
{
    if t.len() == 0 {
        assert(t.take(0) =~= Seq::<Token>::empty());
        assert(t.skip(0) =~= Seq::<Token>::empty());
    } else {
        let f = t.drop_last();
        let last = t.last();
        lemma_respelled(f);
        assert(f.push(last) =~= t);
        if last is Move || last is Add || last is Input {
            lemma_respelled_row(f, last);
        } else if last is Assign {
            lemma_respelled_assign(f, last);
        } else {
            lemma_respelled_plain(f, last);
        }
    }
}

/// The tokens of the spelling of a canonical token stream are the stream.
pub proof fn lemma_coalesced_of_spelled(t: Seq<Token>)
    requires
        canonical(t),
    ensures
        irreducible(spelled(t)),
        coalesced(spelled(t)) == t,
{
    lemma_respelled(t);
    assert(t.take(t.len() - held(t)) + t.skip(t.len() - held(t)) =~= t);
}

/// A canonical token stream stays canonical with one more token that is
/// sound, may follow the last one, and closes no unit loop.
pub proof fn lemma_canonical_push(t: Seq<Token>, x: Token)
    requires
        canonical(t),
        sound_token(x),
        t.len() >= 1 ==> may_follow(t.last(), x),
        t.len() >= 2 ==> !unit_loop(t[t.len() - 2], t.last(), x),
    ensures
        canonical(t.push(x)),
{
    assert(t.push(x).drop_last() =~= t);
}

/// The symbol is passed through by the coalescer.
pub open spec fn passes(c: Sym) -> bool {
    c == Sym::Out || c == Sym::Open || c == Sym::Close || c == Sym::Dump || c == Sym::Window
}

/// What holds of the coalescer's state after an irreducible stream `n`.
pub open spec fn well_gathered(n: Seq<Sym>) -> bool {
    let g = gathered(n);
    &&& canonical(g.out)
    &&& fits(g.pending, n.len() as int)
    &&& match g.pending {
        Pending::Idle => (n.len() == 0 && g.out.len() == 0) || (n.len() > 0 && passes(n.last())
            && g.out.len() > 0 && g.out.last() == plain(n.last())),
        Pending::Moving(net) => {
            &&& n.len() > 0
            &&& (n.last() == Sym::Right || n.last() == Sym::Left)
            &&& net != 0
            &&& (net > 0 <==> n.last() == Sym::Right)
            &&& (g.out.len() > 0 ==> !(g.out.last() is Move))
        },
        Pending::Cell { reads, cleared, delta } => {
            &&& n.len() > 0
            &&& (g.out.len() > 0 ==> !cell_token(g.out.last()))
            &&& (delta != 0 ==> (n.last() == Sym::Inc || n.last() == Sym::Dec) && (delta > 0 <==> n.last()
                == Sym::Inc))
            &&& (delta == 0 ==> (n.last() == Sym::Clear && cleared) || (n.last() == Sym::In
                && !cleared && reads >= 1))
            &&& (reads == 0 && !cleared && (delta == 1 || delta == -1) && g.out.len() > 0
                && g.out.last() == Token::LoopOpen ==> n.len() >= 2 && n[n.len() - 2]
                == Sym::Open)
        },
    }
}

/// With the run that is open, the tokens emitted for an irreducible stream
/// are canonical.
pub proof fn lemma_canonical_with_run(n: Seq<Sym>)
    requires
        well_gathered(n),
    ensures
        canonical(coalesced(n)),
        gathered(n).pending !is Idle ==> emitted(gathered(n).pending).len() > 0,
{
    let g = gathered(n);
    match g.pending {
        Pending::Idle => {
            assert(g.out + emitted(g.pending) =~= g.out);
        },
        Pending::Moving(net) => {
            lemma_canonical_push(g.out, Token::Move(net as i128));
            assert(g.out + emitted(g.pending) =~= g.out.push(Token::Move(net as i128)));
        },
        Pending::Cell { reads, cleared, delta } => {
            let last = if cleared {
                Token::Assign((delta % 256) as u8)
            } else {
                Token::Add(delta as i128)
            };
            let has_last = cleared || delta != 0;
            if reads > 0 {
                let first = Token::Input(reads as usize);
                lemma_canonical_push(g.out, first);
                if has_last {
                    assert(g.out.push(first).last() == first);
                    if g.out.len() > 0 {
                        assert(g.out.push(first)[g.out.len() - 1] == g.out.last());
                    }
                    lemma_canonical_push(g.out.push(first), last);
                    assert(g.out + emitted(g.pending) =~= g.out.push(first).push(last));
                } else {
                    assert(g.out + emitted(g.pending) =~= g.out.push(first));
                }
            } else {
                lemma_canonical_push(g.out, last);
                assert(g.out + emitted(g.pending) =~= g.out.push(last));
            }
        },
    }
}

/// The coalescer's state after every prefix of an irreducible stream is as
/// `well_gathered` says.
pub proof fn lemma_well_gathered(all: Seq<Sym>, k: int)
    requires
        irreducible(all),
        all.len() <= usize::MAX,
        0 <= k <= all.len(),
    ensures
        well_gathered(all.take(k)),
    decreases k,
{
    let n = all.take(k);
    lemma_gathered_fits(n);
    if k > 0 {
        let f = all.take(k - 1);
        let c = all[k - 1];
        lemma_well_gathered(all, k - 1);
        assert(n.drop_last() =~= f);
        assert(n.last() == c);
        let g = gathered(f);
        let h = gathered(n);
        assert(h == feed(g, c));
        lemma_canonical_with_run(f);
        let flushed = g.out + emitted(g.pending);
        if k >= 2 {
            assert(f.last() == all[k - 2]);
            assert(no_pair_at(all, k - 2));
            assert(n[n.len() - 2] == all[k - 2]);
        }
        if k >= 3 {
            assert(no_idiom_at(all, k - 3));
            assert(f[f.len() - 2] == all[k - 3]);
        }
        if flushed.len() > 0 && g.pending !is Idle {
            assert(flushed.last() == emitted(g.pending).last());
        }
        if g.pending is Idle {
            assert(flushed =~= g.out);
        }
        let moves = c == Sym::Right || c == Sym::Left;
        let cells = c == Sym::Inc || c == Sym::Dec || c == Sym::Clear || c == Sym::In;
        if !moves && !cells {
            let x = plain(c);
            if flushed.len() >= 2 && unit_loop(flushed[flushed.len() - 2], flushed.last(), x) {
                match g.pending {
                    Pending::Cell { reads, cleared, delta } => {
                        if reads > 0 {
                            assert(flushed[flushed.len() - 2] == Token::Input(reads as usize));
                        } else {
                            assert(emitted(g.pending).len() == 1);
                            assert(flushed[flushed.len() - 2] == g.out.last());
                        }
                    },
                    _ => {},
                }
                assert(false);
            }
            lemma_canonical_push(flushed, x);
        }
    } else {
        assert(n =~= Seq::<Sym>::empty());
    }
}

/// The tokens that the optimizer emits are canonical.
pub proof fn lemma_coalesced_canonical(n: Seq<Sym>)
    requires
        irreducible(n),
        n.len() <= usize::MAX,
    ensures
        canonical(coalesced(n)),
{
    lemma_well_gathered(n, n.len() as int);
    assert(n.take(n.len() as int) =~= n);
    lemma_canonical_with_run(n);
}

/// The optimizer is idempotent on its own output: the optimized form of a
/// stream, written out in primitive symbols again, is a stream of known
/// characters, and optimizing it changes nothing further.
pub proof fn law_optimizer_idempotent(code: Seq<char>)
    requires
        all_known(code),
        code.len() <= usize::MAX,
    ensures
        all_known(expanded(optimized(code))),
        optimized(expanded(optimized(code))) == optimized(code),
{
    let n = normal_form(lexed(code));
    let t = coalesced(n);
    lemma_normal_form_irreducible(lexed(code));
    lemma_normal_form_len(lexed(code));
    lemma_coalesced_canonical(n);
    lemma_coalesced_of_spelled(t);
    lemma_written_spelled(t);
    lemma_normal_form_of_written(spelled(t));
}

} // verus!
