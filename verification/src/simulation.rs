//! When one stream does what another does: the relation, and the ways in
//! which it carries over from parts of a stream to the whole.
use vstd::prelude::*;
use crate::brackets::{
    close_of, depth, lemma_close_unique, lemma_depth_within, lemma_open_unique,
    lemma_well_nested_concat, lemma_well_nested_loop, matched, open_of, well_nested,
};
use crate::machine::{State, Status};
use crate::runs::{
    rationed_blocked, rationed_step, Feed, end_of, exact_run, feed_of, lemma_exact_compose,
    lemma_exact_steady, lemma_run_leaves, lemma_run_within, lemma_step_within, moved, steady,
    store_of,
};

verus! {

/// Two machines that are steady, stand at the same position and work on the
/// same store.
pub open spec fn akin(s: State, t: State, feed: Feed) -> bool {
    &&& steady(s)
    &&& steady(t)
    &&& s.ip == t.ip
    &&& store_of(s, feed) == store_of(t, feed)
}

/// The machine waits in front of an output, the ration of output used up.
pub open spec fn cut_short(x: Seq<char>, a: State, ka: Feed) -> bool {
    rationed_blocked(x, a, ka) == Some(Status::Paused)
}

/// The machine has come to the end of the stream, or it waits for a
/// keystroke that is not there, or it is cut short.
pub open spec fn finished(x: Seq<char>, a: State, ka: Feed) -> bool {
    a.ip == x.len() || rationed_blocked(x, a, ka) == Some(Status::NeedKey) || cut_short(x, a, ka)
}

/// The machine is blocked by a fault.
pub open spec fn faulted(x: Seq<char>, a: State, ka: Feed) -> bool {
    rationed_blocked(x, a, ka) matches Some(Status::Fault(_))
}

/// The machine on `y` has ended as the machine on `x` has: both at the end
/// of their streams with the same store, or both waiting for a keystroke
/// with the same output written, or both cut short with the same store.
pub open spec fn alike(
    x: Seq<char>,
    a: State,
    ka: Feed,
    y: Seq<char>,
    b: State,
    kb: Feed,
) -> bool {
    ||| a.ip == x.len() && b.ip == y.len() && store_of(a, ka) == store_of(b, kb)
    ||| rationed_blocked(x, a, ka) == Some(Status::NeedKey) && rationed_blocked(y, b, kb) == Some(
        Status::NeedKey,
    ) && a.output == b.output
    ||| cut_short(x, a, ka) && cut_short(y, b, kb) && store_of(a, ka) == store_of(b, kb)
}

/// After exactly `m` instructions the machine on `y`, started in `t`, has
/// ended as the machine on `x` has in `a`.
pub open spec fn answers(
    x: Seq<char>,
    a: State,
    ka: Feed,
    y: Seq<char>,
    t: State,
    feed: Feed,
    m: nat,
) -> bool {
    &&& exact_run(y, t, feed, m) is Some
    &&& alike(x, a, ka, y, end_of(y, t, feed, m), feed_of(y, t, feed, m))
}

/// If the run of `n` instructions of `x` from its start in `s` is finished,
/// some run of `y` from its start in `t` ends alike.
pub open spec fn follows(
    x: Seq<char>,
    y: Seq<char>,
    s: State,
    t: State,
    feed: Feed,
    n: nat,
) -> bool {
    akin(s, t, feed) && s.ip == 0 && exact_run(x, s, feed, n) is Some && finished(
        x,
        end_of(x, s, feed, n),
        feed_of(x, s, feed, n),
    ) ==> exists|m: nat|
        answers(x, end_of(x, s, feed, n), feed_of(x, s, feed, n), y, t, feed, m)
}

/// The machine is blocked.
pub open spec fn stopped(y: Seq<char>, b: State, kb: Feed) -> bool {
    rationed_blocked(y, b, kb) is Some
}

/// After exactly `n` instructions the machine on `x`, started in `s`, has
/// faulted, or it has ended as the machine on `y` has in `b`.
pub open spec fn echoes(
    y: Seq<char>,
    b: State,
    kb: Feed,
    x: Seq<char>,
    s: State,
    feed: Feed,
    n: nat,
) -> bool {
    &&& exact_run(x, s, feed, n) is Some
    &&& (faulted(x, end_of(x, s, feed, n), feed_of(x, s, feed, n)) || alike(
        x,
        end_of(x, s, feed, n),
        feed_of(x, s, feed, n),
        y,
        b,
        kb,
    ))
}

/// If the run of `m` instructions of `y` from its start in `t` is blocked,
/// some run of `x` from its start in `s` has faulted or ends alike.
pub open spec fn follows_back(
    x: Seq<char>,
    y: Seq<char>,
    s: State,
    t: State,
    feed: Feed,
    m: nat,
) -> bool {
    akin(s, t, feed) && s.ip == 0 && exact_run(y, t, feed, m) is Some && stopped(
        y,
        end_of(y, t, feed, m),
        feed_of(y, t, feed, m),
    ) ==> exists|n: nat|
        echoes(y, end_of(y, t, feed, m), feed_of(y, t, feed, m), x, s, feed, n)
}

/// The stream `y` does what the stream `x` does, and nothing else. Both are
/// well nested. From the same store and with the same feed, whenever `x`
/// comes to its end, waits for a keystroke that is not there, or is cut
/// short, so does `y`, with the same store at the end and where it is cut
/// short, and the same output where it waits. And whenever `y` is blocked,
/// `x` has ended in the same way, unless `x` faults. Nothing is said of the
/// runs of `x` that fault.
pub open spec fn simulates(x: Seq<char>, y: Seq<char>) -> bool {
    &&& well_nested(x)
    &&& well_nested(y)
    &&& forall|s: State, t: State, feed: Feed, n: nat| #[trigger] follows(x, y, s, t, feed, n)
    &&& forall|s: State, t: State, feed: Feed, m: nat|
        #[trigger] follows_back(x, y, s, t, feed, m)
}

/// The run of `y` that answers a finished run of `x`.
pub proof fn lemma_answer(
    x: Seq<char>,
    y: Seq<char>,
    s: State,
    t: State,
    feed: Feed,
    n: nat,
) -> (m: nat)
    requires
        simulates(x, y),
        akin(s, t, feed),
        s.ip == 0,
        exact_run(x, s, feed, n) is Some,
        finished(x, end_of(x, s, feed, n), feed_of(x, s, feed, n)),
    ensures
        answers(x, end_of(x, s, feed, n), feed_of(x, s, feed, n), y, t, feed, m),
{
    assert(follows(x, y, s, t, feed, n));
    choose|m: nat| answers(x, end_of(x, s, feed, n), feed_of(x, s, feed, n), y, t, feed, m)
}

/// The run of `x` that a blocked run of `y` echoes.
pub proof fn lemma_answer_back(
    x: Seq<char>,
    y: Seq<char>,
    s: State,
    t: State,
    feed: Feed,
    m: nat,
) -> (n: nat)
    requires
        simulates(x, y),
        akin(s, t, feed),
        s.ip == 0,
        exact_run(y, t, feed, m) is Some,
        stopped(y, end_of(y, t, feed, m), feed_of(y, t, feed, m)),
    ensures
        echoes(y, end_of(y, t, feed, m), feed_of(y, t, feed, m), x, s, feed, n),
{
    assert(follows_back(x, y, s, t, feed, m));
    choose|n: nat| echoes(y, end_of(y, t, feed, m), feed_of(y, t, feed, m), x, s, feed, n)
}

/// If `y` does what `x` does and `z` does what `y` does, `z` does what `x` does.
pub proof fn lemma_simulates_transitive(x: Seq<char>, y: Seq<char>, z: Seq<char>)
    requires
        simulates(x, y),
        simulates(y, z),
    ensures
        simulates(x, z),
{
    assert forall|s: State, t: State, feed: Feed, n: nat| #[trigger]
        follows(x, z, s, t, feed, n) by {
        if akin(s, t, feed) && s.ip == 0 && exact_run(x, s, feed, n) is Some && finished(
            x,
            end_of(x, s, feed, n),
            feed_of(x, s, feed, n),
        ) {
            let m1 = lemma_answer(x, y, s, s, feed, n);
            let m2 = lemma_answer(y, z, s, t, feed, m1);
            assert(answers(x, end_of(x, s, feed, n), feed_of(x, s, feed, n), z, t, feed, m2));
        }
    }
    assert forall|s: State, t: State, feed: Feed, m: nat| #[trigger]
        follows_back(x, z, s, t, feed, m) by {
        if akin(s, t, feed) && s.ip == 0 && exact_run(z, t, feed, m) is Some && stopped(
            z,
            end_of(z, t, feed, m),
            feed_of(z, t, feed, m),
        ) {
            let n1 = lemma_answer_back(y, z, s, t, feed, m);
            let n2 = lemma_answer_back(x, y, s, s, feed, n1);
            assert(echoes(z, end_of(z, t, feed, m), feed_of(z, t, feed, m), x, s, feed, n2));
        }
    }
}

/// The state at the start of a stream, with everything else as in `s`.
pub open spec fn restart(s: State) -> State {
    State { ip: 0, ..s }
}

/// The run of `y + y2` that answers a finished run of `x + x2`.
proof fn lemma_concat_answer(
    x: Seq<char>,
    x2: Seq<char>,
    y: Seq<char>,
    y2: Seq<char>,
    s: State,
    t: State,
    feed: Feed,
    n: nat,
) -> (m: nat)
    requires
        simulates(x, y),
        simulates(x2, y2),
        akin(s, t, feed),
        s.ip == 0,
        exact_run(x + x2, s, feed, n) is Some,
        finished(x + x2, end_of(x + x2, s, feed, n), feed_of(x + x2, s, feed, n)),
    ensures
        answers(
            x + x2,
            end_of(x + x2, s, feed, n),
            feed_of(x + x2, s, feed, n),
            y + y2,
            t,
            feed,
            m,
        ),
{
    let none = Seq::<char>::empty();
    let code = x + x2;
    let target = y + y2;
    assert(none + x + x2 =~= code);
    assert(none + y + y2 =~= target);
    assert(x + x2 + none =~= code);
    assert(y + y2 + none =~= target);
    assert(moved(s, 0) == s);
    assert(moved(t, 0) == t);
    let a = end_of(code, s, feed, n);
    let ka = feed_of(code, s, feed, n);
    let n1 = lemma_run_leaves(none, x, x2, s, feed, n);
    let u = end_of(x, s, feed, n1);
    let ku = feed_of(x, s, feed, n1);
    assert(moved(u, 0) == u);
    lemma_exact_steady(x, s, feed, n1);
    if u.ip < x.len() {
        // The run ends inside `x`, where the machine waits or is cut short.
        lemma_step_within(none, x, x2, u, ku);
        let m1 = lemma_answer(x, y, s, t, feed, n1);
        let b = end_of(y, t, feed, m1);
        let kb = feed_of(y, t, feed, m1);
        lemma_run_within(none, y, y2, t, feed, m1);
        assert(moved(b, 0) == b);
        lemma_step_within(none, y, y2, b, kb);
        m1
    } else {
        let m1 = lemma_answer(x, y, s, t, feed, n1);
        let b = end_of(y, t, feed, m1);
        let kb = feed_of(y, t, feed, m1);
        lemma_run_within(none, y, y2, t, feed, m1);
        lemma_exact_steady(y, t, feed, m1);
        assert(moved(b, 0) == b);
        let u0 = restart(u);
        let b0 = restart(b);
        assert(moved(u0, x.len() as int) == u);
        assert(moved(b0, y.len() as int) == b);
        let rest = (n - n1) as nat;
        let n2 = lemma_run_leaves(x, x2, none, u0, ku, rest);
        let a2 = end_of(x2, u0, ku, n2);
        let ka2 = feed_of(x2, u0, ku, n2);
        if n2 < rest {
            // Behind `x2` the stream is at its end, so no instruction follows.
            assert(rationed_blocked(code, moved(a2, x.len() as int), ka2) == Some(Status::Halted));
            assert(false);
        }
        assert(a == moved(a2, x.len() as int));
        if a2.ip < x2.len() {
            lemma_step_within(x, x2, none, a2, ka2);
        }
        let m2 = lemma_answer(x2, y2, u0, b0, ku, n2);
        let c = end_of(y2, b0, ku, m2);
        let kc = feed_of(y2, b0, ku, m2);
        lemma_run_within(y, y2, none, b0, ku, m2);
        if c.ip < y2.len() {
            lemma_step_within(y, y2, none, c, kc);
        }
        lemma_exact_compose(target, t, feed, m1, m2);
        m1 + m2
    }
}

/// The run of `x + x2` that a blocked run of `y + y2` echoes.
proof fn lemma_concat_echo(
    x: Seq<char>,
    x2: Seq<char>,
    y: Seq<char>,
    y2: Seq<char>,
    s: State,
    t: State,
    feed: Feed,
    m: nat,
) -> (n: nat)
    requires
        simulates(x, y),
        simulates(x2, y2),
        akin(s, t, feed),
        s.ip == 0,
        exact_run(y + y2, t, feed, m) is Some,
        stopped(y + y2, end_of(y + y2, t, feed, m), feed_of(y + y2, t, feed, m)),
    ensures
        echoes(
            y + y2,
            end_of(y + y2, t, feed, m),
            feed_of(y + y2, t, feed, m),
            x + x2,
            s,
            feed,
            n,
        ),
{
    let none = Seq::<char>::empty();
    let code = x + x2;
    let target = y + y2;
    assert(none + x + x2 =~= code);
    assert(none + y + y2 =~= target);
    assert(x + x2 + none =~= code);
    assert(y + y2 + none =~= target);
    assert(moved(s, 0) == s);
    assert(moved(t, 0) == t);
    let b = end_of(target, t, feed, m);
    let m1 = lemma_run_leaves(none, y, y2, t, feed, m);
    let u = end_of(y, t, feed, m1);
    let ku = feed_of(y, t, feed, m1);
    assert(moved(u, 0) == u);
    lemma_exact_steady(y, t, feed, m1);
    if u.ip < y.len() {
        lemma_step_within(none, y, y2, u, ku);
    }
    let n1 = lemma_answer_back(x, y, s, t, feed, m1);
    let a1 = end_of(x, s, feed, n1);
    let ka1 = feed_of(x, s, feed, n1);
    lemma_run_within(none, x, x2, s, feed, n1);
    lemma_exact_steady(x, s, feed, n1);
    assert(moved(a1, 0) == a1);
    if a1.ip < x.len() {
        lemma_step_within(none, x, x2, a1, ka1);
        n1
    } else {
        let a0 = restart(a1);
        let u0 = restart(u);
        assert(moved(a0, x.len() as int) == a1);
        assert(moved(u0, y.len() as int) == u);
        assert(ka1 == ku);
        let rest = (m - m1) as nat;
        let m2 = lemma_run_leaves(y, y2, none, u0, ku, rest);
        let b2 = end_of(y2, u0, ku, m2);
        let kb2 = feed_of(y2, u0, ku, m2);
        if m2 < rest {
            assert(rationed_blocked(target, moved(b2, y.len() as int), kb2) == Some(
                Status::Halted,
            ));
            assert(false);
        }
        assert(b == moved(b2, y.len() as int));
        if b2.ip < y2.len() {
            lemma_step_within(y, y2, none, b2, kb2);
        }
        let n2 = lemma_answer_back(x2, y2, a0, u0, ku, m2);
        let a2 = end_of(x2, a0, ku, n2);
        let ka2 = feed_of(x2, a0, ku, n2);
        lemma_run_within(x, x2, none, a0, ku, n2);
        if a2.ip < x2.len() {
            lemma_step_within(x, x2, none, a2, ka2);
        }
        lemma_exact_compose(code, s, feed, n1, n2);
        n1 + n2
    }
}

/// If `y` does what `x` does and `y2` does what `x2` does, then `y` followed
/// by `y2` does what `x` followed by `x2` does.
pub proof fn lemma_simulates_concat(x: Seq<char>, x2: Seq<char>, y: Seq<char>, y2: Seq<char>)
    requires
        simulates(x, y),
        simulates(x2, y2),
    ensures
        simulates(x + x2, y + y2),
{
    lemma_well_nested_concat(x, x2);
    lemma_well_nested_concat(y, y2);
    assert forall|s: State, t: State, feed: Feed, n: nat| #[trigger]
        follows(x + x2, y + y2, s, t, feed, n) by {
        if akin(s, t, feed) && s.ip == 0 && exact_run(x + x2, s, feed, n) is Some && finished(
            x + x2,
            end_of(x + x2, s, feed, n),
            feed_of(x + x2, s, feed, n),
        ) {
            let m = lemma_concat_answer(x, x2, y, y2, s, t, feed, n);
        }
    }
    assert forall|s: State, t: State, feed: Feed, m: nat| #[trigger]
        follows_back(x + x2, y + y2, s, t, feed, m) by {
        if akin(s, t, feed) && s.ip == 0 && exact_run(y + y2, t, feed, m) is Some && stopped(
            y + y2,
            end_of(y + y2, t, feed, m),
            feed_of(y + y2, t, feed, m),
        ) {
            let n = lemma_concat_echo(x, x2, y, y2, s, t, feed, m);
        }
    }
}

/// The stream `x` as the body of a loop.
pub open spec fn looped(x: Seq<char>) -> Seq<char> {
    seq!['['] + x + seq![']']
}

/// In a loop around a well-nested body the two loop markers are partners.
pub proof fn lemma_loop_partners(x: Seq<char>)
    requires
        well_nested(x),
    ensures
        well_nested(looped(x)),
        close_of(looped(x), 0) == x.len() + 1,
        open_of(looped(x), x.len() as int + 1) == 0,
{
    let code = looped(x);
    let last = x.len() as int + 1;
    lemma_well_nested_loop(x);
    assert(depth(seq!['['], 1) == 1) by {
        reveal_with_fuel(depth, 2);
    }
    assert forall|j: int| 0 < j <= last implies #[trigger] depth(code, j) > depth(
        code,
        0,
    ) by {
        lemma_depth_within(seq!['['], x, seq![']'], j - 1);
    }
    lemma_depth_within(seq!['['], x, seq![']'], x.len() as int);
    assert(code[last] == ']');
    assert(code[0] == '[');
    assert(depth(code, last + 1) == depth(code, last) - 1);
    assert(matched(code, 0, last));
    lemma_close_unique(code, 0, last, close_of(code, 0));
    lemma_open_unique(code, 0, open_of(code, last), last);
}

/// The run of the loop around `y` that answers a finished run of the loop
/// around `x`, for machines that stand at the start of the bodies.
proof fn lemma_body_answer(
    x: Seq<char>,
    y: Seq<char>,
    s: State,
    t: State,
    feed: Feed,
    n: nat,
) -> (m: nat)
    requires
        simulates(x, y),
        akin(s, t, feed),
        s.ip == 1,
        exact_run(looped(x), s, feed, n) is Some,
        finished(looped(x), end_of(looped(x), s, feed, n), feed_of(looped(x), s, feed, n)),
    ensures
        answers(
            looped(x),
            end_of(looped(x), s, feed, n),
            feed_of(looped(x), s, feed, n),
            looped(y),
            t,
            feed,
            m,
        ),
    decreases n,
{
    let open = seq!['['];
    let close = seq![']'];
    let lx = looped(x);
    let ly = looped(y);
    lemma_loop_partners(x);
    lemma_loop_partners(y);
    let s0 = restart(s);
    let t0 = restart(t);
    assert(moved(s0, 1) == s);
    assert(moved(t0, 1) == t);
    let a = end_of(lx, s, feed, n);
    let ka = feed_of(lx, s, feed, n);
    let n1 = lemma_run_leaves(open, x, close, s0, feed, n);
    let u = end_of(x, s0, feed, n1);
    let ku = feed_of(x, s0, feed, n1);
    lemma_exact_steady(x, s0, feed, n1);
    if u.ip < x.len() {
        lemma_step_within(open, x, close, u, ku);
        let m1 = lemma_answer(x, y, s0, t0, feed, n1);
        let b = end_of(y, t0, feed, m1);
        let kb = feed_of(y, t0, feed, m1);
        lemma_run_within(open, y, close, t0, feed, m1);
        lemma_step_within(open, y, close, b, kb);
        m1
    } else {
        let m1 = lemma_answer(x, y, s0, t0, feed, n1);
        let b = end_of(y, t0, feed, m1);
        let kb = feed_of(y, t0, feed, m1);
        lemma_run_within(open, y, close, t0, feed, m1);
        lemma_exact_steady(y, t0, feed, m1);
        let su = moved(u, 1);
        let sb = moved(b, 1);
        let rest = (n - n1) as nat;
        assert(lx[su.ip] == ']');
        assert(ly[sb.ip] == ']');
        assert(store_of(u, ku).cells[u.cursor] == store_of(b, kb).cells[b.cursor]);
        assert(u.cell() == b.cell());
        assert(rest > 0);
        let (su1, ku1) = rationed_step(lx, su, ku);
        let (sb1, kb1) = rationed_step(ly, sb, kb);
        assert(store_of(su1, ku1) == store_of(u, ku)) by {
            assert(store_of(su1, ku1).cells =~= store_of(u, ku).cells);
        }
        assert(store_of(sb1, kb1) == store_of(b, kb)) by {
            assert(store_of(sb1, kb1).cells =~= store_of(b, kb).cells);
        }
        if u.cell() == 0 {
            if rest > 1 {
                assert(rationed_blocked(lx, su1, ku1) == Some(Status::Halted));
                assert(false);
            }
            lemma_exact_compose(ly, t, feed, m1, 1);
            assert(exact_run(ly, sb, kb, 1) == Some((sb1, kb1))) by {
                reveal_with_fuel(exact_run, 2);
            }
            m1 + 1
        } else {
            let m2 = lemma_body_answer(x, y, su1, sb1, ku, (rest - 1) as nat);
            lemma_exact_compose(ly, t, feed, m1, 1 + m2);
            m1 + 1 + m2
        }
    }
}

/// The run of the loop around `x` that a blocked run of the loop around
/// `y` echoes, for machines that stand at the start of the bodies.
proof fn lemma_body_echo(
    x: Seq<char>,
    y: Seq<char>,
    s: State,
    t: State,
    feed: Feed,
    m: nat,
) -> (n: nat)
    requires
        simulates(x, y),
        akin(s, t, feed),
        s.ip == 1,
        exact_run(looped(y), t, feed, m) is Some,
        stopped(looped(y), end_of(looped(y), t, feed, m), feed_of(looped(y), t, feed, m)),
    ensures
        echoes(
            looped(y),
            end_of(looped(y), t, feed, m),
            feed_of(looped(y), t, feed, m),
            looped(x),
            s,
            feed,
            n,
        ),
    decreases m,
{
    let open = seq!['['];
    let close = seq![']'];
    let lx = looped(x);
    let ly = looped(y);
    lemma_loop_partners(x);
    lemma_loop_partners(y);
    let s0 = restart(s);
    let t0 = restart(t);
    assert(moved(s0, 1) == s);
    assert(moved(t0, 1) == t);
    let m1 = lemma_run_leaves(open, y, close, t0, feed, m);
    let u = end_of(y, t0, feed, m1);
    let ku = feed_of(y, t0, feed, m1);
    lemma_exact_steady(y, t0, feed, m1);
    if u.ip < y.len() {
        lemma_step_within(open, y, close, u, ku);
    }
    let n1 = lemma_answer_back(x, y, s0, t0, feed, m1);
    let a = end_of(x, s0, feed, n1);
    let ka = feed_of(x, s0, feed, n1);
    lemma_run_within(open, x, close, s0, feed, n1);
    lemma_exact_steady(x, s0, feed, n1);
    if a.ip < x.len() {
        lemma_step_within(open, x, close, a, ka);
        n1
    } else {
        let sa = moved(a, 1);
        let sb = moved(u, 1);
        let rest = (m - m1) as nat;
        assert(ka == ku);
        assert(lx[sa.ip] == ']');
        assert(ly[sb.ip] == ']');
        assert(store_of(a, ka).cells[a.cursor] == store_of(u, ku).cells[u.cursor]);
        assert(a.cell() == u.cell());
        assert(rest > 0);
        let (sa1, ka1) = rationed_step(lx, sa, ka);
        let (sb1, kb1) = rationed_step(ly, sb, ku);
        assert(store_of(sa1, ka1) == store_of(a, ka)) by {
            assert(store_of(sa1, ka1).cells =~= store_of(a, ka).cells);
        }
        assert(store_of(sb1, kb1) == store_of(u, ku)) by {
            assert(store_of(sb1, kb1).cells =~= store_of(u, ku).cells);
        }
        if u.cell() == 0 {
            if rest > 1 {
                assert(rationed_blocked(ly, sb1, kb1) == Some(Status::Halted));
                assert(false);
            }
            lemma_exact_compose(lx, s, feed, n1, 1);
            assert(exact_run(lx, sa, ka, 1) == Some((sa1, ka1))) by {
                reveal_with_fuel(exact_run, 2);
            }
            n1 + 1
        } else {
            let n2 = lemma_body_echo(x, y, sa1, sb1, ku, (rest - 1) as nat);
            lemma_exact_compose(lx, s, feed, n1, 1 + n2);
            n1 + 1 + n2
        }
    }
}

/// If `y` does what `x` does, the loop around `y` does what the loop
/// around `x` does.
pub proof fn lemma_simulates_loop(x: Seq<char>, y: Seq<char>)
    requires
        simulates(x, y),
    ensures
        simulates(looped(x), looped(y)),
{
    let lx = looped(x);
    let ly = looped(y);
    lemma_loop_partners(x);
    lemma_loop_partners(y);
    assert forall|s: State, t: State, feed: Feed, n: nat| #[trigger]
        follows(lx, ly, s, t, feed, n) by {
        if akin(s, t, feed) && s.ip == 0 && exact_run(lx, s, feed, n) is Some && finished(
            lx,
            end_of(lx, s, feed, n),
            feed_of(lx, s, feed, n),
        ) {
            assert(lx[0] == '[');
            assert(ly[0] == '[');
            assert(n > 0);
            assert(store_of(s, feed).cells[s.cursor] == store_of(t, feed).cells[t.cursor]);
            assert(s.cell() == t.cell());
            let (s1, k1) = rationed_step(lx, s, feed);
            let (t1, k2) = rationed_step(ly, t, feed);
            assert(store_of(s1, k1) == store_of(s, feed)) by {
                assert(store_of(s1, k1).cells =~= store_of(s, feed).cells);
            }
            assert(store_of(t1, k2) == store_of(t, feed)) by {
                assert(store_of(t1, k2).cells =~= store_of(t, feed).cells);
            }
            if s.cell() == 0 {
                if n > 1 {
                    assert(rationed_blocked(lx, s1, k1) == Some(Status::Halted));
                    assert(false);
                }
                assert(exact_run(ly, t, feed, 1) == Some((t1, k2))) by {
                    reveal_with_fuel(exact_run, 2);
                }
                assert(answers(
                    lx,
                    end_of(lx, s, feed, n),
                    feed_of(lx, s, feed, n),
                    ly,
                    t,
                    feed,
                    1,
                ));
            } else {
                let m = lemma_body_answer(x, y, s1, t1, feed, (n - 1) as nat);
                assert(exact_run(ly, t, feed, 1 + m) == exact_run(ly, t1, k2, m));
                assert(answers(
                    lx,
                    end_of(lx, s, feed, n),
                    feed_of(lx, s, feed, n),
                    ly,
                    t,
                    feed,
                    1 + m,
                ));
            }
        }
    }    assert forall|s: State, t: State, feed: Feed, m: nat| #[trigger]
        follows_back(lx, ly, s, t, feed, m) by {
        if akin(s, t, feed) && s.ip == 0 && exact_run(ly, t, feed, m) is Some && stopped(
            ly,
            end_of(ly, t, feed, m),
            feed_of(ly, t, feed, m),
        ) {
            assert(lx[0] == '[');
            assert(ly[0] == '[');
            assert(m > 0);
            assert(store_of(s, feed).cells[s.cursor] == store_of(t, feed).cells[t.cursor]);
            assert(s.cell() == t.cell());
            let (s1, k1) = rationed_step(lx, s, feed);
            let (t1, k2) = rationed_step(ly, t, feed);
            assert(store_of(s1, k1) == store_of(s, feed)) by {
                assert(store_of(s1, k1).cells =~= store_of(s, feed).cells);
            }
            assert(store_of(t1, k2) == store_of(t, feed)) by {
                assert(store_of(t1, k2).cells =~= store_of(t, feed).cells);
            }
            if s.cell() == 0 {
                if m > 1 {
                    assert(rationed_blocked(ly, t1, k2) == Some(Status::Halted));
                    assert(false);
                }
                assert(exact_run(lx, s, feed, 1) == Some((s1, k1))) by {
                    reveal_with_fuel(exact_run, 2);
                }
                assert(echoes(
                    ly,
                    end_of(ly, t, feed, m),
                    feed_of(ly, t, feed, m),
                    lx,
                    s,
                    feed,
                    1,
                ));
            } else {
                let n = lemma_body_echo(x, y, s1, t1, feed, (m - 1) as nat);
                assert(exact_run(lx, s, feed, 1 + n) == exact_run(lx, s1, k1, n));
                assert(echoes(
                    ly,
                    end_of(ly, t, feed, m),
                    feed_of(ly, t, feed, m),
                    lx,
                    s,
                    feed,
                    1 + n,
                ));
            }
        }
    }
}


} // verus!
