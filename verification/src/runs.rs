//! Runs of the tape machine that is handed its keystrokes and, where the
//! proofs need it, a ration of output: runs of an exact length, how they
//! compose, and how the run of a well-nested stretch of a stream relates to
//! the run of the stretch on its own.
use vstd::prelude::*;
use crate::brackets::{
    close_of, lemma_close_of, lemma_close_unique, lemma_matched_within, lemma_open_of,
    lemma_open_unique, open_of, well_nested,
};
use crate::effect::{less_room, Store};
use crate::machine::{fed_blocked, fed_run, fed_step, State, Status};

verus! {

/// What a run is supplied with: the keystrokes that will be typed and, if
/// the output is rationed, how many characters may still be written.
pub struct Feed {
    pub keys: Seq<u8>,
    pub room: Option<nat>,
}

/// The keystrokes, with no ration on the output.
pub open spec fn unrationed(keys: Seq<u8>) -> Feed {
    Feed { keys, room: None }
}

/// The next instruction is an output.
pub open spec fn at_output(code: Seq<char>, s: State) -> bool {
    0 <= s.ip < code.len() && code[s.ip] == '.'
}

/// Whether, and why, the machine cannot go on: as the machine that is
/// handed its keystrokes, and it is paused in front of an output once the
/// ration of output is used up.
pub open spec fn rationed_blocked(code: Seq<char>, s: State, feed: Feed) -> Option<Status> {
    if at_output(code, s) && feed.room == Some(0nat) {
        Some(Status::Paused)
    } else {
        fed_blocked(code, s, feed.keys)
    }
}

/// The next instruction of the machine; an output takes one character off
/// the ration.
pub open spec fn rationed_step(code: Seq<char>, s: State, feed: Feed) -> (State, Feed) {
    (
        fed_step(code, s, feed.keys).0,
        Feed {
            keys: fed_step(code, s, feed.keys).1,
            room: if at_output(code, s) {
                less_room(feed.room)
            } else {
                feed.room
            },
        },
    )
}

/// The state after exactly `n` instructions, and what is left of the feed;
/// there is none if the machine is blocked earlier.
pub open spec fn exact_run(code: Seq<char>, s: State, feed: Feed, n: nat) -> Option<
    (State, Feed),
>
    decreases n,
{
    if n == 0 {
        Some((s, feed))
    } else if rationed_blocked(code, s, feed) is Some {
        None
    } else {
        let (next, rest) = rationed_step(code, s, feed);
        exact_run(code, next, rest, (n - 1) as nat)
    }
}

/// The state after a run of exactly `n` instructions.
pub open spec fn end_of(code: Seq<char>, s: State, feed: Feed, n: nat) -> State {
    exact_run(code, s, feed, n).unwrap().0
}

/// What is left of the feed after a run of exactly `n` instructions.
pub open spec fn feed_of(code: Seq<char>, s: State, feed: Feed, n: nat) -> Feed {
    exact_run(code, s, feed, n).unwrap().1
}

/// A run of `n1` instructions followed by a run of `n2` is a run of `n1 + n2`.
pub proof fn lemma_exact_compose(code: Seq<char>, s: State, feed: Feed, n1: nat, n2: nat)
    requires
        exact_run(code, s, feed, n1) is Some,
    ensures
        exact_run(code, s, feed, n1 + n2) == exact_run(
            code,
            end_of(code, s, feed, n1),
            feed_of(code, s, feed, n1),
            n2,
        ),
    decreases n1,
{
    if n1 > 0 {
        let (next, rest) = rationed_step(code, s, feed);
        lemma_exact_compose(code, next, rest, (n1 - 1) as nat, n2);
    }
}

/// Two runs from one state that both end where the machine is blocked are
/// the same run.
pub proof fn lemma_exact_stop_unique(code: Seq<char>, s: State, feed: Feed, n1: nat, n2: nat)
    requires
        exact_run(code, s, feed, n1) is Some,
        exact_run(code, s, feed, n2) is Some,
        rationed_blocked(code, end_of(code, s, feed, n1), feed_of(code, s, feed, n1))
            is Some,
        rationed_blocked(code, end_of(code, s, feed, n2), feed_of(code, s, feed, n2))
            is Some,
    ensures
        n1 == n2,
{
    if n1 < n2 {
        lemma_exact_compose(code, s, feed, n1, (n2 - n1) as nat);
    } else if n2 < n1 {
        lemma_exact_compose(code, s, feed, n2, (n1 - n2) as nat);
    }
}

/// Without a ration, a run of exactly `n` instructions is what the machine
/// that is handed its keystrokes does in at most `n`.
pub proof fn lemma_exact_is_fed(code: Seq<char>, s: State, keys: Seq<u8>, n: nat)
    requires
        exact_run(code, s, unrationed(keys), n) is Some,
    ensures
        fed_run(code, s, keys, n).0 == end_of(code, s, unrationed(keys), n),
        unrationed(fed_run(code, s, keys, n).1) == feed_of(code, s, unrationed(keys), n),
    decreases n,
{
    if n > 0 {
        let (next, rest) = fed_step(code, s, keys);
        lemma_exact_is_fed(code, next, rest, (n - 1) as nat);
    }
}

/// Without a ration, what the machine that is handed its keystrokes does in
/// at most `n` instructions is a run of an exact length, which is less than
/// `n` only where the machine is blocked.
pub proof fn lemma_fed_is_exact(code: Seq<char>, s: State, keys: Seq<u8>, n: nat) -> (m: nat)
    ensures
        m <= n,
        exact_run(code, s, unrationed(keys), m) == Some(
            (fed_run(code, s, keys, n).0, unrationed(fed_run(code, s, keys, n).1)),
        ),
        m < n ==> fed_blocked(code, fed_run(code, s, keys, n).0, fed_run(code, s, keys, n).1)
            is Some,
    decreases n,
{
    if n == 0 || fed_blocked(code, s, keys) is Some {
        0
    } else {
        let (next, rest) = fed_step(code, s, keys);
        let m = lemma_fed_is_exact(code, next, rest, (n - 1) as nat);
        m + 1
    }
}

/// The machine is well formed, debug mode is off, and no keystroke waits.
pub open spec fn steady(s: State) -> bool {
    &&& s.wf()
    &&& !s.debug
    &&& s.key is None
}

/// An instruction keeps a steady machine steady, and its limit.
pub proof fn lemma_step_steady(code: Seq<char>, s: State, feed: Feed)
    requires
        steady(s),
        rationed_blocked(code, s, feed) is None,
    ensures
        steady(rationed_step(code, s, feed).0),
        rationed_step(code, s, feed).0.limit == s.limit,
{
}

/// A run keeps a steady machine steady, and its limit.
pub proof fn lemma_exact_steady(code: Seq<char>, s: State, feed: Feed, n: nat)
    requires
        steady(s),
        exact_run(code, s, feed, n) is Some,
    ensures
        steady(end_of(code, s, feed, n)),
        end_of(code, s, feed, n).limit == s.limit,
    decreases n,
{
    if n > 0 {
        let (next, rest) = rationed_step(code, s, feed);
        lemma_step_steady(code, s, feed);
        lemma_exact_steady(code, next, rest, (n - 1) as nat);
    }
}

/// What the machine works on, as the store that streams are said to act on:
/// cells that the tape has not materialised yet hold zero.
pub open spec fn store_of(s: State, feed: Feed) -> Store {
    Store {
        cells: Map::total(
            |i: int|
                if 0 <= i < s.tape.len() {
                    s.tape[i]
                } else {
                    0u8
                },
        ),
        cursor: s.cursor,
        keys: feed.keys,
        output: s.output,
        limit: s.limit,
        room: feed.room,
    }
}

/// The state with its instruction pointer `d` positions further on.
pub open spec fn moved(s: State, d: int) -> State {
    State { ip: s.ip + d, ..s }
}

/// Inside a well-nested stretch `x` of a stream, the machine does what it
/// does on `x` alone, and it stays within the stretch or comes to stand
/// right behind it.
pub proof fn lemma_step_within(
    a: Seq<char>,
    x: Seq<char>,
    b: Seq<char>,
    s: State,
    feed: Feed,
)
    requires
        well_nested(x),
        0 <= s.ip < x.len(),
    ensures
        rationed_blocked(a + x + b, moved(s, a.len() as int), feed) == rationed_blocked(x, s, feed),
        rationed_blocked(x, s, feed) is None ==> {
            &&& rationed_step(a + x + b, moved(s, a.len() as int), feed) == (
                moved(rationed_step(x, s, feed).0, a.len() as int),
                rationed_step(x, s, feed).1,
            )
            &&& 0 <= rationed_step(x, s, feed).0.ip <= x.len()
        },
{
    let code = a + x + b;
    let at = a.len() + s.ip;
    assert(code[at] == x[s.ip]);
    if x[s.ip] == '[' {
        lemma_close_of(x, s.ip);
        lemma_matched_within(a, x, b, s.ip, close_of(x, s.ip));
        lemma_close_unique(code, at, a.len() + close_of(x, s.ip), close_of(code, at));
    } else if x[s.ip] == ']' {
        lemma_open_of(x, s.ip);
        lemma_matched_within(a, x, b, open_of(x, s.ip), s.ip);
        lemma_open_unique(code, a.len() + open_of(x, s.ip), open_of(code, at), at);
    }
}

/// A run of a well-nested stretch `x` on its own is a run of the stream
/// that holds the stretch.
pub proof fn lemma_run_within(
    a: Seq<char>,
    x: Seq<char>,
    b: Seq<char>,
    s: State,
    feed: Feed,
    n: nat,
)
    requires
        well_nested(x),
        0 <= s.ip <= x.len(),
        exact_run(x, s, feed, n) is Some,
    ensures
        exact_run(a + x + b, moved(s, a.len() as int), feed, n) == Some(
            (moved(end_of(x, s, feed, n), a.len() as int), feed_of(x, s, feed, n)),
        ),
        0 <= end_of(x, s, feed, n).ip <= x.len(),
    decreases n,
{
    if n > 0 {
        lemma_step_within(a, x, b, s, feed);
        let (next, rest) = rationed_step(x, s, feed);
        lemma_run_within(a, x, b, next, rest, (n - 1) as nat);
    }
}

/// A run of a stream that starts inside a well-nested stretch `x` begins
/// with a run of `x` on its own, of `n1` instructions; if that is not the
/// whole run, it ends right behind the stretch.
pub proof fn lemma_run_leaves(
    a: Seq<char>,
    x: Seq<char>,
    b: Seq<char>,
    s: State,
    feed: Feed,
    n: nat,
) -> (n1: nat)
    requires
        well_nested(x),
        0 <= s.ip <= x.len(),
        exact_run(a + x + b, moved(s, a.len() as int), feed, n) is Some,
    ensures
        n1 <= n,
        exact_run(x, s, feed, n1) is Some,
        0 <= end_of(x, s, feed, n1).ip <= x.len(),
        n1 < n ==> end_of(x, s, feed, n1).ip == x.len(),
        exact_run(
            a + x + b,
            moved(end_of(x, s, feed, n1), a.len() as int),
            feed_of(x, s, feed, n1),
            (n - n1) as nat,
        ) == exact_run(a + x + b, moved(s, a.len() as int), feed, n),
    decreases n,
{
    if n == 0 || s.ip == x.len() {
        0
    } else {
        lemma_step_within(a, x, b, s, feed);
        let (next, rest) = rationed_step(x, s, feed);
        let n1 = lemma_run_leaves(a, x, b, next, rest, (n - 1) as nat);
        n1 + 1
    }
}

} // verus!
