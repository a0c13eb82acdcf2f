//! How a run under a ration of output relates to the run without one: it is
//! the same run, cut short in front of the first output that the ration
//! does not cover.
use vstd::prelude::*;
use crate::machine::{fed_blocked, fed_run, State, Status};
use crate::runs::{
    at_output, end_of, exact_run, feed_of, lemma_step_steady, rationed_blocked, rationed_step,
    steady, unrationed, Feed,
};
use crate::simulation::cut_short;

verus! {

/// The keystrokes, with room for `room` more characters of output.
pub open spec fn rationed(keys: Seq<u8>, room: nat) -> Feed {
    Feed { keys, room: Some(room) }
}

/// The output of a machine never shrinks, and with debug mode off only an
/// output instruction adds to it, one character.
pub proof fn lemma_step_output(code: Seq<char>, s: State, feed: Feed)
    requires
        rationed_blocked(code, s, feed) is None,
    ensures
        s.output.is_prefix_of(rationed_step(code, s, feed).0.output),
        !s.debug ==> rationed_step(code, s, feed).0.output.len() == s.output.len() + (if at_output(
            code,
            s,
        ) {
            1int
        } else {
            0int
        }),
        at_output(code, s) ==> rationed_step(code, s, feed).0.output == s.output.push(
            s.cell() as char,
        ),
{
}

/// The output after a part of a run is the beginning of the output after
/// the whole run.
pub proof fn lemma_output_grows(code: Seq<char>, s: State, feed: Feed, n1: nat, n: nat)
    requires
        n1 <= n,
        exact_run(code, s, feed, n) is Some,
    ensures
        exact_run(code, s, feed, n1) is Some,
        end_of(code, s, feed, n1).output.is_prefix_of(end_of(code, s, feed, n).output),
    decreases n,
{
    if n > 0 {
        let (next, rest) = rationed_step(code, s, feed);
        lemma_step_output(code, s, feed);
        if n1 > 0 {
            lemma_output_grows(code, next, rest, (n1 - 1) as nat, (n - 1) as nat);
        } else {
            lemma_output_grows(code, next, rest, 0, (n - 1) as nat);
        }
    }
}

/// A run under a ration is a run without one: the machine passes through
/// the same states.
pub proof fn lemma_rationed_is_run(code: Seq<char>, s: State, keys: Seq<u8>, room: nat, n: nat)
    requires
        exact_run(code, s, rationed(keys, room), n) is Some,
    ensures
        exact_run(code, s, unrationed(keys), n) is Some,
        end_of(code, s, unrationed(keys), n) == end_of(code, s, rationed(keys, room), n),
        feed_of(code, s, unrationed(keys), n).keys == feed_of(
            code,
            s,
            rationed(keys, room),
            n,
        ).keys,
    decreases n,
{
    if n > 0 {
        let (next, rest) = rationed_step(code, s, rationed(keys, room));
        let (same, plain) = rationed_step(code, s, unrationed(keys));
        assert(plain == unrationed(rest.keys));
        assert(rest == rationed(rest.keys, rest.room->0));
        lemma_rationed_is_run(code, next, rest.keys, rest.room->0, (n - 1) as nat);
    }
}

/// A run that writes more than the ration covers is cut short under the
/// ration: after `n1` of its instructions the machine stands in front of
/// the first output that the ration does not cover.
pub proof fn lemma_cut_exists(code: Seq<char>, s: State, keys: Seq<u8>, room: nat, n: nat) -> (n1:
    nat)
    requires
        steady(s),
        exact_run(code, s, unrationed(keys), n) is Some,
        end_of(code, s, unrationed(keys), n).output.len() > s.output.len() + room,
    ensures
        n1 < n,
        exact_run(code, s, rationed(keys, room), n1) is Some,
        cut_short(
            code,
            end_of(code, s, rationed(keys, room), n1),
            feed_of(code, s, rationed(keys, room), n1),
        ),
        end_of(code, s, rationed(keys, room), n1).output.len() == s.output.len() + room,
    decreases n,
{
    if at_output(code, s) && room == 0 {
        0
    } else {
        lemma_step_output(code, s, unrationed(keys));
        lemma_step_steady(code, s, unrationed(keys));
        let (next, plain) = rationed_step(code, s, unrationed(keys));
        let (same, rest) = rationed_step(code, s, rationed(keys, room));
        assert(plain == unrationed(rest.keys));
        assert(rest == rationed(rest.keys, rest.room->0));
        let n1 = lemma_cut_exists(code, next, rest.keys, rest.room->0, (n - 1) as nat);
        n1 + 1
    }
}

/// The machine, handed its keystrokes, never faults on the stream,
/// however long it runs.
pub open spec fn never_faults(code: Seq<char>, s: State, keys: Seq<u8>) -> bool {
    forall|n: nat|
        !(fed_blocked(code, (#[trigger] fed_run(code, s, keys, n)).0, fed_run(code, s, keys, n).1)
            matches Some(Status::Fault(_)))
}

} // verus!
