//! The optimizer keeps what a stream does: a well-nested stream and its
//! optimized form, written out in primitive symbols again, make the tape
//! machine write the same output and leave the same store, in runs that end
//! and in runs that never end.
//!
//! The laws speak of token streams through the primitive symbols that the
//! tokens abbreviate. The C statement that the code generator emits for a
//! token is meant to do what those symbols do; C itself is not modelled
//! here. Debug mode is off throughout: a window dump shows the cells
//! materialised so far, and the optimized stream may materialise fewer.
use vstd::prelude::*;
use crate::brackets::{
    bracket_delta, close_of, depth, lemma_after_well_nested, lemma_close_of, lemma_depth_agrees,
    lemma_depth_alike, lemma_depth_push, lemma_inside_well_nested, lemma_well_nested_concat,
    lemma_well_nested_loop, well_nested,
};
use crate::effect::{
    effect, lemma_coalesced_refines, lemma_normal_form_refines, lemma_spelled_concat,
    lemma_spelled_single, refines, spelled, spelled_token, sym_row, Store,
};
use crate::machine::{fed_blocked, fed_run, State, Status};
use crate::outputs::{
    lemma_cut_exists, lemma_output_grows, lemma_rationed_is_run, lemma_step_output, never_faults,
    rationed,
};
use crate::runs::{
    at_output, end_of, exact_run, feed_of, lemma_exact_compose, lemma_exact_is_fed,
    lemma_exact_steady, lemma_fed_is_exact, rationed_blocked, rationed_step, steady, store_of,
    unrationed,
};
use crate::optimizer::{
    all_known, cancels, closes_idiom, coalesced, emitted, expanded, feed, gathered, lexed,
    normal_form, optimized, primitive, row, sym_of, Gathered, Sym, Token,
};
use crate::simple::{
    clear_loop, lemma_clear_loops_simulate, lemma_simple_run, lemma_simple_simulates,
    lemma_written_concat, lemma_written_single, sym_chars, written,
};
use crate::simulation::{
    cut_short, faulted, lemma_answer_back, alike, finished, lemma_answer, lemma_simulates_concat,
    lemma_simulates_loop, lemma_simulates_transitive, looped, simulates,
};
use crate::simple::simple;

verus! {

/// The character that stands for a symbol where only the nesting matters.
pub open spec fn outline_char(c: Sym) -> char {
    if c == Sym::Open {
        '['
    } else if c == Sym::Close {
        ']'
    } else {
        '.'
    }
}

/// The stream with every symbol but the loop markers blanked out.
pub open spec fn outline(s: Seq<Sym>) -> Seq<char> {
    Seq::new(s.len(), |i: int| outline_char(s[i]))
}

/// The loop markers of the stream pair up.
pub open spec fn closed(s: Seq<Sym>) -> bool {
    well_nested(outline(s))
}

/// The outline of two streams in a row.
pub proof fn lemma_outline_concat(a: Seq<Sym>, b: Seq<Sym>)
    ensures
        outline(a + b) == outline(a) + outline(b),
{
    assert(outline(a + b) =~= outline(a) + outline(b));
}

/// In front of the first loop marker the depth is zero.
pub proof fn lemma_simple_depth(s: Seq<Sym>, k: int)
    requires
        0 <= k <= s.len(),
        simple(s.take(k)),
    ensures
        depth(outline(s), k) == 0,
    decreases k,
{
    if k > 0 {
        assert(s.take(k - 1) =~= s.take(k).take(k - 1));
        assert forall|i: int| 0 <= i < k - 1 implies #[trigger] s.take(k - 1)[i] != Sym::Open
            && s.take(k - 1)[i] != Sym::Close by {
            assert(s.take(k)[i] == s.take(k - 1)[i]);
        }
        lemma_simple_depth(s, k - 1);
        assert(s.take(k)[k - 1] == s[k - 1]);
    }
}

/// A stream without loop markers is closed.
pub proof fn lemma_simple_closed(s: Seq<Sym>)
    requires
        simple(s),
    ensures
        closed(s),
{
    assert forall|i: int| 0 <= i <= s.len() implies depth(outline(s), i) >= 0 by {
        assert forall|j: int| 0 <= j < i implies #[trigger] s.take(i)[j] != Sym::Open && s.take(
            i,
        )[j] != Sym::Close by {
            assert(s.take(i)[j] == s[j]);
        }
        lemma_simple_depth(s, i);
    }
    assert(s.take(s.len() as int) =~= s);
    lemma_simple_depth(s, s.len() as int);
}

/// The position of the first loop marker at or behind `i`, or the length of
/// the stream if there is none.
pub proof fn lemma_first_marker(s: Seq<Sym>, i: int) -> (p: int)
    requires
        0 <= i <= s.len(),
        simple(s.take(i)),
    ensures
        i <= p <= s.len(),
        simple(s.take(p)),
        p < s.len() ==> s[p] == Sym::Open || s[p] == Sym::Close,
    decreases s.len() - i,
{
    if i == s.len() || s[i] == Sym::Open || s[i] == Sym::Close {
        i
    } else {
        assert forall|j: int| 0 <= j < i + 1 implies #[trigger] s.take(i + 1)[j] != Sym::Open
            && s.take(i + 1)[j] != Sym::Close by {
            if j < i {
                assert(s.take(i)[j] == s[j]);
            }
        }
        lemma_first_marker(s, i + 1)
    }
}

/// A closed stream with a loop marker is a stream without loop markers, a
/// loop around a closed stream, and a closed stream, in a row: the loop
/// opens at `p` and closes at `q`.
pub proof fn lemma_split(s: Seq<Sym>) -> (r: (int, int))
    requires
        closed(s),
        !simple(s),
    ensures
        0 <= r.0 < r.1 < s.len(),
        s[r.0] == Sym::Open,
        s[r.1] == Sym::Close,
        simple(s.take(r.0)),
        closed(s.subrange(r.0 + 1, r.1)),
        closed(s.skip(r.1 + 1)),
        s == s.take(r.0) + seq![Sym::Open] + s.subrange(r.0 + 1, r.1) + seq![Sym::Close] + s.skip(
            r.1 + 1,
        ),
{
    let o = outline(s);
    assert(s.take(0) =~= Seq::<Sym>::empty());
    let p = lemma_first_marker(s, 0);
    if p == s.len() {
        assert(s.take(p) =~= s);
    }
    lemma_simple_depth(s, p);
    assert(depth(o, p + 1) >= 0);
    assert(s[p] == Sym::Open);
    lemma_close_of(o, p);
    let q = close_of(o, p);
    lemma_inside_well_nested(o, p, q);
    lemma_after_well_nested(o, q + 1);
    assert(outline(s.subrange(p + 1, q)) =~= o.subrange(p + 1, q));
    assert(outline(s.skip(q + 1)) =~= o.skip(q + 1));
    assert(s =~= s.take(p) + seq![Sym::Open] + s.subrange(p + 1, q) + seq![Sym::Close] + s.skip(
        q + 1,
    ));
    (p, q)
}

/// The outline of a stream that ends with `c`.
pub proof fn lemma_outline_push(s: Seq<Sym>, c: Sym)
    ensures
        outline(s.push(c)) == outline(s).push(outline_char(c)),
{
    assert(outline(s.push(c)) =~= outline(s).push(outline_char(c)));
}

/// The depth at the end of a stream.
pub open spec fn end_depth(s: Seq<Sym>) -> int {
    depth(outline(s), s.len() as int)
}

/// The depth at the end of a stream that ends with `c`.
pub proof fn lemma_end_depth_push(s: Seq<Sym>, c: Sym)
    ensures
        end_depth(s.push(c)) == end_depth(s) + bracket_delta(outline_char(c)),
{
    lemma_outline_push(s, c);
    lemma_depth_push(outline(s), outline_char(c));
}

/// Phase one keeps the depth at the end of the stream.
pub proof fn lemma_normal_form_depth(s: Seq<Sym>)
    ensures
        end_depth(normal_form(s)) == end_depth(s),
    decreases s.len(),
{
    if s.len() > 0 {
        let p = s.drop_last();
        let c = s.last();
        let n = normal_form(p);
        lemma_normal_form_depth(p);
        assert(s =~= p.push(c));
        lemma_end_depth_push(p, c);
        if n.len() > 0 && cancels(n.last(), c) {
            let m = n.drop_last();
            assert(n =~= m.push(n.last()));
            lemma_end_depth_push(m, n.last());
        } else if closes_idiom(n, c) {
            let m = n.take(n.len() - 2);
            let x = n[n.len() - 1];
            assert(n =~= m.push(Sym::Open).push(x));
            lemma_end_depth_push(m, Sym::Open);
            lemma_end_depth_push(m.push(Sym::Open), x);
            lemma_end_depth_push(m, Sym::Clear);
        } else {
            lemma_end_depth_push(n, c);
        }
    }
}

/// Phase one never makes a stream longer.
pub proof fn lemma_normal_form_len(s: Seq<Sym>)
    ensures
        normal_form(s).len() <= s.len(),
    decreases s.len(),
{
    if s.len() > 0 {
        lemma_normal_form_len(s.drop_last());
    }
}

/// Phase one brings no loop marker into a stream that has none.
pub proof fn lemma_normal_form_simple(s: Seq<Sym>)
    requires
        simple(s),
    ensures
        simple(normal_form(s)),
    decreases s.len(),
{
    if s.len() > 0 {
        let p = s.drop_last();
        assert forall|i: int| 0 <= i < p.len() implies #[trigger] p[i] != Sym::Open && p[i]
            != Sym::Close by {
            assert(p[i] == s[i]);
        }
        lemma_normal_form_simple(p);
        let n = normal_form(p);
        let r = normal_form(s);
        assert(s.last() == s[s.len() - 1]);
        assert forall|i: int| 0 <= i < r.len() implies #[trigger] r[i] != Sym::Open && r[i]
            != Sym::Close by {
            if i < n.len() {
                assert(r[i] == n[i]);
            }
        }
    }
}

/// A symbol that the one behind it may cancel.
pub open spec fn cancellable(d: Sym) -> bool {
    d == Sym::Right || d == Sym::Left || d == Sym::Inc || d == Sym::Dec
}

/// The normal form of a stream grows at its end only: once it ends with a
/// symbol that nothing cancels, what follows is normalised on its own. Behind
/// a loop-open this holds of what is closed.
pub proof fn lemma_normal_form_after(x: Seq<Sym>, b: Seq<Sym>, k: int)
    requires
        0 <= k <= b.len(),
        normal_form(x).len() == 0 || !cancellable(normal_form(x).last()),
        normal_form(x).len() > 0 && normal_form(x).last() == Sym::Open ==> closed(b),
    ensures
        normal_form(x + b.take(k)) == normal_form(x) + normal_form(b.take(k)),
    decreases k,
{
    let nx = normal_form(x);
    if k == 0 {
        assert(x + b.take(0) =~= x);
        assert(nx + normal_form(b.take(0)) =~= nx);
    } else {
        lemma_normal_form_after(x, b, k - 1);
        let c = b[k - 1];
        let front = b.take(k - 1);
        let nb = normal_form(front);
        assert((x + b.take(k)).drop_last() =~= x + front);
        assert(b.take(k).drop_last() =~= front);
        assert((x + b.take(k)).last() == c);
        assert(b.take(k).last() == c);
        let all = nx + nb;
        if nb.len() == 0 {
            assert(all =~= nx);
            assert(nx.push(c) =~= nx + seq![c]);
            assert(Seq::<Sym>::empty().push(c) =~= seq![c]);
        } else {
            assert(all.last() == nb.last());
            if cancels(nb.last(), c) {
                assert(all.drop_last() =~= nx + nb.drop_last());
            } else if nb.len() >= 2 {
                assert(all[all.len() - 2] == nb[nb.len() - 2]);
                if closes_idiom(nb, c) {
                    assert(all.take(all.len() - 2).push(Sym::Clear) =~= nx + nb.take(
                        nb.len() - 2,
                    ).push(Sym::Clear));
                } else {
                    assert(all.push(c) =~= nx + nb.push(c));
                }
            } else {
                if nx.len() > 0 && nx.last() == Sym::Open && c == Sym::Close {
                    // What is closed has an open loop in front of each loop-close.
                    lemma_normal_form_depth(front);
                    lemma_depth_agrees(outline(front), outline(b), k - 1);
                    assert(depth(outline(b), k) >= 0);
                    assert(nb =~= Seq::<Sym>::empty().push(nb[0]));
                    lemma_end_depth_push(Seq::<Sym>::empty(), nb[0]);
                    assert(nb[0] != Sym::Inc && nb[0] != Sym::Dec);
                }
                if nx.len() > 0 {
                    assert(all[all.len() - 2] == nx.last());
                }
                assert(all.push(c) =~= nx + nb.push(c));
            }
        }
    }
}

/// What a loop becomes in phase one, given the normal form of its body: the
/// clear-cell symbol if the body is one increment or one decrement, and
/// else the loop around the normal form.
pub open spec fn knot(body: Seq<Sym>) -> Seq<Sym> {
    if body.len() == 1 && (body[0] == Sym::Inc || body[0] == Sym::Dec) {
        seq![Sym::Clear]
    } else {
        seq![Sym::Open] + body + seq![Sym::Close]
    }
}

/// The normal form of a stream, a loop and a stream in a row is made of the
/// normal forms of the three.
pub proof fn lemma_normal_form_split(head: Seq<Sym>, body: Seq<Sym>, rest: Seq<Sym>)
    requires
        closed(body),
        closed(normal_form(body)),
    ensures
        normal_form(head + seq![Sym::Open] + body + seq![Sym::Close] + rest) == normal_form(head)
            + knot(normal_form(body)) + normal_form(rest),
{
    let nh = normal_form(head);
    let nb = normal_form(body);
    let x1 = head + seq![Sym::Open];
    assert(x1 =~= head.push(Sym::Open));
    assert(x1.drop_last() =~= head);
    assert(normal_form(x1) == nh.push(Sym::Open));
    lemma_normal_form_after(x1, body, body.len() as int);
    assert(body.take(body.len() as int) =~= body);
    let x2 = x1 + body;
    let n2 = nh.push(Sym::Open) + nb;
    assert(normal_form(x2) == n2);
    let x3 = x2 + seq![Sym::Close];
    assert(x3 =~= x2.push(Sym::Close));
    assert(x3.drop_last() =~= x2);
    let y = nh + knot(nb);
    if nb.len() == 0 {
        assert(n2 =~= nh.push(Sym::Open));
        assert(n2.push(Sym::Close) =~= y);
    } else if nb.len() == 1 {
        assert(n2[n2.len() - 1] == nb[0]);
        assert(n2[n2.len() - 2] == Sym::Open);
        if nb[0] == Sym::Inc || nb[0] == Sym::Dec {
            assert(n2.take(n2.len() - 2).push(Sym::Clear) =~= y);
        } else {
            assert(n2.push(Sym::Close) =~= y);
        }
    } else {
        assert(n2[n2.len() - 1] == nb[nb.len() - 1]);
        assert(n2[n2.len() - 2] == nb[nb.len() - 2]);
        if nb[nb.len() - 2] == Sym::Open && (nb[nb.len() - 1] == Sym::Inc || nb[nb.len() - 1]
            == Sym::Dec) {
            // A closed stream does not end inside a loop.
            let o = outline(nb);
            assert(depth(o, nb.len() - 2) >= 0);
            assert(depth(o, nb.len() - 1) == depth(o, nb.len() - 2) + 1);
            assert(depth(o, nb.len() as int) == depth(o, nb.len() - 1));
            assert(false);
        }
        assert(n2.push(Sym::Close) =~= y);
    }
    assert(normal_form(x3) == y);
    lemma_normal_form_after(x3, rest, rest.len() as int);
    assert(rest.take(rest.len() as int) =~= rest);
    assert(x3 + rest =~= head + seq![Sym::Open] + body + seq![Sym::Close] + rest);
}

/// The coalescer only ever adds to the tokens it has emitted.
pub proof fn lemma_feed_after(before: Seq<Token>, g: Gathered, c: Sym)
    ensures
        feed(Gathered { out: before + g.out, pending: g.pending }, c) == (Gathered {
            out: before + feed(g, c).out,
            pending: feed(g, c).pending,
        }),
{
    let h = feed(Gathered { out: before + g.out, pending: g.pending }, c);
    assert(h.out =~= before + feed(g, c).out);
}

/// Once no run is open, the coalescer treats what follows on its own.
pub proof fn lemma_gathered_after(x: Seq<Sym>, b: Seq<Sym>)
    requires
        gathered(x).pending is Idle,
    ensures
        gathered(x + b) == (Gathered {
            out: gathered(x).out + gathered(b).out,
            pending: gathered(b).pending,
        }),
    decreases b.len(),
{
    if b.len() == 0 {
        assert(x + b =~= x);
        assert(gathered(x).out + gathered(b).out =~= gathered(x).out);
    } else {
        lemma_gathered_after(x, b.drop_last());
        assert((x + b).drop_last() =~= x + b.drop_last());
        lemma_feed_after(gathered(x).out, gathered(b.drop_last()), b.last());
    }
}

/// The tokens of a stream, a loop and a stream in a row are the tokens of
/// the three, with the loop markers between them.
pub proof fn lemma_coalesced_split(head: Seq<Sym>, body: Seq<Sym>, rest: Seq<Sym>)
    ensures
        coalesced(head + seq![Sym::Open] + body + seq![Sym::Close] + rest) == coalesced(head)
            + seq![Token::LoopOpen] + coalesced(body) + seq![Token::LoopClose] + coalesced(rest),
{
    let x1 = head + seq![Sym::Open];
    assert(x1.drop_last() =~= head);
    assert(gathered(x1).out =~= coalesced(head) + seq![Token::LoopOpen]);
    lemma_gathered_after(x1, body);
    let x2 = x1 + body;
    let x3 = x2 + seq![Sym::Close];
    assert(x3.drop_last() =~= x2);
    assert(gathered(x3).out =~= coalesced(head) + seq![Token::LoopOpen] + coalesced(body)
        + seq![Token::LoopClose]);
    lemma_gathered_after(x3, rest);
    assert(x3 + rest =~= head + seq![Sym::Open] + body + seq![Sym::Close] + rest);
    assert(coalesced(x3 + rest) =~= coalesced(head) + seq![Token::LoopOpen] + coalesced(body)
        + seq![Token::LoopClose] + coalesced(rest));
}

/// The stream holds no loop token.
pub open spec fn loopless(t: Seq<Token>) -> bool {
    forall|i: int| 0 <= i < t.len() ==> #[trigger] t[i] != Token::LoopOpen && t[i]
        != Token::LoopClose
}

/// A row of one symbol that is no loop marker holds no loop marker.
pub proof fn lemma_sym_row_simple(c: Sym, n: nat)
    requires
        c != Sym::Open,
        c != Sym::Close,
    ensures
        simple(sym_row(c, n)),
        sym_row(c, n).len() == n,
    decreases n,
{
    if n > 0 {
        lemma_sym_row_simple(c, (n - 1) as nat);
        let r = sym_row(c, n);
        let f = sym_row(c, (n - 1) as nat);
        assert forall|i: int| 0 <= i < r.len() implies #[trigger] r[i] != Sym::Open && r[i]
            != Sym::Close by {
            if i < f.len() {
                assert(r[i] == f[i]);
            }
        }
    }
}

/// Two streams without loop markers in a row hold no loop marker.
pub proof fn lemma_simple_concat(a: Seq<Sym>, b: Seq<Sym>)
    requires
        simple(a),
        simple(b),
    ensures
        simple(a + b),
{
    assert forall|i: int| 0 <= i < (a + b).len() implies #[trigger] (a + b)[i] != Sym::Open && (a
        + b)[i] != Sym::Close by {
        if i < a.len() {
            assert((a + b)[i] == a[i]);
        } else {
            assert((a + b)[i] == b[i - a.len()]);
        }
    }
}

/// Tokens that are no loop tokens are spelled without loop markers.
pub proof fn lemma_spelled_simple(t: Seq<Token>)
    requires
        loopless(t),
    ensures
        simple(spelled(t)),
    decreases t.len(),
{
    if t.len() > 0 {
        let f = t.drop_last();
        assert forall|i: int| 0 <= i < f.len() implies #[trigger] f[i] != Token::LoopOpen && f[i]
            != Token::LoopClose by {
            assert(f[i] == t[i]);
        }
        lemma_spelled_simple(f);
        let last = t.last();
        assert(last == t[t.len() - 1]);
        match last {
            Token::Move(k) => {
                lemma_sym_row_simple(Sym::Right, (if k >= 0 { k as int } else { 0 }) as nat);
                lemma_sym_row_simple(Sym::Left, (if k < 0 { -k as int } else { 0 }) as nat);
            },
            Token::Add(d) => {
                lemma_sym_row_simple(Sym::Inc, (if d >= 0 { d as int } else { 0 }) as nat);
                lemma_sym_row_simple(Sym::Dec, (if d < 0 { -d as int } else { 0 }) as nat);
            },
            Token::Assign(v) => {
                lemma_sym_row_simple(Sym::Inc, v as nat);
                lemma_simple_concat(seq![Sym::Clear], sym_row(Sym::Inc, v as nat));
            },
            Token::Input(n) => {
                lemma_sym_row_simple(Sym::In, n as nat);
            },
            _ => {},
        }
        lemma_simple_concat(spelled(f), spelled_token(last));
    }
}

/// The coalescer emits no loop token for a stream without loop markers.
pub proof fn lemma_gathered_loopless(s: Seq<Sym>)
    requires
        simple(s),
    ensures
        loopless(gathered(s).out),
        loopless(coalesced(s)),
    decreases s.len(),
{
    if s.len() > 0 {
        let f = s.drop_last();
        assert forall|i: int| 0 <= i < f.len() implies #[trigger] f[i] != Sym::Open && f[i]
            != Sym::Close by {
            assert(f[i] == s[i]);
        }
        lemma_gathered_loopless(f);
        assert(s.last() == s[s.len() - 1]);
        let g = gathered(f);
        let h = gathered(s);
        let e = emitted(g.pending);
        assert forall|i: int| 0 <= i < e.len() implies #[trigger] e[i] != Token::LoopOpen && e[i]
            != Token::LoopClose by {}
        assert forall|i: int| 0 <= i < h.out.len() implies #[trigger] h.out[i] != Token::LoopOpen
            && h.out[i] != Token::LoopClose by {
            if i < g.out.len() {
                assert(h.out[i] == g.out[i]);
            } else if i < g.out.len() + e.len() {
                assert(h.out[i] == e[i - g.out.len()]);
            }
        }
    }
    let h = gathered(s);
    let e = emitted(h.pending);
    let all = coalesced(s);
    assert forall|i: int| 0 <= i < e.len() implies #[trigger] e[i] != Token::LoopOpen && e[i]
        != Token::LoopClose by {}
    assert forall|i: int| 0 <= i < all.len() implies #[trigger] all[i] != Token::LoopOpen
        && all[i] != Token::LoopClose by {
        if i < h.out.len() {
            assert(all[i] == h.out[i]);
        } else {
            assert(all[i] == e[i - h.out.len()]);
        }
    }
}

/// A row of symbols is written as a row of characters.
pub proof fn lemma_written_row(c: Sym, n: nat)
    requires
        c != Sym::Clear,
    ensures
        written(sym_row(c, n)) == row(sym_chars(c)[0], n),
    decreases n,
{
    if n == 0 {
    } else {
        lemma_written_row(c, (n - 1) as nat);
        assert(sym_row(c, n).drop_last() =~= sym_row(c, (n - 1) as nat));
        assert(sym_chars(c) =~= seq![sym_chars(c)[0]]);
        assert(written(sym_row(c, n)) =~= row(sym_chars(c)[0], n));
    }
}

/// The symbols that a token abbreviates are written as the token's
/// primitive symbols.
pub proof fn lemma_written_token(t: Token)
    ensures
        written(spelled_token(t)) == primitive(t),
{
    match t {
        Token::Move(k) => {
            if k >= 0 {
                lemma_written_row(Sym::Right, k as nat);
            } else {
                lemma_written_row(Sym::Left, (-k) as nat);
            }
        },
        Token::Add(d) => {
            if d >= 0 {
                lemma_written_row(Sym::Inc, d as nat);
            } else {
                lemma_written_row(Sym::Dec, (-d) as nat);
            }
        },
        Token::Assign(v) => {
            reveal_strlit("[-]");
            lemma_written_concat(seq![Sym::Clear], sym_row(Sym::Inc, v as nat));
            lemma_written_single(Sym::Clear);
            lemma_written_row(Sym::Inc, v as nat);
            assert(looped(seq!['-']) =~= "[-]"@);
        },
        Token::Input(n) => {
            lemma_written_row(Sym::In, n as nat);
        },
        Token::Output => {
            lemma_written_single(Sym::Out);
        },
        Token::LoopOpen => {
            lemma_written_single(Sym::Open);
        },
        Token::LoopClose => {
            lemma_written_single(Sym::Close);
        },
        Token::CellDump => {
            lemma_written_single(Sym::Dump);
        },
        Token::WindowDump => {
            lemma_written_single(Sym::Window);
        },
    }
}

/// A token stream, spelled and written, is the stream in primitive symbols.
pub proof fn lemma_written_spelled(t: Seq<Token>)
    ensures
        written(spelled(t)) == expanded(t),
    decreases t.len(),
{
    if t.len() > 0 {
        lemma_written_spelled(t.drop_last());
        lemma_written_concat(spelled(t.drop_last()), spelled_token(t.last()));
        lemma_written_token(t.last());
    }
}

/// The symbols of a stream of known characters are written as the stream.
pub proof fn lemma_written_lexed(code: Seq<char>)
    requires
        all_known(code),
    ensures
        written(lexed(code)) == code,
    decreases code.len(),
{
    if code.len() == 0 {
        assert(code =~= Seq::<char>::empty());
    } else {
        let f = code.drop_last();
        let c = code.last();
        assert forall|i: int| 0 <= i < f.len() implies sym_of(#[trigger] f[i]) is Some by {
            assert(f[i] == code[i]);
        }
        lemma_written_lexed(f);
        assert(lexed(code).drop_last() =~= lexed(f));
        assert(sym_of(code[code.len() - 1]) is Some);
        assert(sym_chars(sym_of(c)->0) =~= seq![c]);
        assert(f + seq![c] =~= code);
    }
}

/// The symbols of a well-nested stream of known characters are closed.
pub proof fn lemma_lexed_closed(code: Seq<char>)
    requires
        all_known(code),
        well_nested(code),
    ensures
        closed(lexed(code)),
{
    let o = outline(lexed(code));
    assert forall|i: int| 0 <= i < code.len() implies bracket_delta(o[i]) == bracket_delta(
        code[i],
    ) by {
        assert(sym_of(code[i]) is Some);
    }
    assert forall|i: int| 0 <= i <= o.len() implies depth(o, i) >= 0 by {
        lemma_depth_alike(o, code, i);
    }
    lemma_depth_alike(o, code, code.len() as int);
}

/// A stream, a loop and a stream in a row are written as the three in a row.
pub proof fn lemma_written_split(head: Seq<Sym>, body: Seq<Sym>, rest: Seq<Sym>)
    ensures
        written(head + seq![Sym::Open] + body + seq![Sym::Close] + rest) == written(head) + looped(
            written(body),
        ) + written(rest),
{
    let open = seq![Sym::Open];
    let close = seq![Sym::Close];
    lemma_written_concat(head, open);
    lemma_written_concat(head + open, body);
    lemma_written_concat(head + open + body, close);
    lemma_written_concat(head + open + body + close, rest);
    lemma_written_single(Sym::Open);
    lemma_written_single(Sym::Close);
    assert(written(head + open + body + close + rest) =~= written(head) + looped(written(body))
        + written(rest));
}

/// The outline of a stream, a loop and a stream in a row is well nested if
/// the three are closed.
pub proof fn lemma_closed_split(head: Seq<Sym>, body: Seq<Sym>, rest: Seq<Sym>)
    requires
        closed(head),
        closed(body),
        closed(rest),
    ensures
        closed(head + seq![Sym::Open] + body + seq![Sym::Close] + rest),
{
    let all = head + seq![Sym::Open] + body + seq![Sym::Close] + rest;
    let mid = seq!['['] + outline(body) + seq![']'];
    lemma_well_nested_loop(outline(body));
    lemma_well_nested_concat(outline(head), mid);
    lemma_well_nested_concat(outline(head) + mid, outline(rest));
    assert(outline(all) =~= outline(head) + mid + outline(rest));
}

/// Phase one keeps what a stream does on the machine: the normal form of a
/// closed stream is closed and does what the stream does.
pub proof fn lemma_normalize_simulates(s: Seq<Sym>)
    requires
        closed(s),
    ensures
        simulates(written(s), written(normal_form(s))),
        closed(normal_form(s)),
    decreases s.len(),
{
    assert(s.take(0) =~= Seq::<Sym>::empty());
    let first = lemma_first_marker(s, 0);
    if first == s.len() {
        assert(s.take(first) =~= s);
        assert forall|st: Store| st.wf() implies refines(
            #[trigger] effect(s, st),
            effect(normal_form(s), st),
        ) by {
            lemma_normal_form_refines(s, st);
        }
        lemma_normal_form_simple(s);
        lemma_simple_simulates(s, normal_form(s));
        lemma_simple_closed(normal_form(s));
    } else {
        let (p, q) = lemma_split(s);
        let head = s.take(p);
        let body = s.subrange(p + 1, q);
        let rest = s.skip(q + 1);
        lemma_simple_closed(head);
        lemma_normalize_simulates(head);
        lemma_normalize_simulates(body);
        lemma_normalize_simulates(rest);
        let nh = normal_form(head);
        let nb = normal_form(body);
        let nr = normal_form(rest);
        lemma_normal_form_split(head, body, rest);
        lemma_written_split(head, body, rest);
        lemma_written_concat(nh, knot(nb));
        lemma_written_concat(nh + knot(nb), nr);
        lemma_simulates_loop(written(body), written(nb));
        lemma_outline_concat(nh, knot(nb));
        lemma_outline_concat(nh + knot(nb), nr);
        if nb.len() == 1 && (nb[0] == Sym::Inc || nb[0] == Sym::Dec) {
            let up = nb[0] == Sym::Inc;
            assert(nb =~= seq![nb[0]]);
            lemma_written_single(nb[0]);
            lemma_written_single(Sym::Clear);
            assert(looped(written(nb)) =~= clear_loop(up));
            lemma_clear_loops_simulate(up);
            lemma_simulates_transitive(
                looped(written(body)),
                clear_loop(up),
                written(knot(nb)),
            );
            lemma_simple_closed(knot(nb));
        } else {
            lemma_written_split(Seq::<Sym>::empty(), nb, Seq::<Sym>::empty());
            assert(Seq::<Sym>::empty() + seq![Sym::Open] + nb + seq![Sym::Close] + Seq::<
                Sym,
            >::empty() =~= knot(nb));
            assert(written(Seq::<Sym>::empty()) + looped(written(nb)) + written(
                Seq::<Sym>::empty(),
            ) =~= looped(written(nb)));
            lemma_simple_closed(Seq::<Sym>::empty());
            lemma_closed_split(Seq::<Sym>::empty(), nb, Seq::<Sym>::empty());
        }
        lemma_simulates_concat(
            written(head),
            looped(written(body)),
            written(nh),
            written(knot(nb)),
        );
        lemma_simulates_concat(
            written(head) + looped(written(body)),
            written(rest),
            written(nh) + written(knot(nb)),
            written(nr),
        );
        lemma_well_nested_concat(outline(nh), outline(knot(nb)));
        lemma_well_nested_concat(outline(nh) + outline(knot(nb)), outline(nr));
    }
}

/// Phase two keeps what a stream does on the machine: the tokens of a
/// closed stream, spelled out, do what the stream does.
pub proof fn lemma_coalesce_simulates(s: Seq<Sym>)
    requires
        closed(s),
        s.len() <= usize::MAX,
    ensures
        simulates(written(s), written(spelled(coalesced(s)))),
    decreases s.len(),
{
    assert(s.take(0) =~= Seq::<Sym>::empty());
    let first = lemma_first_marker(s, 0);
    if first == s.len() {
        assert(s.take(first) =~= s);
        assert forall|st: Store| st.wf() implies refines(
            #[trigger] effect(s, st),
            effect(spelled(coalesced(s)), st),
        ) by {
            lemma_coalesced_refines(s, st);
        }
        lemma_gathered_loopless(s);
        lemma_spelled_simple(coalesced(s));
        lemma_simple_simulates(s, spelled(coalesced(s)));
    } else {
        let (p, q) = lemma_split(s);
        let head = s.take(p);
        let body = s.subrange(p + 1, q);
        let rest = s.skip(q + 1);
        lemma_simple_closed(head);
        lemma_coalesce_simulates(head);
        lemma_coalesce_simulates(body);
        lemma_coalesce_simulates(rest);
        let th = coalesced(head);
        let tb = coalesced(body);
        let tr = coalesced(rest);
        let open = seq![Token::LoopOpen];
        let close = seq![Token::LoopClose];
        lemma_coalesced_split(head, body, rest);
        lemma_spelled_concat(th, open);
        lemma_spelled_concat(th + open, tb);
        lemma_spelled_concat(th + open + tb, close);
        lemma_spelled_concat(th + open + tb + close, tr);
        lemma_spelled_single(Token::LoopOpen);
        lemma_spelled_single(Token::LoopClose);
        assert(spelled(coalesced(s)) =~= spelled(th) + seq![Sym::Open] + spelled(tb)
            + seq![Sym::Close] + spelled(tr));
        lemma_written_split(head, body, rest);
        lemma_written_split(spelled(th), spelled(tb), spelled(tr));
        lemma_simulates_loop(written(body), written(spelled(tb)));
        lemma_simulates_concat(
            written(head),
            looped(written(body)),
            written(spelled(th)),
            looped(written(spelled(tb))),
        );
        lemma_simulates_concat(
            written(head) + looped(written(body)),
            written(rest),
            written(spelled(th)) + looped(written(spelled(tb))),
            written(spelled(tr)),
        );
    }
}

/// The optimizer keeps what a stream does. For every well-nested stream of
/// known characters, the optimized stream, written out in primitive symbols
/// again, does what the stream does and nothing else: from the same store
/// and with the same keystrokes, whenever the machine comes to the end of
/// the stream, or waits for a keystroke that is not there, so it does on
/// the optimized stream, with the same store at the end and the same output
/// in either case; and whenever the machine is blocked on the optimized
/// stream, it has ended in the same way on the stream, unless it faults
/// there. The same holds under every ration of output. Debug mode is off.
/// Nothing is said of the runs of the stream that fault.
pub proof fn law_optimizer_keeps_behaviour(code: Seq<char>)
    requires
        all_known(code),
        well_nested(code),
        code.len() <= usize::MAX,
    ensures
        simulates(code, expanded(optimized(code))),
{
    let s = lexed(code);
    let n = normal_form(s);
    lemma_lexed_closed(code);
    lemma_written_lexed(code);
    lemma_normalize_simulates(s);
    lemma_normal_form_len(s);
    lemma_coalesce_simulates(n);
    lemma_written_spelled(coalesced(n));
    lemma_simulates_transitive(code, written(n), expanded(optimized(code)));
}

/// The output of the optimized stream. If the machine, run on a well-nested
/// stream of known characters for at most `n` instructions, has come to the
/// end of the stream or waits for a keystroke that is not there, then so has
/// the machine run on the optimized stream for at most `m` instructions: it
/// has written the same output, and at the end of the stream it has left the
/// same cells, cursor and keystrokes.
pub proof fn law_optimized_output(code: Seq<char>, s: State, keys: Seq<u8>, n: nat) -> (m: nat)
    requires
        all_known(code),
        well_nested(code),
        code.len() <= usize::MAX,
        steady(s),
        s.ip == 0,
        finished(code, fed_run(code, s, keys, n).0, unrationed(fed_run(code, s, keys, n).1)),
    ensures
        alike(
            code,
            fed_run(code, s, keys, n).0,
            unrationed(fed_run(code, s, keys, n).1),
            expanded(optimized(code)),
            fed_run(expanded(optimized(code)), s, keys, m).0,
            unrationed(fed_run(expanded(optimized(code)), s, keys, m).1),
        ),
        fed_run(expanded(optimized(code)), s, keys, m).0.output == fed_run(
            code,
            s,
            keys,
            n,
        ).0.output,
{
    let q = expanded(optimized(code));
    law_optimizer_keeps_behaviour(code);
    let n0 = lemma_fed_is_exact(code, s, keys, n);
    let m = lemma_answer(code, q, s, s, unrationed(keys), n0);
    lemma_exact_is_fed(q, s, keys, m);
    m
}

/// One more instruction behind a run that was cut short under a ration:
/// without the ration, the machine writes the cell under the cursor.
proof fn lemma_write_after_cut(code: Seq<char>, s: State, keys: Seq<u8>, room: nat, n1: nat)
    requires
        steady(s),
        exact_run(code, s, rationed(keys, room), n1) is Some,
        cut_short(
            code,
            end_of(code, s, rationed(keys, room), n1),
            feed_of(code, s, rationed(keys, room), n1),
        ),
    ensures
        exact_run(code, s, unrationed(keys), n1 + 1) is Some,
        end_of(code, s, unrationed(keys), n1 + 1).output == end_of(
            code,
            s,
            rationed(keys, room),
            n1,
        ).output.push(end_of(code, s, rationed(keys, room), n1).cell() as char),
{
    lemma_rationed_is_run(code, s, keys, room, n1);
    lemma_exact_is_fed(code, s, keys, n1);
    let c = end_of(code, s, unrationed(keys), n1);
    let kc = feed_of(code, s, unrationed(keys), n1);
    lemma_exact_compose(code, s, unrationed(keys), n1, 1);
    assert(at_output(code, c)) by {
        let kr = feed_of(code, s, rationed(keys, room), n1);
        assert(fed_blocked(code, c, kr.keys) != Some(Status::Paused));
    }
    assert(rationed_blocked(code, c, kc) is None);
    lemma_step_output(code, c, kc);
    assert(exact_run(code, c, kc, 1) == Some(rationed_step(code, c, kc))) by {
        reveal_with_fuel(exact_run, 2);
    }
}

/// Whatever the stream writes, the optimized stream writes. For every well-
/// nested stream of known characters: the output that the machine has
/// written after at most `n` instructions of the stream, it has written
/// after at most `m` instructions of the optimized stream, whether or not
/// the run of the stream ever ends.
pub proof fn law_optimized_writes_all(code: Seq<char>, s: State, keys: Seq<u8>, n: nat) -> (m:
    nat)
    requires
        all_known(code),
        well_nested(code),
        code.len() <= usize::MAX,
        steady(s),
        s.ip == 0,
    ensures
        fed_run(expanded(optimized(code)), s, keys, m).0.output == fed_run(
            code,
            s,
            keys,
            n,
        ).0.output,
{
    let q = expanded(optimized(code));
    let a = fed_run(code, s, keys, n).0;
    law_optimizer_keeps_behaviour(code);
    let n0 = lemma_fed_is_exact(code, s, keys, n);
    lemma_output_grows(code, s, unrationed(keys), 0, n0);
    if a.output.len() == s.output.len() {
        assert(a.output =~= s.output);
        0
    } else {
        let room = (a.output.len() - s.output.len() - 1) as nat;
        let n1 = lemma_cut_exists(code, s, keys, room, n0);
        let c = end_of(code, s, rationed(keys, room), n1);
        let kc = feed_of(code, s, rationed(keys, room), n1);
        let m1 = lemma_answer(code, q, s, s, rationed(keys, room), n1);
        let d = end_of(q, s, rationed(keys, room), m1);
        let kd = feed_of(q, s, rationed(keys, room), m1);
        lemma_exact_steady(code, s, rationed(keys, room), n1);
        lemma_exact_steady(q, s, rationed(keys, room), m1);
        assert(store_of(c, kc).cells[c.cursor] == store_of(d, kd).cells[d.cursor]);
        lemma_write_after_cut(code, s, keys, room, n1);
        lemma_write_after_cut(q, s, keys, room, m1);
        lemma_output_grows(code, s, unrationed(keys), n1 + 1, n0);
        assert(end_of(code, s, unrationed(keys), n1 + 1).output =~= a.output);
        lemma_exact_is_fed(q, s, keys, m1 + 1);
        m1 + 1
    }
}

/// The optimized stream writes nothing that the stream does not write. For
/// every well-nested stream of known characters on which the machine never
/// faults: the output that the machine has written after at most `m`
/// instructions of the optimized stream, it has written after at most `n`
/// instructions of the stream, whether or not the runs ever end.
pub proof fn law_optimized_writes_nothing_else(
    code: Seq<char>,
    s: State,
    keys: Seq<u8>,
    m: nat,
) -> (n: nat)
    requires
        all_known(code),
        well_nested(code),
        code.len() <= usize::MAX,
        steady(s),
        s.ip == 0,
        never_faults(code, s, keys),
    ensures
        fed_run(code, s, keys, n).0.output == fed_run(
            expanded(optimized(code)),
            s,
            keys,
            m,
        ).0.output,
{
    let q = expanded(optimized(code));
    let b = fed_run(q, s, keys, m).0;
    law_optimizer_keeps_behaviour(code);
    let m0 = lemma_fed_is_exact(q, s, keys, m);
    lemma_output_grows(q, s, unrationed(keys), 0, m0);
    if b.output.len() == s.output.len() {
        assert(b.output =~= s.output);
        0
    } else {
        let room = (b.output.len() - s.output.len() - 1) as nat;
        let m1 = lemma_cut_exists(q, s, keys, room, m0);
        let d = end_of(q, s, rationed(keys, room), m1);
        let kd = feed_of(q, s, rationed(keys, room), m1);
        let n1 = lemma_answer_back(code, q, s, s, rationed(keys, room), m1);
        let c = end_of(code, s, rationed(keys, room), n1);
        let kc = feed_of(code, s, rationed(keys, room), n1);
        lemma_rationed_is_run(code, s, keys, room, n1);
        lemma_exact_is_fed(code, s, keys, n1);
        if faulted(code, c, kc) {
            let reached = fed_run(code, s, keys, n1);
            assert(fed_blocked(code, reached.0, reached.1) matches Some(Status::Fault(_)));
            assert(false);
        }
        lemma_exact_steady(code, s, rationed(keys, room), n1);
        lemma_exact_steady(q, s, rationed(keys, room), m1);
        assert(store_of(c, kc).cells[c.cursor] == store_of(d, kd).cells[d.cursor]);
        lemma_write_after_cut(code, s, keys, room, n1);
        lemma_write_after_cut(q, s, keys, room, m1);
        lemma_output_grows(q, s, unrationed(keys), m1 + 1, m0);
        assert(end_of(q, s, unrationed(keys), m1 + 1).output =~= b.output);
        lemma_exact_is_fed(code, s, keys, n1 + 1);
        n1 + 1
    }
}

/// The stream holds cell changes, inputs, outputs and debug symbols only:
/// no loop and no move.
pub open spec fn straight(code: Seq<char>) -> bool {
    forall|i: int|
        0 <= i < code.len() ==> {
            let c = #[trigger] code[i];
            c == '+' || c == '-' || c == '.' || c == ',' || c == '#' || c == '@'
        }
}

/// Symbols that are neither loop markers nor moves never fail.
pub proof fn lemma_straight_effect(code: Seq<char>, st: Store)
    requires
        straight(code),
    ensures
        !(effect(lexed(code), st) is Failed),
        simple(lexed(code)),
        all_known(code),
    decreases code.len(),
{
    if code.len() > 0 {
        let f = code.drop_last();
        assert forall|i: int| 0 <= i < f.len() implies {
            let c = #[trigger] f[i];
            c == '+' || c == '-' || c == '.' || c == ',' || c == '#' || c == '@'
        } by {
            assert(f[i] == code[i]);
        }
        lemma_straight_effect(f, st);
        assert(lexed(code).drop_last() =~= lexed(f));
        let c = code[code.len() - 1];
        assert(lexed(code).last() == sym_of(c)->0);
    }
    assert forall|i: int| 0 <= i < code.len() implies sym_of(#[trigger] code[i]) is Some by {
        let c = code[i];
        assert(c == '+' || c == '-' || c == '.' || c == ',' || c == '#' || c == '@');
    }
    assert forall|i: int| 0 <= i < lexed(code).len() implies #[trigger] lexed(code)[i]
        != Sym::Open && lexed(code)[i] != Sym::Close by {
        let c = code[i];
        assert(c == '+' || c == '-' || c == '.' || c == ',' || c == '#' || c == '@');
    }
}

/// A stream without loops and moves. The machine never faults on it: after
/// `r.0` instructions it has come to the end of the stream or waits for a
/// keystroke that is not there. On the optimized stream it has, after `r.1`
/// instructions, written the same output byte for byte, and at the end of
/// the stream it has left the same cells, cursor and keystrokes.
pub proof fn law_straight_stream_output(code: Seq<char>, s: State, keys: Seq<u8>) -> (r: (
    nat,
    nat,
))
    requires
        straight(code),
        code.len() <= usize::MAX,
        steady(s),
        s.ip == 0,
    ensures
        finished(code, fed_run(code, s, keys, r.0).0, unrationed(fed_run(code, s, keys, r.0).1)),
        alike(
            code,
            fed_run(code, s, keys, r.0).0,
            unrationed(fed_run(code, s, keys, r.0).1),
            expanded(optimized(code)),
            fed_run(expanded(optimized(code)), s, keys, r.1).0,
            unrationed(fed_run(expanded(optimized(code)), s, keys, r.1).1),
        ),
        fed_run(expanded(optimized(code)), s, keys, r.1).0.output == fed_run(
            code,
            s,
            keys,
            r.0,
        ).0.output,
{
    let feed = unrationed(keys);
    lemma_straight_effect(code, store_of(s, feed));
    lemma_written_lexed(code);
    lemma_simple_closed(lexed(code));
    assert(well_nested(code)) by {
        let o = outline(lexed(code));
        assert forall|i: int| 0 <= i < code.len() implies bracket_delta(o[i]) == bracket_delta(
            code[i],
        ) by {
            assert(sym_of(code[i]) is Some);
        }
        assert forall|i: int| 0 <= i <= code.len() implies depth(code, i) >= 0 by {
            lemma_depth_alike(o, code, i);
        }
        lemma_depth_alike(o, code, code.len() as int);
    }
    let n = lemma_simple_run(lexed(code), s, feed);
    lemma_exact_is_fed(code, s, keys, n);
    let m = law_optimized_output(code, s, keys, n);
    (n, m)
}

} // verus!
