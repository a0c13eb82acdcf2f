//! The bracket matcher: one scan over an instruction stream that pairs every
//! loop-open with its loop-close and records the pairs in a jump table.
use vstd::prelude::*;

verus! {

/// How one symbol changes the nesting depth.
pub open spec fn bracket_delta(c: char) -> int {
    if c == '[' {
        1
    } else if c == ']' {
        -1
    } else {
        0
    }
}

/// Nesting depth in front of position `i`: the loop-opens minus the
/// loop-closes among the first `i` symbols.
pub open spec fn depth(code: Seq<char>, i: int) -> int
    decreases i,
{
    if i <= 0 {
        0
    } else {
        depth(code, i - 1) + bracket_delta(code[i - 1])
    }
}

/// The depth in front of a position depends on the symbols before it only.
pub proof fn lemma_depth_agrees(a: Seq<char>, b: Seq<char>, k: int)
    requires
        0 <= k <= a.len(),
        k <= b.len(),
        forall|j: int| 0 <= j < k ==> a[j] == b[j],
    ensures
        depth(a, k) == depth(b, k),
    decreases k,
{
    if k > 0 {
        lemma_depth_agrees(a, b, k - 1);
    }
}

/// The stream holds as many loop-opens as loop-closes.
pub open spec fn balanced(code: Seq<char>) -> bool {
    depth(code, code.len() as int) == 0
}

/// The stream is balanced and no loop-close comes before its loop-open.
pub open spec fn well_nested(code: Seq<char>) -> bool {
    &&& balanced(code)
    &&& forall|i: int| 0 <= i <= code.len() ==> depth(code, i) >= 0
}

/// The loop-close at `close` is the syntactic partner of the loop-open at
/// `open`: it is the first position after `open` at which the depth falls
/// back to what it was in front of `open`.
pub open spec fn matched(code: Seq<char>, open: int, close: int) -> bool {
    &&& 0 <= open < close < code.len()
    &&& code[open] == '['
    &&& code[close] == ']'
    &&& depth(code, close + 1) == depth(code, open)
    &&& forall|j: int| open < j <= close ==> #[trigger] depth(code, j) > depth(code, open)
}

/// The partner of the loop-open at `open`.
pub open spec fn close_of(code: Seq<char>, open: int) -> int {
    choose|close: int| matched(code, open, close)
}

/// The partner of the loop-close at `close`.
pub open spec fn open_of(code: Seq<char>, close: int) -> int {
    choose|open: int| matched(code, open, close)
}

/// A loop-open has at most one partner.
pub proof fn lemma_close_unique(code: Seq<char>, open: int, c1: int, c2: int)
    requires
        matched(code, open, c1),
        matched(code, open, c2),
    ensures
        c1 == c2,
{
    if c1 < c2 {
        assert(depth(code, c1 + 1) > depth(code, open));
    } else if c2 < c1 {
        assert(depth(code, c2 + 1) > depth(code, open));
    }
}

/// A loop-close has at most one partner.
pub proof fn lemma_open_unique(code: Seq<char>, o1: int, o2: int, close: int)
    requires
        matched(code, o1, close),
        matched(code, o2, close),
    ensures
        o1 == o2,
{
    if o1 < o2 {
        assert(depth(code, o2) > depth(code, o1));
    } else if o2 < o1 {
        assert(depth(code, o1) > depth(code, o2));
    }
}

/// The jump table of one instruction stream: for each bracket, the position
/// of its partner; every other position maps to itself.
pub struct JumpTable {
    pub targets: Vec<usize>,
}

impl View for JumpTable {
    type V = Seq<usize>;

    open spec fn view(&self) -> Seq<usize> {
        self.targets@
    }
}

impl JumpTable {
    /// The table has one entry per position of `code`, symmetric on brackets:
    /// a loop-open maps to its partner and that partner maps back.
    pub open spec fn links(&self, code: Seq<char>) -> bool {
        &&& self@.len() == code.len()
        &&& forall|p: int|
            0 <= p < code.len() && code[p] == '[' ==> matched(code, p, #[trigger] self@[p] as int)
        &&& forall|p: int|
            0 <= p < code.len() && code[p] == ']' ==> matched(code, #[trigger] self@[p] as int, p)
        &&& forall|p: int|
            0 <= p < code.len() && code[p] != '[' && code[p] != ']' ==> #[trigger] self@[p] == p
    }

    /// The entry for position `p`.
    pub fn target(&self, p: usize) -> (q: usize)
        requires
            p < self@.len(),
        ensures
            q == self@[p as int],
    {
        self.targets[p]
    }
}

/// A table that links `code` sends every bracket to the partner that
/// `close_of` and `open_of` name, and back.
pub proof fn lemma_links_partner(table: JumpTable, code: Seq<char>, p: int)
    requires
        table.links(code),
        0 <= p < code.len(),
    ensures
        code[p] == '[' ==> table@[p] == close_of(code, p) && table@[table@[p] as int] == p,
        code[p] == ']' ==> table@[p] == open_of(code, p) && table@[table@[p] as int] == p,
{
    if code[p] == '[' {
        let q = table@[p] as int;
        assert(matched(code, p, q));
        lemma_close_unique(code, p, q, close_of(code, p));
        assert(matched(code, table@[q] as int, q));
        lemma_open_unique(code, p, table@[q] as int, q);
    } else if code[p] == ']' {
        let o = table@[p] as int;
        assert(matched(code, o, p));
        lemma_open_unique(code, o, open_of(code, p), p);
        assert(matched(code, o, table@[o] as int));
        lemma_close_unique(code, o, p, table@[o] as int);
    }
}

/// What holds of the scanner's stack of unmatched loop-opens once the first
/// `i` symbols are processed.
spec fn pending(code: Seq<char>, stack: Seq<usize>, i: int) -> bool {
    &&& stack.len() == depth(code, i)
    &&& forall|k: int|
        0 <= k < stack.len() ==> {
            &&& (#[trigger] stack[k]) < i
            &&& code[stack[k] as int] == '['
            &&& depth(code, stack[k] as int) == k
        }
    &&& forall|k: int, j: int|
        0 <= k < stack.len() && stack[k] < j <= i ==> #[trigger] depth(code, j) > depth(
            code,
            #[trigger] stack[k] as int,
        )
}

/// What holds of the table once the first `i` symbols are processed.
spec fn linked_upto(code: Seq<char>, targets: Seq<usize>, stack: Seq<usize>, i: int) -> bool {
    &&& targets.len() == i
    &&& forall|p: int|
        0 <= p < i && code[p] == '[' ==> stack.contains(p as usize) || matched(
            code,
            p,
            #[trigger] targets[p] as int,
        )
    &&& forall|p: int| 0 <= p < i && code[p] == ']' ==> matched(code, #[trigger] targets[p] as int, p)
    &&& forall|p: int| 0 <= p < i && code[p] != '[' && code[p] != ']' ==> #[trigger] targets[p] == p
}

/// Builds the jump table of `code` in one left-to-right scan with a stack of
/// open positions. There is a table exactly when the stream is well nested.
pub fn match_brackets(code: &Vec<char>) -> (table: Option<JumpTable>)
    ensures
        table is Some <==> well_nested(code@),
        table matches Some(t) ==> t.links(code@),
{
    let n = code.len();
    let mut targets: Vec<usize> = Vec::new();
    let mut stack: Vec<usize> = Vec::new();
    let mut i: usize = 0;
    while i < n
        invariant
            n == code.len(),
            i <= n,
            pending(code@, stack@, i as int),
            linked_upto(code@, targets@, stack@, i as int),
            forall|j: int| 0 <= j <= i ==> depth(code@, j) >= 0,
        decreases n - i,
    {
        let c = code[i];
        let ghost before = stack@;
        let ghost links = targets@;
        targets.push(i);
        if c == '[' {
            stack.push(i);
            proof {
                assert forall|v: usize| before.contains(v) implies stack@.contains(v) by {
                    let k = choose|k: int| 0 <= k < before.len() && before[k] == v;
                    assert(stack@[k] == v);
                }
                assert(stack@[before.len() as int] == i);
                assert(stack@.contains(i));
            }
        } else if c == ']' {
            match stack.pop() {
                None => {
                    proof {
                        assert(depth(code@, i as int + 1) < 0);
                    }
                    return None;
                },
                Some(start) => {
                    targets.set(start, i);
                    targets.set(i, start);
                    proof {
                        let d = before.len() as int;
                        assert(before[d - 1] == start);
                        assert(matched(code@, start as int, i as int));
                        assert forall|p: int| 0 <= p < i + 1 && code@[p] == '[' implies stack@.contains(
                            p as usize,
                        ) || matched(code@, p, #[trigger] targets@[p] as int) by {
                            if p != start as int {
                                if before.contains(p as usize) {
                                    let k = choose|k: int|
                                        0 <= k < before.len() && before[k] == p as usize;
                                    assert(k != d - 1);
                                    assert(stack@[k] == p as usize);
                                } else {
                                    assert(targets@[p] == links[p]);
                                }
                            }
                        }
                        assert forall|p: int| 0 <= p < i + 1 && code@[p] == ']' implies matched(
                            code@,
                            #[trigger] targets@[p] as int,
                            p,
                        ) by {
                            if p < i {
                                assert(targets@[p] == links[p]);
                            }
                        }
                    }
                },
            }
        } else {
            proof {
                assert(stack@ == before);
            }
        }
        i += 1;
    }
    if stack.len() != 0 {
        return None;
    }
    proof {
        assert forall|p: int| 0 <= p < n && code@[p] == '[' implies matched(
            code@,
            p,
            #[trigger] targets@[p] as int,
        ) by {
            assert(!stack@.contains(p as usize));
        }
    }
    Some(JumpTable { targets })
}

/// In a well-nested stream every loop-open has a partner. The search starts
/// behind position `j`, in front of which the depth has stayed above the
/// depth in front of `open`.
pub proof fn lemma_close_exists(code: Seq<char>, open: int, j: int) -> (close: int)
    requires
        well_nested(code),
        0 <= open < j <= code.len(),
        code[open] == '[',
        forall|k: int| open < k <= j ==> #[trigger] depth(code, k) > depth(code, open),
    ensures
        matched(code, open, close),
    decreases code.len() - j,
{
    if j == code.len() {
        assert(depth(code, j) > depth(code, open));
        assert(depth(code, open) >= 0);
        assert(false);
        0
    } else if depth(code, j + 1) == depth(code, open) {
        assert(depth(code, j) > depth(code, open));
        j
    } else {
        assert(depth(code, j) > depth(code, open));
        lemma_close_exists(code, open, j + 1)
    }
}

/// In a well-nested stream every loop-close has a partner. The search goes
/// down from position `j`, behind which the depth has stayed above the
/// depth behind `close`.
pub proof fn lemma_open_exists(code: Seq<char>, close: int, j: int) -> (open: int)
    requires
        well_nested(code),
        0 <= j < close < code.len(),
        code[close] == ']',
        forall|k: int| j < k <= close ==> #[trigger] depth(code, k) > depth(code, close + 1),
    ensures
        matched(code, open, close),
    decreases j,
{
    assert(depth(code, j + 1) > depth(code, close + 1));
    if depth(code, j) == depth(code, close + 1) {
        j
    } else if j == 0 {
        assert(depth(code, close + 1) >= 0);
        assert(false);
        0
    } else {
        lemma_open_exists(code, close, j - 1)
    }
}

/// In a well-nested stream the partner that `close_of` names is the partner.
pub proof fn lemma_close_of(code: Seq<char>, open: int)
    requires
        well_nested(code),
        0 <= open < code.len(),
        code[open] == '[',
    ensures
        matched(code, open, close_of(code, open)),
{
    assert(depth(code, open + 1) > depth(code, open));
    let close = lemma_close_exists(code, open, open + 1);
}

/// In a well-nested stream the partner that `open_of` names is the partner.
pub proof fn lemma_open_of(code: Seq<char>, close: int)
    requires
        well_nested(code),
        0 <= close < code.len(),
        code[close] == ']',
    ensures
        matched(code, open_of(code, close), close),
{
    assert(depth(code, close) > depth(code, close + 1));
    assert(depth(code, close + 1) >= 0);
    assert(close > 0) by {
        if close == 0 {
            assert(depth(code, 1) == -1);
        }
    }
    let open = lemma_open_exists(code, close, close - 1);
}

/// The depth inside a stretch of a stream is the depth in front of the
/// stretch plus the depth within the stretch.
pub proof fn lemma_depth_within(a: Seq<char>, x: Seq<char>, b: Seq<char>, i: int)
    requires
        0 <= i <= x.len(),
    ensures
        depth(a + x + b, a.len() + i) == depth(a, a.len() as int) + depth(x, i),
    decreases i,
{
    let code = a + x + b;
    if i == 0 {
        lemma_depth_agrees(code, a, a.len() as int);
    } else {
        lemma_depth_within(a, x, b, i - 1);
        assert(code[a.len() + i - 1] == x[i - 1]);
    }
}

/// A pair of partners within a stretch of a stream is a pair of partners in
/// the stream.
pub proof fn lemma_matched_within(
    a: Seq<char>,
    x: Seq<char>,
    b: Seq<char>,
    open: int,
    close: int,
)
    requires
        matched(x, open, close),
    ensures
        matched(a + x + b, a.len() + open, a.len() + close),
{
    let code = a + x + b;
    lemma_depth_within(a, x, b, open);
    lemma_depth_within(a, x, b, close + 1);
    assert(code[a.len() + open] == x[open]);
    assert(code[a.len() + close] == x[close]);
    assert forall|j: int| a.len() + open < j <= a.len() + close implies #[trigger] depth(code, j)
        > depth(code, a.len() + open) by {
        lemma_depth_within(a, x, b, j - a.len());
        assert(depth(x, j - a.len()) > depth(x, open));
    }
}

/// Two well-nested streams in a row are well nested.
pub proof fn lemma_well_nested_concat(x: Seq<char>, y: Seq<char>)
    requires
        well_nested(x),
        well_nested(y),
    ensures
        well_nested(x + y),
{
    let code = x + y;
    assert(code =~= x + y + Seq::<char>::empty());
    assert forall|i: int| 0 <= i <= code.len() implies depth(code, i) >= 0 by {
        if i <= x.len() {
            lemma_depth_agrees(code, x, i);
        } else {
            lemma_depth_within(x, y, Seq::empty(), i - x.len());
        }
    }
    lemma_depth_within(x, y, Seq::empty(), y.len() as int);
}

/// A well-nested stream between a loop-open and a loop-close is well nested.
pub proof fn lemma_well_nested_loop(x: Seq<char>)
    requires
        well_nested(x),
    ensures
        well_nested(seq!['['] + x + seq![']']),
{
    let code = seq!['['] + x + seq![']'];
    assert(depth(seq!['['], 1) == 1) by {
        reveal_with_fuel(depth, 2);
    }
    assert forall|i: int| 0 <= i <= code.len() implies depth(code, i) >= 0 by {
        if i == 0 {
        } else if i <= x.len() + 1 {
            lemma_depth_within(seq!['['], x, seq![']'], i - 1);
        } else {
            lemma_depth_within(seq!['['], x, seq![']'], x.len() as int);
            assert(code[x.len() as int + 1] == ']');
        }
    }
    lemma_depth_within(seq!['['], x, seq![']'], x.len() as int);
    assert(code[x.len() as int + 1] == ']');
}

/// What stands between two partners is well nested.
pub proof fn lemma_inside_well_nested(code: Seq<char>, open: int, close: int)
    requires
        matched(code, open, close),
    ensures
        well_nested(code.subrange(open + 1, close)),
{
    let a = code.take(open + 1);
    let x = code.subrange(open + 1, close);
    let b = code.skip(close);
    assert(a + x + b =~= code);
    lemma_depth_agrees(code, a, open + 1);
    assert(depth(code, close) == depth(code, close + 1) + 1);
    assert forall|i: int| 0 <= i <= x.len() implies depth(x, i) >= 0 by {
        lemma_depth_within(a, x, b, i);
        if i > 0 {
            assert(depth(code, open + 1 + i) > depth(code, open));
        }
    }
    lemma_depth_within(a, x, b, x.len() as int);
}

/// What stands behind a position of depth zero in a well-nested stream is
/// well nested.
pub proof fn lemma_after_well_nested(code: Seq<char>, from: int)
    requires
        well_nested(code),
        0 <= from <= code.len(),
        depth(code, from) == 0,
    ensures
        well_nested(code.skip(from)),
{
    let a = code.take(from);
    let x = code.skip(from);
    let b = Seq::<char>::empty();
    assert(a + x + b =~= code);
    lemma_depth_agrees(code, a, from);
    assert forall|i: int| 0 <= i <= x.len() implies depth(x, i) >= 0 by {
        lemma_depth_within(a, x, b, i);
    }
    lemma_depth_within(a, x, b, x.len() as int);
}

/// The depth after one more symbol.
pub proof fn lemma_depth_push(code: Seq<char>, c: char)
    ensures
        depth(code.push(c), code.len() as int + 1) == depth(code, code.len() as int) + bracket_delta(
            c,
        ),
{
    lemma_depth_agrees(code.push(c), code, code.len() as int);
}

/// Two streams of one length whose symbols change the depth alike have the
/// same depth everywhere.
pub proof fn lemma_depth_alike(a: Seq<char>, b: Seq<char>, k: int)
    requires
        a.len() == b.len(),
        0 <= k <= a.len(),
        forall|i: int| 0 <= i < a.len() ==> bracket_delta(a[i]) == bracket_delta(b[i]),
    ensures
        depth(a, k) == depth(b, k),
    decreases k,
{
    if k > 0 {
        lemma_depth_alike(a, b, k - 1);
    }
}

} // verus!
