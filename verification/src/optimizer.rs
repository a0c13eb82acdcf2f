//! The peephole optimizer: it cancels adjacent inverse operations, turns the
//! clear-cell loops into one symbol, and coalesces runs of moves and of cell
//! operations into single tokens.
use vstd::prelude::*;
use crate::error::Error;
use crate::text::chars_of;

verus! {

/// A symbol of the normalised stream: one of the ten instructions, or the
/// clear-cell symbol that stands for a loop that only counts its cell down
/// (or up) to zero.
#[derive(Clone, Copy, Debug, PartialEq, Eq, Structural)]
pub enum Sym {
    Right,
    Left,
    Inc,
    Dec,
    Out,
    In,
    Open,
    Close,
    Dump,
    Window,
    Clear,
}

/// A token of the optimized stream.
#[derive(Clone, Copy, Debug, PartialEq, Eq, Structural)]
pub enum Token {
    /// Move the cursor by a signed displacement, never zero.
    Move(i128),
    /// Add a signed amount to the current cell, never zero.
    Add(i128),
    /// Overwrite the current cell with a constant.
    Assign(u8),
    /// Read that many keystrokes into the current cell, one after the other.
    Input(usize),
    /// Write the current cell.
    Output,
    /// Begin a loop that runs while the current cell is not zero.
    LoopOpen,
    /// End the innermost loop.
    LoopClose,
    /// Debug symbol: dump the current cell.
    CellDump,
    /// Debug symbol: dump the cells around the cursor.
    WindowDump,
}

/// The symbol that a character of the source stands for, if it is in the alphabet.
pub open spec fn sym_of(c: char) -> Option<Sym> {
    if c == '>' {
        Some(Sym::Right)
    } else if c == '<' {
        Some(Sym::Left)
    } else if c == '+' {
        Some(Sym::Inc)
    } else if c == '-' {
        Some(Sym::Dec)
    } else if c == '.' {
        Some(Sym::Out)
    } else if c == ',' {
        Some(Sym::In)
    } else if c == '[' {
        Some(Sym::Open)
    } else if c == ']' {
        Some(Sym::Close)
    } else if c == '#' {
        Some(Sym::Dump)
    } else if c == '@' {
        Some(Sym::Window)
    } else {
        None
    }
}

/// Every character of the stream is in the alphabet.
pub open spec fn all_known(code: Seq<char>) -> bool {
    forall|i: int| 0 <= i < code.len() ==> sym_of(#[trigger] code[i]) is Some
}

/// Position `i` holds the first character of the stream that is not in the alphabet.
pub open spec fn first_unknown(code: Seq<char>, i: int) -> bool {
    &&& 0 <= i < code.len()
    &&& sym_of(code[i]) is None
    &&& forall|j: int| 0 <= j < i ==> sym_of(#[trigger] code[j]) is Some
}

/// The symbols of a stream, one per character.
pub open spec fn lexed(code: Seq<char>) -> Seq<Sym> {
    Seq::new(code.len(), |i: int| sym_of(code[i])->0)
}

/// Two adjacent symbols that undo each other.
pub open spec fn cancels(a: Sym, b: Sym) -> bool {
    ||| a == Sym::Right && b == Sym::Left
    ||| a == Sym::Left && b == Sym::Right
    ||| a == Sym::Inc && b == Sym::Dec
    ||| a == Sym::Dec && b == Sym::Inc
}

/// The symbol `c` completes a clear-cell loop at the end of `stack`.
pub open spec fn closes_idiom(stack: Seq<Sym>, c: Sym) -> bool {
    &&& c == Sym::Close
    &&& stack.len() >= 2
    &&& stack[stack.len() - 2] == Sym::Open
    &&& (stack[stack.len() - 1] == Sym::Inc || stack[stack.len() - 1] == Sym::Dec)
}

/// A normalised stream extended by one symbol and normalised again.
pub open spec fn reduce(stack: Seq<Sym>, c: Sym) -> Seq<Sym> {
    if stack.len() > 0 && cancels(stack.last(), c) {
        stack.drop_last()
    } else if closes_idiom(stack, c) {
        stack.take(stack.len() - 2).push(Sym::Clear)
    } else {
        stack.push(c)
    }
}

/// The stream in which no rewriting rule applies any more: adjacent inverse
/// moves and adjacent inverse cell changes are gone, and every loop that
/// consists of one increment or one decrement has become a clear-cell symbol.
/// It is what is left on a stack onto which the symbols are pushed one by
/// one, each being rewritten with the top of the stack where a rule applies.
pub open spec fn normal_form(s: Seq<Sym>) -> Seq<Sym>
    decreases s.len(),
{
    if s.len() == 0 {
        Seq::empty()
    } else {
        reduce(normal_form(s.drop_last()), s.last())
    }
}

/// The symbols at `i` and `i + 1` do not undo each other.
pub open spec fn no_pair_at(s: Seq<Sym>, i: int) -> bool {
    !cancels(s[i], s[i + 1])
}

/// The symbols at `i`, `i + 1` and `i + 2` are not a clear-cell loop.
pub open spec fn no_idiom_at(s: Seq<Sym>, i: int) -> bool {
    !(s[i] == Sym::Open && (s[i + 1] == Sym::Inc || s[i + 1] == Sym::Dec) && s[i + 2]
        == Sym::Close)
}

/// No rewriting rule applies anywhere in the stream.
pub open spec fn irreducible(s: Seq<Sym>) -> bool {
    &&& forall|i: int| 0 <= i < s.len() - 1 ==> #[trigger] no_pair_at(s, i)
    &&& forall|i: int| 0 <= i < s.len() - 2 ==> #[trigger] no_idiom_at(s, i)
}

/// The normal form is a fixed point of the rewriting rules.
pub proof fn lemma_normal_form_irreducible(s: Seq<Sym>)
    ensures
        irreducible(normal_form(s)),
    decreases s.len(),
{
    if s.len() > 0 {
        let t = normal_form(s.drop_last());
        let c = s.last();
        let r = reduce(t, c);
        lemma_normal_form_irreducible(s.drop_last());
        assert forall|i: int| 0 <= i < r.len() - 1 implies #[trigger] no_pair_at(r, i) by {
            if i < t.len() - 1 {
                assert(no_pair_at(t, i));
            }
        }
        assert forall|i: int| 0 <= i < r.len() - 2 implies #[trigger] no_idiom_at(r, i) by {
            if i < t.len() - 2 {
                assert(no_idiom_at(t, i));
            }
        }
    }
}

/// The stream after the rewriting rule that applies at position `i`: an
/// adjacent pair of symbols that undo each other is deleted, and a loop of
/// one increment or one decrement becomes the clear-cell symbol.
pub open spec fn rewritten_at(s: Seq<Sym>, i: int) -> Option<Seq<Sym>> {
    if 0 <= i && i + 1 < s.len() && cancels(s[i], s[i + 1]) {
        Some(s.take(i) + s.skip(i + 2))
    } else if 0 <= i && i + 2 < s.len() && !no_idiom_at(s, i) {
        Some(s.take(i).push(Sym::Clear) + s.skip(i + 3))
    } else {
        None
    }
}

/// One application of a rewriting rule turns `a` into `b`.
pub open spec fn rewrites_to(a: Seq<Sym>, b: Seq<Sym>) -> bool {
    exists|i: int| rewritten_at(a, i) == Some(b)
}

/// `k` applications of rewriting rules, one after the other, turn `a` into `b`.
pub open spec fn derives(a: Seq<Sym>, b: Seq<Sym>, k: nat) -> bool
    decreases k,
{
    if k == 0 {
        a == b
    } else {
        exists|m: Seq<Sym>| rewrites_to(a, m) && derives(m, b, (k - 1) as nat)
    }
}

/// A rewriting step stays one with more symbols behind the stream.
pub proof fn lemma_rewrites_in_front(a: Seq<Sym>, b: Seq<Sym>, z: Seq<Sym>)
    requires
        rewrites_to(a, b),
    ensures
        rewrites_to(a + z, b + z),
{
    let i = choose|i: int| rewritten_at(a, i) == Some(b);
    let az = a + z;
    assert(az[i] == a[i]);
    assert(az[i + 1] == a[i + 1]);
    if cancels(a[i], a[i + 1]) {
        assert(az.take(i) + az.skip(i + 2) =~= b + z);
    } else {
        assert(az[i + 2] == a[i + 2]);
        assert(az.take(i).push(Sym::Clear) + az.skip(i + 3) =~= b + z);
    }
    assert(rewritten_at(az, i) == Some(b + z));
}

/// A derivation stays one with more symbols behind the streams.
pub proof fn lemma_derives_in_front(a: Seq<Sym>, b: Seq<Sym>, z: Seq<Sym>, k: nat)
    requires
        derives(a, b, k),
    ensures
        derives(a + z, b + z, k),
    decreases k,
{
    if k > 0 {
        let m = choose|m: Seq<Sym>| rewrites_to(a, m) && derives(m, b, (k - 1) as nat);
        lemma_rewrites_in_front(a, m, z);
        lemma_derives_in_front(m, b, z, (k - 1) as nat);
    }
}

/// A derivation followed by one more rewriting step is a derivation.
pub proof fn lemma_derives_then(a: Seq<Sym>, b: Seq<Sym>, c: Seq<Sym>, k: nat)
    requires
        derives(a, b, k),
        rewrites_to(b, c),
    ensures
        derives(a, c, k + 1),
    decreases k,
{
    if k == 0 {
        assert(derives(c, c, 0));
    } else {
        let m = choose|m: Seq<Sym>| rewrites_to(a, m) && derives(m, b, (k - 1) as nat);
        lemma_derives_then(m, b, c, (k - 1) as nat);
    }
}

/// The normal form comes from the stream by rewriting: `k` applications of
/// the rules lead from the stream to it.
pub proof fn lemma_normal_form_derived(s: Seq<Sym>) -> (k: nat)
    ensures
        derives(s, normal_form(s), k),
    decreases s.len(),
{
    if s.len() == 0 {
        assert(normal_form(s) =~= s);
        0
    } else {
        let front = s.drop_last();
        let c = s.last();
        let n = normal_form(front);
        let k = lemma_normal_form_derived(front);
        lemma_derives_in_front(front, n, seq![c], k);
        assert(front + seq![c] =~= s);
        let all = n + seq![c];
        if n.len() > 0 && cancels(n.last(), c) {
            let i = n.len() - 1;
            assert(all[i] == n.last());
            assert(all[i + 1] == c);
            assert(all.take(i) + all.skip(i + 2) =~= n.drop_last());
            assert(rewritten_at(all, i) == Some(n.drop_last()));
            lemma_derives_then(s, all, n.drop_last(), k);
            k + 1
        } else if closes_idiom(n, c) {
            let i = n.len() - 2;
            assert(all[i] == n[i]);
            assert(all[i + 1] == n[i + 1]);
            assert(all[i + 2] == c);
            let r = n.take(i).push(Sym::Clear);
            assert(all.take(i).push(Sym::Clear) + all.skip(i + 3) =~= r);
            assert(rewritten_at(all, i) == Some(r));
            lemma_derives_then(s, all, r, k);
            k + 1
        } else {
            assert(all =~= n.push(c));
            k
        }
    }
}

/// The run that the coalescer is gathering.
pub enum Pending {
    /// No run is open.
    Idle,
    /// A run of moves with this net displacement.
    Moving(int),
    /// A run of operations on one cell: the reads seen so far, whether the
    /// cell was cleared after the last read, and the net change since the
    /// last read or clear.
    Cell { reads: nat, cleared: bool, delta: int },
}

/// The coalescer's state: the tokens emitted and the run being gathered.
pub struct Gathered {
    pub out: Seq<Token>,
    pub pending: Pending,
}

/// The displacement of a move symbol, or the change of a cell symbol.
pub open spec fn weight(c: Sym) -> int {
    if c == Sym::Right || c == Sym::Inc {
        1
    } else if c == Sym::Left || c == Sym::Dec {
        -1
    } else {
        0
    }
}

/// The tokens that stand for a finished run.
pub open spec fn emitted(p: Pending) -> Seq<Token> {
    match p {
        Pending::Idle => Seq::empty(),
        Pending::Moving(net) => if net == 0 {
            Seq::empty()
        } else {
            seq![Token::Move(net as i128)]
        },
        Pending::Cell { reads, cleared, delta } => (if reads > 0 {
            seq![Token::Input(reads as usize)]
        } else {
            Seq::empty()
        }) + (if cleared {
            seq![Token::Assign((delta % 256) as u8)]
        } else if delta != 0 {
            seq![Token::Add(delta as i128)]
        } else {
            Seq::empty()
        }),
    }
}

/// The token of a symbol that is passed through unchanged.
pub open spec fn plain(c: Sym) -> Token {
    match c {
        Sym::Out => Token::Output,
        Sym::Open => Token::LoopOpen,
        Sym::Close => Token::LoopClose,
        Sym::Dump => Token::CellDump,
        _ => Token::WindowDump,
    }
}

/// The cell run `p` after the cell symbol `c`.
pub open spec fn cell_after(p: Pending, c: Sym) -> Pending {
    let (reads, cleared, delta) = match p {
        Pending::Cell { reads, cleared, delta } => (reads, cleared, delta),
        _ => (0nat, false, 0int),
    };
    if c == Sym::Clear {
        Pending::Cell { reads, cleared: true, delta: 0 }
    } else if c == Sym::In {
        Pending::Cell { reads: reads + 1, cleared: false, delta: 0 }
    } else {
        Pending::Cell { reads, cleared, delta: delta + weight(c) }
    }
}

/// The coalescer's state after one more symbol.
pub open spec fn feed(g: Gathered, c: Sym) -> Gathered {
    if c == Sym::Right || c == Sym::Left {
        match g.pending {
            Pending::Moving(net) => Gathered { out: g.out, pending: Pending::Moving(net + weight(c)) },
            _ => Gathered { out: g.out + emitted(g.pending), pending: Pending::Moving(weight(c)) },
        }
    } else if c == Sym::Inc || c == Sym::Dec || c == Sym::Clear || c == Sym::In {
        match g.pending {
            Pending::Cell { .. } => Gathered { out: g.out, pending: cell_after(g.pending, c) },
            _ => Gathered {
                out: g.out + emitted(g.pending),
                pending: cell_after(Pending::Idle, c),
            },
        }
    } else {
        Gathered { out: (g.out + emitted(g.pending)).push(plain(c)), pending: Pending::Idle }
    }
}

/// The coalescer's state after a whole stream.
pub open spec fn gathered(s: Seq<Sym>) -> Gathered
    decreases s.len(),
{
    if s.len() == 0 {
        Gathered { out: Seq::empty(), pending: Pending::Idle }
    } else {
        feed(gathered(s.drop_last()), s.last())
    }
}

/// The tokens of a stream: each maximal run of moves becomes one
/// displacement (none if it is zero), each maximal run of cell operations
/// becomes its reads followed by what the cell ends up as, and every other
/// symbol becomes one token.
pub open spec fn coalesced(s: Seq<Sym>) -> Seq<Token> {
    gathered(s).out + emitted(gathered(s).pending)
}

/// The optimized form of a stream whose characters are all in the alphabet.
pub open spec fn optimized(code: Seq<char>) -> Seq<Token> {
    coalesced(normal_form(lexed(code)))
}

/// `c` written `n` times in a row.
pub open spec fn row(c: char, n: nat) -> Seq<char>
    decreases n,
{
    if n == 0 {
        Seq::empty()
    } else {
        row(c, (n - 1) as nat).push(c)
    }
}

/// A signed amount as a row of primitive symbols: `up` for each unit above
/// zero, `down` for each unit below.
pub open spec fn signed_row(k: int, up: char, down: char) -> Seq<char> {
    if k >= 0 {
        row(up, k as nat)
    } else {
        row(down, (-k) as nat)
    }
}

/// The primitive symbols that a token abbreviates.
pub open spec fn primitive(t: Token) -> Seq<char> {
    match t {
        Token::Move(k) => signed_row(k as int, '>', '<'),
        Token::Add(d) => signed_row(d as int, '+', '-'),
        Token::Assign(v) => "[-]"@ + row('+', v as nat),
        Token::Input(n) => row(',', n as nat),
        Token::Output => seq!['.'],
        Token::LoopOpen => seq!['['],
        Token::LoopClose => seq![']'],
        Token::CellDump => seq!['#'],
        Token::WindowDump => seq!['@'],
    }
}

/// A token stream written out in primitive symbols again.
pub open spec fn expanded(tokens: Seq<Token>) -> Seq<char>
    decreases tokens.len(),
{
    if tokens.len() == 0 {
        Seq::empty()
    } else {
        expanded(tokens.drop_last()) + primitive(tokens.last())
    }
}

fn symbol(c: char) -> (r: Option<Sym>)
    ensures
        r == sym_of(c),
{
    if c == '>' {
        Some(Sym::Right)
    } else if c == '<' {
        Some(Sym::Left)
    } else if c == '+' {
        Some(Sym::Inc)
    } else if c == '-' {
        Some(Sym::Dec)
    } else if c == '.' {
        Some(Sym::Out)
    } else if c == ',' {
        Some(Sym::In)
    } else if c == '[' {
        Some(Sym::Open)
    } else if c == ']' {
        Some(Sym::Close)
    } else if c == '#' {
        Some(Sym::Dump)
    } else if c == '@' {
        Some(Sym::Window)
    } else {
        None
    }
}

/// Turns the characters of a stream into symbols, and fails on the first
/// character that is not in the alphabet.
pub fn lex(code: &Vec<char>) -> (r: Result<Vec<Sym>, Error>)
    ensures
        r is Ok <==> all_known(code@),
        r matches Ok(syms) ==> syms@ == lexed(code@),
        r matches Err(e) ==> exists|i: int|
            first_unknown(code@, i) && e == Error::InvalidCharacter(code@[i]),
{
    let mut syms: Vec<Sym> = Vec::new();
    let mut i: usize = 0;
    while i < code.len()
        invariant
            i <= code.len(),
            syms@.len() == i,
            forall|j: int| 0 <= j < i ==> sym_of(#[trigger] code@[j]) == Some(syms@[j]),
        decreases code.len() - i,
    {
        match symbol(code[i]) {
            Some(s) => {
                syms.push(s);
            },
            None => {
                assert(first_unknown(code@, i as int));
                return Err(Error::InvalidCharacter(code[i]));
            },
        }
        i += 1;
    }
    assert(syms@ =~= lexed(code@));
    Ok(syms)
}

/// Phase one: rewrites the stream until no rule applies, in one pass over a
/// stack of the symbols kept so far.
pub fn normalize(syms: &Vec<Sym>) -> (r: Vec<Sym>)
    ensures
        r@ == normal_form(syms@),
        irreducible(r@),
        exists|k: nat| derives(syms@, r@, k),
{
    proof {
        lemma_normal_form_irreducible(syms@);
        let k = lemma_normal_form_derived(syms@);
    }
    let mut stack: Vec<Sym> = Vec::new();
    let mut i: usize = 0;
    while i < syms.len()
        invariant
            i <= syms.len(),
            stack@ == normal_form(syms@.take(i as int)),
        decreases syms.len() - i,
    {
        let c = syms[i];
        proof {
            assert(syms@.take(i as int + 1).drop_last() == syms@.take(i as int));
        }
        let n = stack.len();
        let ghost before = stack@;
        if n > 0 && ((stack[n - 1] == Sym::Right && c == Sym::Left) || (stack[n - 1] == Sym::Left
            && c == Sym::Right) || (stack[n - 1] == Sym::Inc && c == Sym::Dec) || (stack[n - 1]
            == Sym::Dec && c == Sym::Inc)) {
            stack.pop();
        } else if c == Sym::Close && n >= 2 && stack[n - 2] == Sym::Open && (stack[n - 1]
            == Sym::Inc || stack[n - 1] == Sym::Dec) {
            stack.pop();
            stack.pop();
            stack.push(Sym::Clear);
            assert(stack@ == before.take(n - 2).push(Sym::Clear));
        } else {
            stack.push(c);
        }
        i += 1;
    }
    assert(syms@.take(syms.len() as int) == syms@);
    stack
}

/// The run that the coalescer is gathering, with machine integers.
enum Run {
    Idle,
    Moving(i128),
    Cell { reads: usize, cleared: bool, delta: i128, low: u8 },
}

impl Run {
    spec fn model(self) -> Pending {
        match self {
            Run::Idle => Pending::Idle,
            Run::Moving(net) => Pending::Moving(net as int),
            Run::Cell { reads, cleared, delta, low } => Pending::Cell {
                reads: reads as nat,
                cleared,
                delta: delta as int,
            },
        }
    }

    /// The counters of a run over at most `n` symbols stay within `n`.
    spec fn within(self, n: int) -> bool {
        match self {
            Run::Idle => true,
            Run::Moving(net) => -n <= net <= n,
            Run::Cell { reads, cleared, delta, low } => reads <= n && -n <= delta <= n && low
                == delta % 256,
        }
    }
}

fn flush(out: &mut Vec<Token>, run: &Run)
    requires
        exists|n: int| run.within(n),
    ensures
        final(out)@ == old(out)@ + emitted(run.model()),
{
    match run {
        Run::Idle => {
            assert(out@ =~= out@ + Seq::<Token>::empty());
        },
        Run::Moving(net) => {
            if *net != 0 {
                out.push(Token::Move(*net));
                assert(out@ =~= old(out)@ + seq![Token::Move(*net)]);
            } else {
                assert(out@ =~= out@ + Seq::<Token>::empty());
            }
        },
        Run::Cell { reads, cleared, delta, low } => {
            if *reads > 0 {
                out.push(Token::Input(*reads));
            }
            if *cleared {
                out.push(Token::Assign(*low));
            } else if *delta != 0 {
                out.push(Token::Add(*delta));
            }
            assert(out@ =~= old(out)@ + emitted(run.model()));
        },
    }
}

/// Phase two: coalesces each run of moves and each run of cell operations
/// into tokens, in one pass.
pub fn coalesce(syms: &Vec<Sym>) -> (r: Vec<Token>)
    ensures
        r@ == coalesced(syms@),
{
    let mut out: Vec<Token> = Vec::new();
    let mut run = Run::Idle;
    let mut i: usize = 0;
    while i < syms.len()
        invariant
            i <= syms.len(),
            out@ == gathered(syms@.take(i as int)).out,
            run.model() == gathered(syms@.take(i as int)).pending,
            run.within(i as int),
        decreases syms.len() - i,
    {
        let c = syms[i];
        proof {
            assert(syms@.take(i as int + 1).drop_last() == syms@.take(i as int));
        }
        match c {
            Sym::Right | Sym::Left => {
                let w: i128 = if c == Sym::Right {
                    1
                } else {
                    -1
                };
                match run {
                    Run::Moving(net) => {
                        run = Run::Moving(net + w);
                    },
                    _ => {
                        flush(&mut out, &run);
                        run = Run::Moving(w);
                    },
                }
            },
            Sym::Inc | Sym::Dec | Sym::Clear | Sym::In => {
                let (reads, cleared, delta, low) = match run {
                    Run::Cell { reads, cleared, delta, low } => (reads, cleared, delta, low),
                    _ => {
                        flush(&mut out, &run);
                        (0usize, false, 0i128, 0u8)
                    },
                };
                run =
                match c {
                    Sym::Clear => Run::Cell { reads, cleared: true, delta: 0, low: 0 },
                    Sym::In => Run::Cell { reads: reads + 1, cleared: false, delta: 0, low: 0 },
                    Sym::Inc => Run::Cell {
                        reads,
                        cleared,
                        delta: delta + 1,
                        low: if low == 255 {
                            0
                        } else {
                            low + 1
                        },
                    },
                    _ => Run::Cell {
                        reads,
                        cleared,
                        delta: delta - 1,
                        low: if low == 0 {
                            255
                        } else {
                            low - 1
                        },
                    },
                };
            },
            _ => {
                flush(&mut out, &run);
                out.push(
                    match c {
                        Sym::Out => Token::Output,
                        Sym::Open => Token::LoopOpen,
                        Sym::Close => Token::LoopClose,
                        Sym::Dump => Token::CellDump,
                        _ => Token::WindowDump,
                    },
                );
                run = Run::Idle;
            },
        }
        i += 1;
    }
    assert(syms@.take(syms.len() as int) == syms@);
    flush(&mut out, &run);
    out
}

/// Optimizes an instruction stream: normalises it, then coalesces it. A
/// character outside the alphabet makes the optimizer fail and is reported.
pub fn optimize(contents: &str) -> (r: Result<Vec<Token>, Error>)
    ensures
        r is Ok <==> all_known(contents@),
        r matches Ok(tokens) ==> tokens@ == optimized(contents@),
        r matches Err(e) ==> exists|i: int|
            first_unknown(contents@, i) && e == Error::InvalidCharacter(contents@[i]),
{
    let code = chars_of(contents);
    match lex(&code) {
        Ok(syms) => {
            let normal = normalize(&syms);
            Ok(coalesce(&normal))
        },
        Err(e) => Err(e),
    }
}

fn push_row(out: &mut String, c: char, n: u128)
    ensures
        final(out)@ == old(out)@ + row(c, n as nat),
{
    let mut i: u128 = 0;
    assert(out@ =~= old(out)@ + row(c, 0));
    while i < n
        invariant
            i <= n,
            out@ == old(out)@ + row(c, i as nat),
        decreases n - i,
    {
        out.push(c);
        i += 1;
        assert(out@ =~= old(out)@ + row(c, i as nat));
    }
}

fn push_signed_row(out: &mut String, k: i128, up: char, down: char)
    ensures
        final(out)@ == old(out)@ + signed_row(k as int, up, down),
{
    if k >= 0 {
        push_row(out, up, k as u128);
    } else {
        push_row(out, down, (-(k + 1)) as u128 + 1);
    }
}

/// Writes a token stream out in primitive symbols again.
pub fn expand(tokens: &Vec<Token>) -> (code: String)
    ensures
        code@ == expanded(tokens@),
{
    let mut code = String::new();
    let mut i: usize = 0;
    while i < tokens.len()
        invariant
            i <= tokens.len(),
            code@ == expanded(tokens@.take(i as int)),
        decreases tokens.len() - i,
    {
        proof {
            assert(tokens@.take(i as int + 1).drop_last() == tokens@.take(i as int));
        }
        let ghost before = code@;
        match tokens[i] {
            Token::Move(k) => {
                push_signed_row(&mut code, k, '>', '<');
            },
            Token::Add(d) => {
                push_signed_row(&mut code, d, '+', '-');
            },
            Token::Assign(v) => {
                code.append("[-]");
                push_row(&mut code, '+', v as u128);
                assert(code@ =~= before + ("[-]"@ + row('+', v as nat)));
            },
            Token::Input(n) => {
                push_row(&mut code, ',', n as u128);
            },
            Token::Output => {
                code.push('.');
                assert(code@ =~= before + seq!['.']);
            },
            Token::LoopOpen => {
                code.push('[');
                assert(code@ =~= before + seq!['[']);
            },
            Token::LoopClose => {
                code.push(']');
                assert(code@ =~= before + seq![']']);
            },
            Token::CellDump => {
                code.push('#');
                assert(code@ =~= before + seq!['#']);
            },
            Token::WindowDump => {
                code.push('@');
                assert(code@ =~= before + seq!['@']);
            },
        }
        i += 1;
    }
    assert(tokens@.take(tokens.len() as int) == tokens@);
    code
}

} // verus!
