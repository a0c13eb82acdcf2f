//! What stands between the raw source text and the core: the filter that
//! drops everything but instructions, and the check that the loop markers
//! are balanced.
use vstd::prelude::*;
use crate::brackets::{balanced, depth, lemma_depth_agrees};
use crate::error::Error;
use crate::machine::is_instruction;
use crate::text::chars_of;

verus! {

/// The text that the core is handed: in verbose mode the raw text as it is,
/// and else its instructions only, in their order.
pub open spec fn kept(raw: Seq<char>, verbose: bool) -> Seq<char>
    decreases raw.len(),
{
    if raw.len() == 0 {
        Seq::empty()
    } else if verbose || is_instruction(raw.last()) {
        kept(raw.drop_last(), verbose).push(raw.last())
    } else {
        kept(raw.drop_last(), verbose)
    }
}

/// Verbose mode drops nothing.
pub proof fn lemma_verbose_keeps_all(raw: Seq<char>)
    ensures
        kept(raw, true) == raw,
    decreases raw.len(),
{
    if raw.len() > 0 {
        lemma_verbose_keeps_all(raw.drop_last());
        assert(raw.drop_last().push(raw.last()) == raw);
    }
}

/// Without verbose mode only instructions are left.
pub proof fn lemma_kept_instructions(raw: Seq<char>)
    ensures
        forall|i: int|
            0 <= i < kept(raw, false).len() ==> is_instruction(#[trigger] kept(raw, false)[i]),
    decreases raw.len(),
{
    if raw.len() > 0 {
        lemma_kept_instructions(raw.drop_last());
        let all = kept(raw, false);
        let front = kept(raw.drop_last(), false);
        assert forall|i: int| 0 <= i < all.len() implies is_instruction(#[trigger] all[i]) by {
            if i < front.len() {
                assert(all[i] == front[i]);
            }
        }
    }
}

/// Filters the raw source text, unless verbose mode bypasses the filter, and
/// refuses the result if it holds more loop-opens than loop-closes or the
/// other way round.
pub fn get_code(raw: &str, verbose: bool) -> (r: Result<String, Error>)
    ensures
        r is Ok <==> balanced(kept(raw@, verbose)),
        r matches Ok(code) ==> {
            &&& code@ == kept(raw@, verbose)
            &&& verbose ==> code@ == raw@
            &&& !verbose ==> forall|i: int| 0 <= i < code@.len() ==> is_instruction(code@[i])
        },
        r matches Err(e) ==> e == Error::UnbalancedBrackets,
{
    proof {
        lemma_verbose_keeps_all(raw@);
        lemma_kept_instructions(raw@);
    }
    let chars = chars_of(raw);
    let mut code = String::new();
    let mut opens: usize = 0;
    let mut closes: usize = 0;
    let mut i: usize = 0;
    while i < chars.len()
        invariant
            i <= chars.len(),
            code@ == kept(chars@.take(i as int), verbose),
            opens <= i,
            closes <= i,
            opens - closes == depth(code@, code@.len() as int),
        decreases chars.len() - i,
    {
        let c = chars[i];
        proof {
            assert(chars@.take(i as int + 1).drop_last() == chars@.take(i as int));
        }
        if verbose || c == '>' || c == '<' || c == '+' || c == '-' || c == '.' || c == ','
            || c == '[' || c == ']' || c == '#' || c == '@' {
            proof {
                lemma_depth_agrees(code@, code@.push(c), code@.len() as int);
            }
            code.push(c);
            if c == '[' {
                opens += 1;
            } else if c == ']' {
                closes += 1;
            }
        }
        i += 1;
    }
    assert(chars@.take(chars.len() as int) == chars@);
    if opens != closes {
        return Err(Error::UnbalancedBrackets);
    }
    Ok(code)
}

} // verus!
