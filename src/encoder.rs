//! The encoder's input-length rule: an encoding longer than the model
//! accepts is redone on a character-truncated prefix of the text.
use vstd::prelude::*;
use crate::text::{chars_of, string_of};

verus! {

/// Most tokens the model takes.
pub const MAX_MODEL_TOKENS: usize = 512;

/// Characters kept of a text whose encoding is too long.
pub const TRUNCATION_CHARS: usize = 2000;

pub open spec fn truncated(text: Seq<char>) -> Seq<char> {
    if text.len() <= TRUNCATION_CHARS {
        text
    } else {
        text.take(TRUNCATION_CHARS as int)
    }
}

/// The text to encode again when the first encoding of `text` has
/// `n_tokens` tokens: `None` when they fit the model, else the first 2000
/// characters of `text`.
pub fn retry_text(text: &str, n_tokens: usize) -> (r: Option<String>)
    ensures
        r is None <==> n_tokens <= MAX_MODEL_TOKENS,
        r is Some ==> r->0@ == truncated(text@),
{
    if n_tokens <= MAX_MODEL_TOKENS {
        return None;
    }
    let cs = chars_of(text);
    let n = if cs.len() < TRUNCATION_CHARS {
        cs.len()
    } else {
        TRUNCATION_CHARS
    };
    let mut p: Vec<char> = Vec::new();
    let mut i: usize = 0;
    while i < n
        invariant
            i <= n <= cs.len(),
            p@ == cs@.take(i as int),
        decreases n - i,
    {
        p.push(cs[i]);
        assert(cs@.take(i + 1) =~= cs@.take(i as int).push(cs@[i as int]));
        i = i + 1;
    }
    assert(cs@.take(n as int) =~= truncated(text@));
    Some(string_of(p.as_slice()))
}

} // verus!
