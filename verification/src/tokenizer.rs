//! The token count of a text.

use vstd::prelude::*;

verus! {

/// The longest text, in characters, that is handed to the tokenizer.
pub const MAX_TOKENIZED_CHARS: usize = 100_000;

/// The number of tokens into which the `cl100k_base` encoding splits `text`, special
/// tokens included.
pub uninterp spec fn cl100k_token_count(text: Seq<char>) -> nat;

/// Counts the tokens of `text` with `CoreBPE::encode_with_special_tokens` of `tiktoken_rs`,
/// on the `cl100k_base` encoder that `cl100k_base_singleton` builds once per process.
/// Not proved: that the count is the one the encoding defines for this text.
///
/// The crate unwraps the matches of its regular expression, so the call panics where
/// the regex engine gives up. The engine keeps one branch for each character of a run
/// of white space and gives up at a million branches; `requires` keeps the text, and
/// with it every such run, a tenth of that long.
#[verifier::external_body]
pub(crate) fn count_tokens(text: &str) -> (n: usize)
    requires
        text@.len() <= MAX_TOKENIZED_CHARS,
    ensures
        n == cl100k_token_count(text@),
{
    tiktoken_rs::cl100k_base_singleton().lock().encode_with_special_tokens(text).len()
}

} // verus!
