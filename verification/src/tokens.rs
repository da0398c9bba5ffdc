//! Token counting over the cl100k byte-pair encoding, used to budget the
//! text handed to the chat-completion collaborator.

use vstd::prelude::*;

verus! {

/// What the cl100k byte-pair encoder splits a text into. The encoder is
/// built from data fixed inside the tokenizer crate, so the split depends on
/// the text alone.
pub uninterp spec fn cl100k_tokens(s: Seq<char>) -> Seq<Seq<char>>;

/// Relies on `tiktoken_rs::cl100k_base` and `tiktoken_rs::CoreBPE::
/// split_by_token`: the encoder is constructed from the crate's embedded
/// cl100k table, so on success the split is `cl100k_tokens` of the text.
#[verifier::external_body]
fn cl100k_split(text: &str) -> (r: Option<Vec<String>>)
    ensures
        r matches Some(v) ==> v.deep_view() == cl100k_tokens(text@),
{
    match tiktoken_rs::cl100k_base() {
        Ok(bpe) => bpe.split_by_token(text, true).ok(),
        Err(_) => None,
    }
}

/// Splits a text into its cl100k tokens; nothing is returned only when the
/// tokenizer cannot be built.
pub fn bpe_tokenize(text: &str) -> (r: Option<Vec<String>>)
    ensures
        r matches Some(v) ==> v.deep_view() == cl100k_tokens(text@),
{
    cl100k_split(text)
}

/// Counts the cl100k tokens of a text; nothing is returned only when the
/// tokenizer cannot be built.
pub fn token_count(text: &str) -> (r: Option<usize>)
    ensures
        r matches Some(n) ==> n == cl100k_tokens(text@).len(),
{
    match cl100k_split(text) {
        Some(v) => {
            proof {
                assert(v.deep_view().len() == v@.len());
            }
            Some(v.len())
        },
        None => None,
    }
}

} // verus!
