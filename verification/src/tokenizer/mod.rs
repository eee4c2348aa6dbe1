//! Tokenizers: text to token ids and back.
use vstd::prelude::*;

pub mod bpe;
pub mod simple;

pub use bpe::BPETokenizer;
pub use simple::{CharTokenizer, SimpleTokenizer};

verus! {

/// Special token ids of a tokenizer.
#[derive(Clone, Copy, Debug)]
pub struct SpecialTokens {
    /// Padding token.
    pub pad: Option<usize>,
    /// Beginning-of-sequence token.
    pub bos: Option<usize>,
    /// End-of-sequence token.
    pub eos: Option<usize>,
    /// Unknown token.
    pub unk: Option<usize>,
    /// Mask token.
    pub mask: Option<usize>,
}

impl Default for SpecialTokens {
    /// No special tokens at all.
    fn default() -> (r: Self)
        ensures
            r == (SpecialTokens { pad: None, bos: None, eos: None, unk: None, mask: None }),
    {
        SpecialTokens { pad: None, bos: None, eos: None, unk: None, mask: None }
    }
}

/// A tokenizer turns text into token ids and ids back into text.
pub trait Tokenizer {
    /// The token ids of `text`.
    fn encode(&self, text: &str) -> Vec<usize>;

    /// The text of the token ids `ids`.
    fn decode(&self, ids: &[usize]) -> String;

    /// The number of tokens in the vocabulary.
    fn vocab_size(&self) -> usize;

    /// The special token ids.
    fn special_tokens(&self) -> SpecialTokens;
}

} // verus!
