//! Tokenizers for a small educational GPT: character-level, word-level and
//! byte-pair encoding, with the text renderings the project prints.
pub mod text;
pub mod tokenizer;
pub mod viz;
pub mod autograd;
