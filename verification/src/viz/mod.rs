//! Renderings of the model, of training and of tokens for display.
pub mod labels;
pub mod terminal;
pub mod training;
