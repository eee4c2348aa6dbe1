//! Backpropagation notes.
pub mod backward;
