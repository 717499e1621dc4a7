//! A delimiter-based stream pipeline: an incremental tokenizer, a two-variant
//! value model, the interpreter contract that scripting backends implement, and
//! the driver that applies a declared callable to each token.

pub mod tokenizer;
pub mod text;
pub mod interpreters;
pub mod args;
pub mod pipeline;
pub mod lua;
pub mod python;
