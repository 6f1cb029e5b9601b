//! Notebook-style code step display: the text processing, filtering and
//! layout logic behind `step!`, `wait!`, `skip!` and `ignore!`.

pub mod text;
pub mod source;
pub mod filter;
pub mod display;
pub mod macro_args;
pub mod highlight;
pub mod pipeline_laws;
