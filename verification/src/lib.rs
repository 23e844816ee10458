//! A single-pass translator from a tiny imperative language to pseudo-assembly.
//!
//! A [`Cradle`] holds one translation: the input with one character of lookahead, the
//! counter that numbers labels, and the text written so far. Every production of the
//! grammar is a method that consumes characters and writes lines; no tree is built. A
//! production that cannot go on returns an error, and what was written before it stays.
//!
//! What each production does is stated over a model: the functions of `grammar` and
//! `flow` give, for an input and a place in it, the lines written and the place
//! reached. `balance`, `branches` and `shapes` prove what holds of those lines.

pub mod balance;
pub mod branches;
pub mod chars;
pub mod code;
pub mod controls;
pub mod cradle;
pub mod error;
pub mod flow;
pub mod grammar;
pub mod label;
pub mod scan;
pub mod shapes;
pub mod source;
pub mod step;
pub mod text;

pub use chars::{NEW_LINE, SPACE, TAB};
pub use cradle::Cradle;
pub use error::{expected, TranslateError};
