//! A virtual machine for a self-modifying, ternary-encoded instruction set.
//!
//! The machine works on ten-trit words. Its memory holds one word for every
//! value a word can take, and every instruction cell is rewritten through a
//! fixed substitution table right after it has been executed.
//!
//! - [`trits`]: the arithmetic of ten-trit numerals and of the two word
//!   transforms, with the facts proved about them.
//! - [`word`]: the word type and its operations.
//! - [`text`]: words as base-3 text.
//! - [`cipher`]: the substitution table.
//! - [`state`]: the machine's state as plain numbers, and what a cycle and a
//!   run do to it.
//! - [`machine`]: the machine itself.
//! - [`loader`]: loading a program into the machine.

pub mod cipher;
pub mod loader;
pub mod machine;
pub mod state;
pub mod text;
pub mod trits;
pub mod word;

pub use cipher::encrypt;
pub use loader::{is_legal, is_whitespace, strip_whitespace, LoadError};
pub use machine::{Execution, Interpreter, Registers};
pub use state::{Outcome, Step};
pub use text::ParseWordError;
pub use word::{calc_crz, Word, MAX_INT};
