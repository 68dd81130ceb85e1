//! A weighted, priority-ordered pattern-matching machine.
//!
//! A program is a flat sequence of instructions ([Inst]). A [Pattern] runs it
//! over a sequence of input symbols, keeping one thread per program counter
//! and position, and folds the weights ([Weight]) of the matches it completes.
//! Each `Step` instruction tests one symbol through the [Step] trait.

pub mod laws;
pub mod paths;
pub mod pattern;
pub mod program;
pub mod step;
pub mod weight;

pub use pattern::Pattern;
pub use program::Inst;
pub use step::Step;
pub use weight::Weight;
