//! Matching of nested execution blocks in a program of virtual-machine
//! instructions against a registry of known blocks.
//!
//! A program is a sequence of [`Instruction`]s. `If` and `Begin` open a
//! block and `End` closes the innermost open one. [`find_matches`] walks a
//! program once, finds every closed block and looks its instructions up in
//! the registry: a block matches a known block if the two hold equal
//! instructions in the same order, from the opening instruction to the
//! `End`. A program that is empty, closes a block that was never opened or
//! leaves a block open is refused with a [`MatchError`].
//!
//! - [`instruction`]: the instructions and their part in the nesting.
//! - [`nesting`]: depth, open blocks and matching `End`s of a program.
//! - [`registry`]: the known blocks and the lookup of a shape.
//! - [`scanner`]: the scan, what it has to give, and what follows from that.
//! - [`block`], [`error`]: what a scan gives.
//! - [`nested`]: the scan of programs nested to any depth.

pub mod block;
pub mod error;
pub mod instruction;
pub mod nested;
pub mod nesting;
pub mod registry;
pub mod scanner;

pub use block::BlockInfo;
pub use error::MatchError;
pub use instruction::Instruction;
pub use registry::Registry;
pub use scanner::find_matches;
