//! A streaming interpreter engine for an eight-instruction tape language.
//!
//! The engine consumes a program one character at a time and never looks
//! ahead: it records the instructions as they arrive and repeats a loop by
//! replaying what it has recorded. The host performs all input and output;
//! every function here works on plain values.
//!
//! - `op`: the instructions and the classification of characters.
//! - `tape`: the sparse, unbounded tape.
//! - `model`: the engine as a state machine over mathematical values.
//! - `vm`: the executable engine, one step at a time.
//! - `run`: a whole program run against a given input, within a step bound.
//! - `balance`: how the loop bookkeeping follows the nesting of the brackets.
//! - `laws`: what holds of single steps and of whole runs.
//! - `jumps`: what a program means when it is executed with jumps between
//!   matching brackets.
//! - `agreement`: the proof that the engine computes what the program means.

pub mod agreement;
pub mod balance;
pub mod jumps;
pub mod laws;
pub mod model;
pub mod op;
pub mod run;
pub mod tape;
pub mod vm;
