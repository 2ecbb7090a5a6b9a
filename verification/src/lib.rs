//! Program synthesis by tree search over short stack-machine programs.
//!
//! The search grows a tree in which every node stands for a program: the
//! instructions on the way from the root down to the node. A function that
//! the caller hands in, the oracle, scores each program once, and the engine
//! keeps the best one it has seen.
//!
//! - [`arena`]: an append-only store with stable handles.
//! - [`instructions`]: the instruction set, programs, and the stack machine
//!   that runs them.
//! - [`text`]: programs as text.
//! - [`binary32`] and [`scores`]: numbers as bit patterns, their order, and
//!   the draw among scores weighted by their softmax.
//! - [`tree`], [`growth`], [`walk`], [`census`] and [`pruning`]: the search
//!   tree as a plain sequence of nodes, where it can grow, how a search
//!   walks it, how many nodes it can hold, and what its pruned copy is.
//! - [`nodes`]: the engine.
//!
//! Numbers are carried as IEEE 754 single-precision bit patterns (`u32`).
//! Classifying and ordering them is integer work and done here; the
//! arithmetic itself, and drawing a number from the unit interval, are
//! functions that the caller hands in. What the library computes from their
//! answers is stated for every model of such a function.
pub mod arena;
pub mod binary32;
pub mod census;
pub mod growth;
pub mod instructions;
pub mod nodes;
pub mod pruning;
pub mod scores;
pub mod text;
pub mod tree;
pub mod walk;

pub use arena::{Ap, Arena, ArenaPointer};
pub use instructions::{Instruction, Operation, Program, Stack, STACKSIZE};
pub use nodes::{NodeRecord, ProgramNode, MCTS};
