//! Multi-pattern, ASCII-case-insensitive, leftmost-longest substring search
//! exposed through a flat shared-memory boundary.

pub mod semantics;
pub mod automaton;
pub mod boundary;
pub mod error;
pub mod memory;
pub mod patterns;
pub mod registry;
