//! A lexer-generator core: token rules are regular patterns paired with
//! callback payloads, compiled through an NFA (Thompson construction) into a
//! DFA (subset construction over epsilon-closures) whose transition matrix a
//! downstream code generator consumes.

pub mod symbol;
pub mod alphabet;
pub mod pattern;
pub mod state;
pub mod matrix;
pub mod nfa;
pub mod dfa;
pub mod group;
