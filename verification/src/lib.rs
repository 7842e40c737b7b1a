//! Soul: a chess engine whose rules, search and protocol logic are verified.
//!
//! - `chess`: board representation, attack geometry and static rules.
//! - `engine`: move generation, evaluation, search and time management.
//! - `protocols`: the UCI and XBoard front ends, as far as they decide things.
//! - `numa`, `hugepages`: placement of threads and memory.

pub mod chess;
pub mod engine;
pub mod hugepages;
pub mod numa;
pub mod protocols;
pub mod text;
