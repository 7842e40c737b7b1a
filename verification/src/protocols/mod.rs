//! The UCI and XBoard front ends, as far as they decide things.

pub mod game;
pub mod notation;
pub mod smp;
pub mod spmc;
pub mod uci;
pub mod xboard;
