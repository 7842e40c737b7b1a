//! Search, evaluation, and time management.

pub mod adjudication;
pub mod combiner;
pub mod config;
pub mod corrstats;
pub mod deepening;
pub mod eval;
pub mod eval_params;
pub mod history;
pub mod line;
pub mod loops;
pub mod memory;
pub mod mobility;
pub mod movegen;
pub mod movepicker;
pub mod mvpstats;
pub mod negamax;
pub mod pawns;
pub mod perft;
pub mod prune;
pub mod prunings;
pub mod quiesce;
pub mod search;
pub mod search_params;
pub mod see;
pub mod step;
pub mod tm;
pub mod tt;
pub mod value;
