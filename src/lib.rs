//! An animated terminal clock: the format tokenizer, the per-block transition
//! state machine, and the decisions of the two-clock event scheduler.

pub mod animated;
pub mod app;
pub mod scheduler;
pub mod text;
pub mod wall;
