//! The discrete-event core of the rtce timeline executor: event ordering,
//! the event queue and its fight-horizon drain, the per-buff instance
//! runtime, the rotation decision walk, proc gating, and the nearest-rank
//! percentile. Instants and rates are carried as order keys (`u64`s whose
//! integer order is the order of the `f64` they stand for).

pub mod mode;
pub mod queue;
pub mod slots;
pub mod buff;
pub mod condition;
pub mod decide;
pub mod engine;
pub mod procs;
pub mod stats;
