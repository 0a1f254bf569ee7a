//! A reliable transaction submission and confirmation-tracking engine.
//!
//! A caller dispatches signed transactions to a network; every dispatched
//! transaction is recorded in a pending registry under its signature.  A
//! scanner walks newly produced blocks and matches confirmed transactions
//! back to their records; a reaper times out records that never confirm.
//! Both produce confirmation outcomes that a stats aggregator folds into
//! running counters.  All decision logic lives here, on plain values; the
//! surrounding process supplies network data and wall-clock instants.

pub mod records;
pub mod registry;
pub mod scanner;
pub mod reaper;
pub mod normalize;
pub mod stats;
pub mod dispatch;
pub mod json_config;
