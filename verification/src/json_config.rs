//! The shape of the market-list configuration file: each market is named
//! by its own key and the key of its event heap, both rendered as text.
//! Reading and decoding the file is the surrounding process's business;
//! the engine only carries the values.

use vstd::prelude::*;

verus! {

/// One market of the configuration: its key and its event heap's key.
pub struct Market {
    pub market_pk: String,
    pub event_heap: String,
}

/// The whole configuration: the markets to crank.
pub struct Config {
    pub markets: Vec<Market>,
}

} // verus!
