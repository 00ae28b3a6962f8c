use vstd::prelude::*;

use crate::orderbook::OrderBook;

verus! {

/// The exchange: one order book.
pub struct KKSwap {
    pub orderbook: OrderBook,
}

} // verus!
