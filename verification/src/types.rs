use vstd::prelude::*;

verus! {

/// Identifier of a market (an order book) on the exchange.
#[derive(Clone, Copy, Debug, PartialEq, Eq, Hash, Structural)]
pub struct MarketId(pub i32);

/// Index of a trading account on the exchange.
#[derive(Clone, Copy, Debug, PartialEq, Eq, Hash, Structural)]
pub struct AccountId(pub i64);

impl MarketId {
    pub fn new(value: i32) -> (id: MarketId)
        ensures
            id.0 == value,
    {
        MarketId(value)
    }

    pub fn into_inner(self) -> (value: i32)
        ensures
            value == self.0,
    {
        self.0
    }
}

impl AccountId {
    pub fn new(value: i64) -> (id: AccountId)
        ensures
            id.0 == value,
    {
        AccountId(value)
    }

    pub fn into_inner(self) -> (value: i64)
        ensures
            value == self.0,
    {
        self.0
    }
}

} // verus!
