//! The vocabulary shared by the book and the engine: sides, orders and trades.
use vstd::prelude::*;

verus! {

/// Identifier of an order.
pub type OrderId = u64;

/// A limit price, in ticks.
pub type Price = u64;

/// A number of units.
pub type Quantity = u32;

/// The side of the market an order is on.
#[derive(Clone, Copy, Debug, PartialEq, Eq, Structural)]
pub enum Side {
    Buy,
    Sell,
}

impl Side {
    /// The side an order of this side trades against.
    pub open spec fn opposite(self) -> Side {
        match self {
            Side::Buy => Side::Sell,
            Side::Sell => Side::Buy,
        }
    }

    /// The text of the side, `"Buy"` or `"Sell"`.
    pub fn to_string(&self) -> (text: String)
        ensures
            text@ == (match *self {
                Side::Buy => "Buy"@,
                Side::Sell => "Sell"@,
            }),
    {
        match self {
            Side::Buy => "Buy".to_owned(),
            Side::Sell => "Sell".to_owned(),
        }
    }
}

/// A limit order: who, which side, at what price, how much is left, and when it arrived.
#[derive(Clone, Debug, PartialEq, Eq, Structural)]
pub struct Order {
    pub id: OrderId,
    pub side: Side,
    pub price: Price,
    pub remaining: Quantity,
    pub timestamp: u64,
}

impl Order {
    pub fn new(id: OrderId, side: Side, price: Price, remaining: Quantity, timestamp: u64) -> (order: Self)
        ensures
            order == (Order { id, side, price, remaining, timestamp }),
    {
        Self { id, side, price, remaining, timestamp }
    }
}

/// An execution between a buy order and a sell order.
#[derive(Clone, Copy, Debug, PartialEq, Eq, Structural)]
pub struct Trade {
    pub buy_order_id: OrderId,
    pub sell_order_id: OrderId,
    pub price: Price,
    pub quantity: Quantity,
}

} // verus!
