//! Types the API takes from its callers and exchanges with the engine.
use crate::decimal::Dec;
use crate::orderbook::{Fill, Order, OrderStatus};
use vstd::prelude::*;

verus! {

/// The side of an order as the API receives it.
#[derive(Clone, Copy, Debug, PartialEq, Eq, Structural)]
pub enum Side {
    Bid,
    Ask,
}

/// A request from the API to the engine.
#[derive(Debug)]
pub enum OutgoingMessageToEngine {
    CreateOrder { market: String, price: Dec, quantity: Dec, side: Side },
    CancelOrder { order_id: String, user_id: String },
    GetDepth { market: String },
    GetOpenOrders { user_id: String, market: String },
}

/// The body of an order-creation request.
#[derive(Debug)]
pub struct CreateOrderData {
    pub user_id: String,
    pub market: String,
    pub quantity: Dec,
    pub price: Dec,
    pub side: Side,
}

/// A reply from the engine, as the API reads it.
#[derive(Debug)]
pub enum IncomingMessageFromEngine {
    Depth { market: String, asks: Vec<(Dec, Dec)>, bids: Vec<(Dec, Dec)> },
    OrderPlaced { order_id: String, fills: Vec<Fill>, executed_quantity: Dec, order_status: OrderStatus },
    OrderCancelled { order_id: String, executed_qty: Dec, remaining_qty: Dec },
    OpenOrders { orders: Vec<Order> },
    Error { message: String },
}

impl CreateOrderData {
    /// The request to the engine that an order-creation body asks for: the
    /// market, price, quantity and side (the user travels beside the
    /// request, not in it).
    pub fn to_engine_message(self) -> (r: OutgoingMessageToEngine)
        ensures
            r == (OutgoingMessageToEngine::CreateOrder {
                market: self.market,
                price: self.price,
                quantity: self.quantity,
                side: self.side,
            }),
    {
        OutgoingMessageToEngine::CreateOrder {
            market: self.market,
            price: self.price,
            quantity: self.quantity,
            side: self.side,
        }
    }
}

} // verus!
