//! The messages the engine exchanges with the API.
use crate::decimal::Dec;
use crate::orderbook::{Fill, Order, OrderStatus, Side};
use vstd::prelude::*;

verus! {

/// A request from the API to the engine.
#[derive(Debug)]
pub enum IncomingMessageFromAPI {
    CreateOrder { market: String, price: Dec, quantity: Dec, side: Side },
    CancelOrder { market: String, order_id: String, user_id: String },
    GetDepth { market: String },
}

/// A reply from the engine to the API.
#[derive(Debug)]
pub enum OutgoingMessageToAPI {
    OrderPlaced { order_id: String, fills: Vec<Fill>, executed_quantity: Dec, order_status: OrderStatus },
    Depth { market: String, asks: Vec<(Dec, Dec)>, bids: Vec<(Dec, Dec)> },
    Error { message: String },
    OpenOrders { orders: Vec<Order> },
    OrderCancelled { order_id: String, executed_qty: Dec, remaining_qty: Dec },
}

impl OutgoingMessageToAPI {
    /// The `type` tag under which the reply is published.  Open orders and
    /// cancellations go out under the same tag as a placed order.
    pub fn kind(&self) -> (r: &'static str)
        ensures
            r@ == match self {
                OutgoingMessageToAPI::OrderPlaced { .. } => "ORDER_PLACED"@,
                OutgoingMessageToAPI::Depth { .. } => "DEPTH"@,
                OutgoingMessageToAPI::Error { .. } => "ERROR"@,
                OutgoingMessageToAPI::OpenOrders { .. } => "ORDER_PLACED"@,
                OutgoingMessageToAPI::OrderCancelled { .. } => "ORDER_PLACED"@,
            },
    {
        match self {
            OutgoingMessageToAPI::OrderPlaced { .. } => "ORDER_PLACED",
            OutgoingMessageToAPI::Depth { .. } => "DEPTH",
            OutgoingMessageToAPI::Error { .. } => "ERROR",
            OutgoingMessageToAPI::OpenOrders { .. } => "ORDER_PLACED",
            OutgoingMessageToAPI::OrderCancelled { .. } => "ORDER_PLACED",
        }
    }
}

} // verus!
