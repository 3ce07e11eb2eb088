//! An order-matching engine for a spot exchange: order books with
//! price-time priority, the engine that holds the books and the users'
//! balances, and the messages exchanged with the API.
pub mod api;
pub mod book_laws;
pub mod clock;
pub mod decimal;
pub mod engine;
pub mod ids;
pub mod messages;
pub mod orderbook;
pub mod redis_client;
pub mod redis_manager;
pub mod trade_laws;
