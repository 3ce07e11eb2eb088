//! The API side: its connection to Redis and the types it shares with callers.
pub mod redis_manager;
pub mod types;
